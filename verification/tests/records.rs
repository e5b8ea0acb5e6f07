use mkt_blanket::data::{MktData, MktInventory};
use mkt_blanket::deduce::{deduce_missing_owned_items, expected_item_ids, OwnedItemResult};
use mkt_blanket::edit::{item_edit, InventoryEdit, ItemEdit};
use mkt_blanket::ids::{ItemType, Rarity};
use mkt_blanket::import::{assign_screenshot_type, bootstrap_hashes, points_from_digits, BootstrapError};
use mkt_blanket::model::{Course, Item, ItemRequirement, Mergeable, OwnedItem, Timestamp};

fn item(t: ItemType, name: &str, sort: Option<u32>) -> Item {
    Item::new(t, Rarity::Normal, name.to_string(), sort)
}

#[test]
fn a_course_merge_takes_given_fields() {
    let mut old = Course::new("Mario Circuit".to_string(), Some(1));
    old.last_changed = Some(Timestamp { secs: 1, nanos: 0 });
    let mut new = Course::new("Mario Circuit".to_string(), None);
    new.last_changed = Some(Timestamp { secs: 2, nanos: 0 });
    old.merge(new);
    assert_eq!(old.sort, Some(1));
    assert_eq!(old.last_changed, Some(Timestamp { secs: 1, nanos: 0 }));
    let mut newer = Course::new("Mario Circuit".to_string(), Some(5));
    newer.favorite_items = vec![ItemRequirement { id: "d_mario".to_string(), lvl: 1 }];
    newer.last_changed = Some(Timestamp { secs: 3, nanos: 0 });
    old.merge(newer);
    assert_eq!(old.sort, Some(5));
    assert_eq!(old.favorite_items.len(), 1);
    assert_eq!(old.last_changed, Some(Timestamp { secs: 3, nanos: 0 }));
}

#[test]
fn merging_twice_is_merging_once() {
    let mut a = item(ItemType::Driver, "Mario", Some(1));
    a.last_changed = Some(Timestamp { secs: 1, nanos: 0 });
    let mut b = item(ItemType::Driver, "Mario", Some(2));
    b.rarity = Rarity::HighEnd;
    b.hashes = vec!["AAAA".to_string()];
    b.last_changed = Some(Timestamp { secs: 2, nanos: 0 });
    a.merge(b.duplicate());
    let once = a.duplicate();
    a.merge(b);
    assert_eq!(a.sort, once.sort);
    assert_eq!(a.rarity, Rarity::HighEnd);
    assert_eq!(a.hashes, once.hashes);
    assert_eq!(a.last_changed, once.last_changed);
}

#[test]
fn an_owned_item_merge_keeps_the_first_added_date() {
    let mut a = OwnedItem::new("d_mario".to_string(), 1, 10);
    a.added = None;
    let mut b = OwnedItem::new("d_mario".to_string(), 2, 10);
    b.added = Some(Timestamp { secs: 5, nanos: 0 });
    b.last_changed = Some(Timestamp { secs: 6, nanos: 0 });
    a.merge(b);
    assert_eq!((a.lvl, a.points), (2, 10));
    assert_eq!(a.added, Some(Timestamp { secs: 5, nanos: 0 }));
    assert_eq!(a.last_changed, Some(Timestamp { secs: 6, nanos: 0 }));
}

#[test]
fn databases_merge_by_id() {
    let mut a = MktData::new();
    let m = item(ItemType::Driver, "Mario", Some(1));
    a.drivers.push((m.id.clone(), m));
    let mut b = MktData::new();
    let m2 = item(ItemType::Driver, "Mario", Some(9));
    let l = item(ItemType::Driver, "Luigi", Some(2));
    b.drivers.push((m2.id.clone(), m2));
    b.drivers.push((l.id.clone(), l));
    a.merge(b);
    assert_eq!(a.drivers.len(), 2);
    assert_eq!(a.drivers[0].1.sort, Some(9));
    assert_eq!(a.drivers[1].0, "d_luigi");
}

#[test]
fn inventories_sort_items_by_database_type() {
    let mut data = MktData::new();
    let m = item(ItemType::Driver, "Mario", Some(1));
    let p = item(ItemType::Kart, "Pipe Frame", Some(1));
    data.drivers.push((m.id.clone(), m));
    data.karts.push((p.id.clone(), p));
    let items = vec![
        OwnedItem::new("d_mario".to_string(), 1, 0),
        OwnedItem::new("k_pipe_frame".to_string(), 2, 0),
        OwnedItem::new("d_nobody".to_string(), 3, 0),
        OwnedItem::new("d_mario".to_string(), 4, 0),
    ];
    let inv = MktInventory::from_items(items, &data);
    assert_eq!(inv.drivers.len(), 1);
    assert_eq!(inv.drivers[0].1.lvl, 4);
    assert_eq!(inv.karts.len(), 1);
    assert_eq!(inv.gliders.len(), 0);
    let mut mine = MktInventory::new();
    mine.update_inventory(inv);
    assert_eq!(mine.drivers[0].1.lvl, 4);
}

#[test]
fn points_are_read_units_first() {
    assert_eq!(points_from_digits(&vec![Some(5), Some(2), Some(1), None]), Some(125));
    assert_eq!(points_from_digits(&vec![Some(0), Some(0), Some(0), Some(2)]), Some(0));
    assert_eq!(points_from_digits(&vec![Some(9), Some(9), Some(9), Some(1)]), Some(1999));
    assert_eq!(points_from_digits(&vec![None, None, None, None]), None);
}

fn result(id: Option<&str>, t: Option<ItemType>, hash: &str) -> OwnedItemResult {
    OwnedItemResult {
        id: id.map(|s| s.to_string()),
        i_type: t,
        lvl: Some(1),
        points: Some(1),
        hash: hash.to_string(),
        has_img: false,
    }
}

fn three_drivers() -> MktData {
    let mut data = MktData::new();
    for (i, n) in ["A", "B", "C"].iter().enumerate() {
        let it = item(ItemType::Driver, n, Some(i as u32 + 1));
        data.drivers.push((it.id.clone(), it));
    }
    data
}

#[test]
fn deduction_follows_the_game_order() {
    let data = three_drivers();
    assert_eq!(expected_item_ids(&data.drivers), vec!["d_a", "d_b", "d_c", "<the_end>"]);
    let d = Some(ItemType::Driver);
    let mut items = vec![result(Some("d_a"), d, "1"), result(None, d, "2"), result(Some("d_c"), d, "3")];
    deduce_missing_owned_items(&mut items, &data);
    assert_eq!(items[1].id.as_deref(), Some("d_b"));
    assert_eq!(items[0].id.as_deref(), Some("d_a"));
    // the end of the list changes the type, which drops the waiting items:
    // an unknown item after the last recognized one stays unknown
    let mut tail = vec![result(Some("d_b"), d, "1"), result(None, d, "2")];
    deduce_missing_owned_items(&mut tail, &data);
    assert_eq!(tail[1].id, None);
}

#[test]
fn bootstrap_needs_one_picture_per_item() {
    let data = three_drivers();
    let items = vec![result(None, None, "AAAA"), result(None, None, "////")];
    match bootstrap_hashes(items, ItemType::Driver, &data) {
        Err(BootstrapError::WrongLength(2, 3)) => {},
        other => panic!("unexpected: {:?}", other.map(|h| h.hashes.len())),
    }
    let items = vec![result(None, None, "AAAA"), result(None, None, "////"), result(None, None, "AQID")];
    let h = bootstrap_hashes(items, ItemType::Driver, &data).ok().unwrap();
    assert_eq!(h.hashes.len(), 3);
}

#[test]
fn untyped_results_take_the_last_type_of_their_screenshot() {
    let mut items = vec![
        result(None, None, "a"),
        result(Some("d_mario"), Some(ItemType::Driver), "b"),
        result(None, None, "c"),
        result(Some("k_pipe_frame"), Some(ItemType::Kart), "d"),
        result(None, None, "e"),
    ];
    assign_screenshot_type(&mut items);
    let types: Vec<Option<ItemType>> = items.iter().map(|i| i.i_type).collect();
    assert_eq!(
        types,
        vec![
            Some(ItemType::Kart),
            Some(ItemType::Driver),
            Some(ItemType::Kart),
            Some(ItemType::Kart),
            Some(ItemType::Kart)
        ]
    );
    assert_eq!(items[2].hash, "c");
    assert_eq!(items[0].id, None);
}

#[test]
fn a_screenshot_without_known_items_keeps_its_results_untyped() {
    let mut items = vec![result(None, None, "a"), result(None, None, "b")];
    assign_screenshot_type(&mut items);
    assert!(items.iter().all(|i| i.i_type.is_none()));
}

#[test]
fn filled_ids_come_from_the_item_types_own_list() {
    let mut data = three_drivers();
    for (i, n) in ["X", "Y", "Z"].iter().enumerate() {
        let it = item(ItemType::Kart, n, Some(i as u32 + 1));
        data.karts.push((it.id.clone(), it));
    }
    let d = Some(ItemType::Driver);
    let k = Some(ItemType::Kart);
    let mut items = vec![
        result(Some("d_a"), d, "1"),
        result(None, d, "2"),
        result(Some("d_c"), d, "3"),
        result(Some("k_x"), k, "4"),
        result(None, k, "5"),
        result(Some("k_z"), k, "6"),
    ];
    deduce_missing_owned_items(&mut items, &data);
    let ids: Vec<Option<&str>> = items.iter().map(|i| i.id.as_deref()).collect();
    assert_eq!(ids, vec![Some("d_a"), Some("d_b"), Some("d_c"), Some("k_x"), Some("k_y"), Some("k_z")]);
}

#[test]
fn an_edit_sends_a_request_only_when_it_changes_the_record() {
    let o = OwnedItem::new("d_mario".to_string(), 3, 120);
    match item_edit(ItemType::Driver, Some(&o), ItemEdit::SetLevel(4)) {
        Some(InventoryEdit::AddItem(t, n)) => {
            assert_eq!(t, ItemType::Driver);
            assert_eq!((n.id.as_str(), n.lvl, n.points), ("d_mario", 4, 120));
            assert!(n.added.is_some());
        },
        other => panic!("unexpected: {:?}", other),
    }
    assert!(item_edit(ItemType::Driver, Some(&o), ItemEdit::SetLevel(3)).is_none());
    match item_edit(ItemType::Driver, Some(&o), ItemEdit::SetPoints(200)) {
        Some(InventoryEdit::AddItem(_, n)) => assert_eq!((n.lvl, n.points), (3, 200)),
        other => panic!("unexpected: {:?}", other),
    }
    assert!(item_edit(ItemType::Driver, Some(&o), ItemEdit::SetPoints(120)).is_none());
    match item_edit(ItemType::Driver, Some(&o), ItemEdit::Delete) {
        Some(InventoryEdit::RemoveItem(id)) => assert_eq!(id, "d_mario"),
        other => panic!("unexpected: {:?}", other),
    }
    assert!(item_edit(ItemType::Driver, None, ItemEdit::Delete).is_none());
}
