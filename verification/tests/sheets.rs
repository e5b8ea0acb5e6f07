use mkt_blanket::data::{MktData, MktInventory};
use mkt_blanket::export::{decimal_text, mkthub_csv};
use mkt_blanket::ids::{ItemType, Rarity};
use mkt_blanket::model::{Course, Item, OwnedItem};
use mkt_blanket::nav::Page;
use mkt_blanket::sheet::{
    apply_sheet, apply_sheet_text, clear_favorites, find_sheet_course, link_sheet_row, sheet_entry, sheet_name,
    SheetError,
};
use mkt_blanket::stats::DataInventory;

fn texts(v: &[&str]) -> Vec<String> {
    v.iter().map(|s| s.to_string()).collect()
}

#[test]
fn sheet_rows_give_course_and_level() {
    assert_eq!(
        sheet_entry(&texts(&["Mario", "", "Mario Circuit", "", ""])),
        Some(("MARIO".to_string(), "MARIO CIRCUIT".to_string(), 3))
    );
    assert_eq!(
        sheet_entry(&texts(&["Peach", "Rainbow Road", "x", "", ""])),
        Some(("PEACH".to_string(), "RAINBOW ROAD".to_string(), 1))
    );
    assert_eq!(sheet_entry(&texts(&["Toad", "", "", "", "Bowser Castle"])).map(|e| e.2), Some(8));
    assert_eq!(sheet_entry(&texts(&["", "Rainbow Road", "", "", ""])), None);
    assert_eq!(sheet_entry(&texts(&["Toad", "", "", "", ""])), None);
}

#[test]
fn sheet_course_names_are_plain_upper_case() {
    assert_eq!(sheet_name("3DS Rock Rock Mountain R/T"), "3DS ROCK ROCK MOUNTAIN RT");
    assert_eq!(sheet_name("Pokémon Circuit"), "POKEMON CIRCUIT");
}

fn courses() -> MktData {
    let mut data = MktData::new();
    for (n, s) in [("RMX Rainbow Road 1", 1), ("SNES Rainbow Road", 2), ("Rainbow Road", 3), ("N64 Rainbow Road", 4)] {
        let c = Course::new(n.to_string(), Some(s));
        data.courses.push((c.id.clone(), c));
    }
    data
}

#[test]
fn sheet_courses_match_exactly_first() {
    let data = courses();
    assert_eq!(find_sheet_course(&data.courses, "RAINBOW ROAD"), Some(2));
    assert_eq!(find_sheet_course(&data.courses, "N64 RAINBOW ROAD"), Some(3));
    assert_eq!(find_sheet_course(&data.courses, "ROAD"), Some(1));
    assert_eq!(find_sheet_course(&data.courses, "ROAD 1"), None);
    assert_eq!(find_sheet_course(&data.courses, "BOWSER CASTLE"), None);
}

#[test]
fn sheet_links_are_kept_on_both_sides() {
    let mut data = courses();
    let m = Item::new(ItemType::Driver, Rarity::Normal, "Mario".to_string(), Some(1));
    data.drivers.push((m.id.clone(), m));
    link_sheet_row(&mut data, 2, ItemType::Driver, 0, 6);
    link_sheet_row(&mut data, 2, ItemType::Driver, 0, 6);
    let c = &data.courses[2].1;
    assert_eq!(c.favorite_items.len(), 1);
    assert_eq!((c.favorite_items[0].id.as_str(), c.favorite_items[0].lvl), ("d_mario", 6));
    let it = &data.drivers[0].1;
    assert_eq!(it.favorite_courses.len(), 1);
    assert_eq!((it.favorite_courses[0].id.as_str(), it.favorite_courses[0].lvl), ("c_rainbow_road", 6));
    clear_favorites(&mut data);
    assert!(data.courses[2].1.favorite_items.is_empty());
    assert!(data.drivers[0].1.favorite_courses.is_empty());
    assert_eq!(data.drivers[0].1.name, "Mario");
}

#[test]
fn location_hashes_lead_to_pages() {
    assert_eq!(Page::from("#".to_string()), Page::Main);
    assert_eq!(Page::from("#courses".to_string()), Page::Courses);
    assert_eq!(Page::from("#items/karts".to_string()), Page::Items);
    assert_eq!(Page::from("#import".to_string()), Page::ImportExpot);
    assert_eq!(Page::from("#data".to_string()), Page::DataManager);
    assert_eq!(Page::from("#nowhere".to_string()), Page::Main);
}

#[test]
fn numbers_in_decimal() {
    assert_eq!(decimal_text(0), "0");
    assert_eq!(decimal_text(7), "7");
    assert_eq!(decimal_text(1200), "1200");
    assert_eq!(decimal_text(u64::MAX), u64::MAX.to_string());
}

#[test]
fn mkthub_sheet_lists_owned_items_in_order() {
    let mut data = MktData::new();
    for (t, n, s) in [
        (ItemType::Kart, "Pipe Frame", Some(1)),
        (ItemType::Driver, "Luigi", Some(2)),
        (ItemType::Driver, "Mario", Some(1)),
        (ItemType::Driver, "Toad", None),
        (ItemType::Driver, "Peach", Some(3)),
    ] {
        let it = Item::new(t, Rarity::Normal, n.to_string(), s);
        match t {
            ItemType::Kart => data.karts.push((it.id.clone(), it)),
            _ => data.drivers.push((it.id.clone(), it)),
        }
    }
    let mut inv = MktInventory::new();
    for (id, l, p) in [("d_mario", 7, 1200), ("d_luigi", 1, 0), ("d_toad", 2, 30), ("k_pipe_frame", 3, 45)] {
        let o = OwnedItem::new(id.to_string(), l, p);
        if id.starts_with("k_") {
            inv.karts.push((id.to_string(), o));
        } else {
            inv.drivers.push((id.to_string(), o));
        }
    }
    let mut state = DataInventory::new();
    state.apply_data(&data);
    state.apply_inventory(&inv);
    assert_eq!(
        mkthub_csv(&state),
        "DRIVER NAME,LEVEL,SKILL,POINTS\nToad,2,0,30\nMario,7,0,1200\nLuigi,1,0,0\nPipe Frame,3,0,45\n"
    );
}

#[test]
fn the_whole_sheet_is_recorded_on_both_sides() {
    let mut data = courses();
    for (t, n) in [(ItemType::Driver, "Mario"), (ItemType::Kart, "Pipe Frame")] {
        let i = Item::new(t, Rarity::Normal, n.to_string(), None);
        match t {
            ItemType::Driver => data.drivers.push((i.id.clone(), i)),
            _ => data.karts.push((i.id.clone(), i)),
        }
    }
    data.drivers[0].1.favorite_courses.push(mkt_blanket::model::CourseAvailability { id: "c_old".to_string(), lvl: 2 });
    let records = vec![
        texts(&["Mario", "", "", "Rainbow Road", ""]),
        texts(&["Pipe Frame", "N64 Rainbow Road", "", "", ""]),
        texts(&["Nobody", "Rainbow Road", "", "", ""]),
        texts(&["Mario", "", "", "", "Bowser Castle"]),
    ];
    apply_sheet(&mut data, &records);
    let mario = &data.drivers[0].1;
    let favs: Vec<(String, u8)> = mario.favorite_courses.iter().map(|a| (a.id.clone(), a.lvl)).collect();
    assert_eq!(favs, vec![("c_rainbow_road".to_string(), 6)]);
    let road = &data.courses.iter().find(|(k, _)| k == "c_rainbow_road").unwrap().1;
    let items: Vec<(String, u8)> = road.favorite_items.iter().map(|r| (r.id.clone(), r.lvl)).collect();
    assert_eq!(items, vec![("d_mario".to_string(), 6)]);
    let n64 = &data.courses.iter().find(|(k, _)| k == "c_n64_rainbow_road").unwrap().1;
    assert_eq!(n64.favorite_items.len(), 1);
    assert_eq!(data.karts[0].1.favorite_courses[0].lvl, 1);
}

#[test]
fn the_sheet_is_read_from_its_csv_text() {
    let mut data = courses();
    let i = Item::new(ItemType::Driver, Rarity::Normal, "Mario".to_string(), None);
    data.drivers.push((i.id.clone(), i));
    let text = "Item,Lvl 1,Lvl 3,Lvl 6,Lvl 8\nMario,,Rainbow Road,,\n";
    assert_eq!(apply_sheet_text(&mut data, text), Ok(()));
    let favs: Vec<(String, u8)> =
        data.drivers[0].1.favorite_courses.iter().map(|a| (a.id.clone(), a.lvl)).collect();
    assert_eq!(favs, vec![("c_rainbow_road".to_string(), 3)]);
    // a record with another number of fields than the header is malformed
    assert_eq!(apply_sheet_text(&mut data, "a,b,c,d,e\nMario,Rainbow Road\n"), Err(SheetError::Unreadable));
    assert_eq!(apply_sheet_text(&mut data, "a,b,c\nMario,Rainbow Road,\n"), Err(SheetError::ShortRecord));
    assert_eq!(data.drivers[0].1.favorite_courses.len(), 1);
}
