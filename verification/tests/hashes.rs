use mkt_blanket::agents::{data_is_newer, hashes_to_store, update_response, UpdateResponse};
use mkt_blanket::data::{MktData, MktItemHashes};
use mkt_blanket::ids::{ItemType, Rarity};
use mkt_blanket::import::{import_hashes, item_result};
use mkt_blanket::model::{Item, Timestamp};
use mkt_blanket::screenshot::{closest_item, dist_hash, HASH_ITEM_THRESHOLD};

#[test]
fn hash_distances() {
    assert_eq!(dist_hash("AAAA", "////"), 24);
    assert_eq!(dist_hash("AAAA|AAAA", "////|AQID"), 96);
    assert_eq!(dist_hash("AAAA", "AAAA"), 1);
    assert_eq!(dist_hash("AAAA", "AAAB"), 1);
    assert_eq!(dist_hash("AAAA", "AAAA|AAAA"), u32::MAX);
    assert_eq!(dist_hash("!!!!", "AAAA"), u32::MAX);
    assert_eq!(dist_hash("////|AQID", "AAAA|AAAA"), dist_hash("AAAA|AAAA", "////|AQID"));
}

#[test]
fn closest_known_hash_wins() {
    let known = vec![
        ("d_far".to_string(), "////".to_string()),
        ("d_mid".to_string(), "AQID".to_string()),
        ("d_same".to_string(), "AAAA".to_string()),
        ("d_same_again".to_string(), "AAAA".to_string()),
    ];
    assert_eq!(closest_item("AAAA", &known), Some("d_same".to_string()));
    assert_eq!(closest_item("AAAD", &known[..2].to_vec()), Some("d_mid".to_string()));
    assert_eq!(closest_item("AAAA", &known[..2].to_vec()), Some("d_mid".to_string()));
    assert_eq!(closest_item("!!", &known), None);
    assert!(24 < HASH_ITEM_THRESHOLD);
}

fn hashes(pairs: &[(&str, &str)]) -> MktItemHashes {
    MktItemHashes::from_pairs(pairs.iter().map(|(a, b)| (a.to_string(), b.to_string())).collect())
}

#[test]
fn hash_lists_merge_and_flatten() {
    let mut h = hashes(&[("d_a", "h1"), ("d_b", "h2"), ("d_a", "h3")]);
    assert_eq!(h.hashes.len(), 2);
    h.merge(hashes(&[("d_a", "h4"), ("d_c", "h5")]));
    let mut pairs = h.pairs();
    pairs.sort();
    assert_eq!(
        pairs,
        vec![
            ("d_a".to_string(), "h1".to_string()),
            ("d_a".to_string(), "h3".to_string()),
            ("d_a".to_string(), "h4".to_string()),
            ("d_b".to_string(), "h2".to_string()),
            ("d_c".to_string(), "h5".to_string()),
        ]
    );
    let a = &h.hashes.iter().find(|(k, _)| k == "d_a").unwrap().1;
    assert_eq!(a, &vec!["h1".to_string(), "h3".to_string(), "h4".to_string()]);
}

#[test]
fn database_hashes_round_trip() {
    let mut data = MktData::new();
    let mario = Item::new(ItemType::Driver, Rarity::Normal, "Mario".to_string(), Some(1));
    data.drivers.push((mario.id.clone(), mario));
    data.merge_hashes(&hashes(&[("d_mario", "AAAA"), ("d_ghost", "////")]));
    assert_eq!(data.drivers[0].1.hashes, vec!["AAAA".to_string()]);
    let back = data.hashes();
    assert_eq!(back.hashes.len(), 1);
    assert_eq!(back.hashes[0].1, vec!["AAAA".to_string()]);
    let all = import_hashes(&data, Some(&hashes(&[("d_mario", "AQID")])));
    assert_eq!(all.hashes[0].1, vec!["AAAA".to_string(), "AQID".to_string()]);
}

#[test]
fn workers_decide() {
    let t = |secs, nanos| Timestamp { secs, nanos };
    assert!(data_is_newer(t(10, 0), t(9, 999)));
    assert!(data_is_newer(t(10, 5), t(10, 4)));
    assert!(!data_is_newer(t(10, 4), t(10, 4)));
    assert!(!data_is_newer(t(9, 9), t(10, 0)));
    assert_eq!(update_response(true), UpdateResponse::DoneDataUpdate);
    assert_eq!(update_response(false), UpdateResponse::NoDataUpdate);
    assert!(hashes_to_store(None, MktItemHashes::new()).is_none());
    let stored = hashes(&[("d_a", "h1")]);
    let merged = hashes_to_store(Some(stored), hashes(&[("d_a", "h2")])).unwrap();
    assert_eq!(merged.hashes[0].1, vec!["h1".to_string(), "h2".to_string()]);
    assert_eq!(hashes_to_store(None, hashes(&[("d_b", "h3")])).unwrap().hashes.len(), 1);
}

#[test]
fn merged_hashes_come_back_out() {
    let mut data = MktData::new();
    for n in ["Mario", "Peach"] {
        let i = Item::new(ItemType::Driver, Rarity::Normal, n.to_string(), None);
        data.drivers.push((i.id.clone(), i));
    }
    let k = Item::new(ItemType::Kart, Rarity::Normal, "Pipe Frame".to_string(), None);
    data.karts.push((k.id.clone(), k));
    let h = MktItemHashes::from_lists(vec![
        ("d_mario".to_string(), vec!["A".to_string(), "B".to_string()]),
        ("k_pipe_frame".to_string(), vec!["C".to_string()]),
        ("d_nobody".to_string(), vec!["D".to_string()]),
        ("d_peach".to_string(), vec![]),
    ]);
    data.merge_hashes(&h);
    let mut back: Vec<(String, Vec<String>)> = data.hashes().hashes;
    back.sort();
    assert_eq!(
        back,
        vec![
            ("d_mario".to_string(), vec!["A".to_string(), "B".to_string()]),
            ("k_pipe_frame".to_string(), vec!["C".to_string()]),
        ]
    );
}

#[test]
fn an_item_picture_is_recognized_kept_or_dropped() {
    let known = vec![("k_pipe_frame".to_string(), "AAAA".to_string())];
    let r = item_result("AAAB".to_string(), &known, Some(3), Some(45), false).unwrap();
    assert_eq!(r.id.as_deref(), Some("k_pipe_frame"));
    assert_eq!(r.i_type, Some(ItemType::Kart));
    assert_eq!((r.lvl, r.points, r.has_img), (Some(3), Some(45), false));
    assert_eq!(r.hash, "AAAB");
    let kept = item_result("!!".to_string(), &known, None, Some(7), true).unwrap();
    assert_eq!((kept.id, kept.i_type, kept.points, kept.has_img), (None, None, Some(7), true));
    assert!(item_result("!!".to_string(), &known, None, None, false).is_none());
}
