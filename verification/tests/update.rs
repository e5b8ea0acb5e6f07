use mkt_blanket::data::MktData;
use mkt_blanket::ids::{ItemType, Rarity};
use mkt_blanket::model::Item;
use mkt_blanket::update::{
    course_name, coverage_entries, listed_courses, listed_items, listed_miis, listed_page_items,
    add_listed_items_and_courses, add_listed_miis, add_page_items, apply_coverage_pages, CoverageLink, CoveragePage, CoverageRow, CoverageTable,
};

fn texts(v: &[&str]) -> Vec<String> {
    v.iter().map(|s| s.to_string()).collect()
}

fn template_rows() -> Vec<Vec<String>> {
    let mut rows: Vec<Vec<String>> = vec![vec![]; 26];
    rows[2] = texts(&["Mario", "Mii Racing Suit", "Luigi"]);
    rows[3] = texts(&["Peach (Vacation)"]);
    rows[4] = texts(&["Dry Bowser"]);
    rows[6] = texts(&["Pipe Frame"]);
    rows[8] = texts(&["Gold Standard"]);
    rows[9] = texts(&["Super Glider"]);
    rows[10] = texts(&["Peach Parasol"]);
    rows[14] = texts(&["Mario Circuit (R, T)", "tour appearances"]);
    rows[15] = texts(&["New York Minute"]);
    rows[17] = texts(&["Mario Circuit 1 (R)"]);
    rows
}

fn item<'a>(list: &'a [(String, Item)], id: &str) -> &'a Item {
    &list.iter().find(|(k, _)| k == id).unwrap().1
}

#[test]
fn course_names_join_prefix_name_and_variant() {
    assert_eq!(course_name("", "Mario Circuit", ""), "Mario Circuit");
    assert_eq!(course_name("", "Mario Circuit", "R"), "Mario Circuit R");
    assert_eq!(course_name("SNES", "Mario Circuit 1", "R"), "SNES Mario Circuit 1R");
    assert_eq!(course_name("SNES", "Mario Circuit 1", ""), "SNES Mario Circuit 1");
    assert_eq!(course_name("N64", "Koopa Troopa Beach", "T"), "N64 Koopa Troopa Beach T");
}

#[test]
fn template_lists_items_and_courses() {
    let rows = template_rows();
    let drivers = listed_items(&rows, 2, true);
    assert_eq!(
        drivers,
        vec![
            ("Mario".to_string(), Rarity::Normal),
            ("Luigi".to_string(), Rarity::Normal),
            ("Peach (Vacation)".to_string(), Rarity::Super),
            ("Dry Bowser".to_string(), Rarity::HighEnd),
        ]
    );
    assert_eq!(listed_items(&rows, 2, false).len(), 5);
    assert_eq!(
        listed_courses(&rows),
        texts(&[
            "Mario Circuit",
            "Mario Circuit R",
            "Mario Circuit T",
            "New York Minute",
            "SNES Mario Circuit 1",
            "SNES Mario Circuit 1R",
        ])
    );
}

#[test]
fn template_fills_the_database() {
    let rows = template_rows();
    let mut data = MktData::new();
    add_listed_items_and_courses(&mut data, &rows);
    assert_eq!(data.drivers.len(), 4);
    assert_eq!(data.karts.len(), 2);
    assert_eq!(data.gliders.len(), 2);
    assert_eq!(data.courses.len(), 6);
    let luigi = item(&data.drivers, "d_luigi");
    assert_eq!(luigi.sort, Some(2));
    assert_eq!(luigi.rarity, Rarity::Normal);
    assert_eq!(item(&data.drivers, "d_peach_vacation").sort, Some(3));
    assert_eq!(item(&data.drivers, "d_dry_bowser").rarity, Rarity::HighEnd);
    assert_eq!(item(&data.karts, "k_gold_standard").sort, Some(2));
    assert_eq!(item(&data.karts, "k_gold_standard").rarity, Rarity::HighEnd);
    assert_eq!(item(&data.gliders, "g_peach_parasol").rarity, Rarity::Super);
    let c = &data.courses.iter().find(|(k, _)| k == "c_snes_mario_circuit_1r").unwrap().1;
    assert_eq!(c.name, "SNES Mario Circuit 1R");
    assert_eq!(c.sort, Some(6));
    assert!(c.last_changed.is_some());
    assert!(data.courses.iter().any(|(k, _)| k == "c_mario_circuit_t"));
}

#[test]
fn mii_drivers_follow_the_other_drivers() {
    let mut data = MktData::new();
    add_listed_items_and_courses(&mut data, &template_rows());
    let mut rows: Vec<Vec<String>> = vec![vec![]; 7];
    rows[2] = texts(&["Mii A", "Mii B"]);
    rows[3] = texts(&["not a mii"]);
    rows[6] = texts(&["Mii C"]);
    assert_eq!(listed_miis(&rows).len(), 3);
    add_listed_miis(&mut data, &rows);
    assert_eq!(data.drivers.len(), 7);
    let c = item(&data.drivers, "d_mii_c");
    assert_eq!(c.sort, Some(7));
    assert_eq!(c.rarity, Rarity::HighEnd);
    assert_eq!(item(&data.drivers, "d_mii_a").sort, Some(5));
}

#[test]
fn item_pages_give_items_with_known_rarities() {
    let cells = vec![
        ("Mario<br>(Musician)".to_string(), Some(" High-End\n".to_string())),
        ("Unknown".to_string(), Some("Legendary".to_string())),
        ("Toad".to_string(), None),
        (" Yoshi<br/>".to_string(), Some("Normal".to_string())),
    ];
    let items = listed_page_items(&cells);
    assert_eq!(
        items,
        vec![
            ("Mario (Musician)".to_string(), Rarity::HighEnd),
            ("Yoshi".to_string(), Rarity::Normal),
        ]
    );
    let mut data = MktData::new();
    add_page_items(&mut data, ItemType::Kart, &cells);
    assert_eq!(data.drivers.len(), 0);
    assert_eq!(data.karts.len(), 2);
    assert_eq!(item(&data.karts, "k_yoshi").sort, Some(2));
}

fn link(title: &str, stars: Option<usize>) -> CoverageLink {
    CoverageLink { title: Some(title.to_string()), stars }
}

fn coverage_pages() -> Vec<CoveragePage> {
    let high = CoverageRow {
        first_text: Some("Normal High-End".to_string()),
        cells: vec![
            vec![link("Mario Circuit", None)],
            vec![link("Mario", None)],
            vec![link("Pipe Frame", Some(2))],
            vec![link("Super Glider's icon from Mario Kart Tour", None), CoverageLink { title: None, stars: None }],
        ],
    };
    let sup = CoverageRow {
        first_text: None,
        cells: vec![vec![link("Luigi", None)], vec![], vec![]],
    };
    let normal = CoverageRow { first_text: None, cells: vec![] };
    let table1 = CoverageTable { name: Some("Mario Circuit".to_string()), rows: vec![high, sup, normal] };
    let high2 = CoverageRow {
        first_text: Some("R High-End".to_string()),
        cells: vec![vec![], vec![link("Luigi", Some(3))]],
    };
    let table2 = CoverageTable {
        name: Some("Mario Circuit 1".to_string()),
        rows: vec![
            high2,
            CoverageRow { first_text: None, cells: vec![] },
            CoverageRow { first_text: None, cells: vec![] },
            CoverageRow { first_text: Some("dropped".to_string()), cells: vec![] },
        ],
    };
    let unnamed = CoverageTable { name: None, rows: vec![] };
    vec![CoveragePage { prefix: "SNES".to_string(), tables: vec![table1, unnamed, table2] }]
}

fn coverage_data() -> MktData {
    let mut data = MktData::new();
    for (t, name) in [
        (ItemType::Driver, "Mario"),
        (ItemType::Driver, "Luigi"),
        (ItemType::Kart, "Pipe Frame"),
        (ItemType::Glider, "Super Glider"),
    ] {
        let it = Item::new(t, Rarity::Normal, name.to_string(), Some(1));
        let entry = (it.id.clone(), it);
        match t {
            ItemType::Driver => data.drivers.push(entry),
            ItemType::Kart => data.karts.push(entry),
            ItemType::Glider => data.gliders.push(entry),
        }
    }
    data
}

#[test]
fn coverage_pages_give_courses_and_links() {
    let entries = coverage_entries(&coverage_pages());
    assert_eq!(entries.len(), 2);
    assert_eq!(entries[0].name, "SNES Mario Circuit");
    assert_eq!(entries[0].sort, 1);
    assert_eq!(
        entries[0].links,
        vec![
            (ItemType::Driver, "Mario".to_string(), 1),
            (ItemType::Kart, "Pipe Frame".to_string(), 6),
            (ItemType::Glider, "Super Glider".to_string(), 1),
            (ItemType::Driver, "Luigi".to_string(), 0),
        ]
    );
    assert_eq!(entries[1].name, "SNES Mario Circuit 1R");
    assert_eq!(entries[1].sort, 2);
    assert_eq!(entries[1].links, vec![(ItemType::Driver, "Luigi".to_string(), 8)]);
}

#[test]
fn coverage_is_kept_on_both_sides() {
    let mut data = coverage_data();
    apply_coverage_pages(&mut data, &coverage_pages());
    assert_eq!(data.courses.len(), 2);
    let c = &data.courses.iter().find(|(k, _)| k == "c_snes_mario_circuit").unwrap().1;
    let mut favs: Vec<(String, u8)> = c.favorite_items.iter().map(|r| (r.id.clone(), r.lvl)).collect();
    favs.sort();
    assert_eq!(
        favs,
        vec![
            ("d_mario".to_string(), 1),
            ("g_super_glider".to_string(), 1),
            ("k_pipe_frame".to_string(), 6),
        ]
    );
    let pipe = item(&data.karts, "k_pipe_frame");
    assert_eq!(pipe.favorite_courses.len(), 1);
    assert_eq!(pipe.favorite_courses[0].id, "c_snes_mario_circuit");
    assert_eq!(pipe.favorite_courses[0].lvl, 6);
    let luigi = item(&data.drivers, "d_luigi");
    assert_eq!(luigi.favorite_courses.len(), 1);
    assert_eq!(luigi.favorite_courses[0].id, "c_snes_mario_circuit_1r");
    assert_eq!(luigi.favorite_courses[0].lvl, 8);
}
