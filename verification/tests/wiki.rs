use mkt_blanket::data::MktData;
use mkt_blanket::ids::{ItemType, Rarity};
use mkt_blanket::update::{add_listed_items_and_courses, CoverageLink};
use mkt_blanket::wiki::{
    coverage_page, item_page_cells, mii_rows, template_rows, update_mkt_item_and_course_data,
    update_mkt_item_coverage_data, update_mkt_item_data, update_mkt_mii_data,
};

fn texts(v: &[&str]) -> Vec<String> {
    v.iter().map(|s| s.to_string()).collect()
}

fn summary_rows() -> Vec<Vec<String>> {
    let mut rows: Vec<Vec<String>> = vec![vec![]; 26];
    rows[2] = texts(&["Mario", "Luigi", "Mii Racing Suit"]);
    rows[3] = texts(&["Peach (Vacation)"]);
    rows[4] = texts(&["Dry Bowser"]);
    rows[6] = texts(&["Pipe Frame"]);
    rows[8] = texts(&["Gold Standard"]);
    rows[9] = texts(&["Super Glider"]);
    rows[10] = texts(&["Peach Parasol"]);
    rows[14] = texts(&["Mario Circuit (R, T)", "tour appearances"]);
    rows[15] = texts(&["New York Minute"]);
    rows[17] = texts(&["Mario Circuit 1 (R)"]);
    rows
}

fn summary_html(rows: &[Vec<String>]) -> String {
    let mut html = String::from("<html><body><table>");
    for row in rows {
        html.push_str("<tr><th>kind</th><td>");
        for name in row {
            html.push_str(&format!("<a href=\"#\">{}</a> ", name));
        }
        html.push_str("</td></tr>");
    }
    html.push_str("</table></body></html>");
    html
}

#[test]
fn summary_rows_are_the_link_texts_of_their_cells() {
    let html = "<table><tr><td><a>Mario</a> <a>Lu<i>igi</i></a></td></tr>\
                <tr><th><a>Header</a></th><td><b><a>Peach</a></b></td></tr></table>";
    assert_eq!(template_rows(html), vec![texts(&["Mario", "Luigi"]), texts(&["Peach"])]);
}

#[test]
fn summary_page_fills_the_database() {
    let rows = summary_rows();
    let mut from_rows = MktData::new();
    add_listed_items_and_courses(&mut from_rows, &rows);
    let mut data = MktData::new();
    assert!(update_mkt_item_and_course_data(&mut data, &summary_html(&rows)));
    let ids = |d: &MktData| d.drivers.iter().map(|(k, i)| (k.clone(), i.sort)).collect::<Vec<_>>();
    assert_eq!(ids(&data), ids(&from_rows));
    assert_eq!(data.karts.len(), 2);
    assert_eq!(data.gliders.len(), 2);
    assert_eq!(data.courses.len(), 6);
}

#[test]
fn a_short_summary_page_changes_nothing() {
    let mut data = MktData::new();
    assert!(!update_mkt_item_and_course_data(&mut data, &summary_html(&summary_rows()[..20])));
    assert!(data.drivers.is_empty() && data.courses.is_empty());
}

const MII_PAGE: &str = "<h4><span id=\"Mario_Kart_Tour\">Mario Kart Tour</span></h4><p>text</p>\
    <table><tr><th>a</th></tr><tr><td>b</td></tr>\
    <tr><td><b>Mii A</b> (new)</td><td><b>Mii B</b></td></tr><tr><td><b>skipped</b></td></tr>\
    <tr><td>c</td></tr><tr><td>d</td></tr><tr><td><b>Mii C</b></td></tr></table>";

#[test]
fn mii_rows_hold_the_bold_cells_of_every_fourth_row() {
    let rows = mii_rows(MII_PAGE).unwrap();
    let mut expected: Vec<Vec<String>> = vec![vec![]; 7];
    expected[2] = texts(&["Mii A", "Mii B"]);
    expected[6] = texts(&["Mii C"]);
    assert_eq!(rows, expected);
    assert_eq!(mii_rows("<p>no table</p>"), None);
    assert_eq!(mii_rows("<h4><span id=\"Mario_Kart_Tour\">x</span></h4><p>no table</p>"), None);
}

#[test]
fn mii_page_adds_high_end_drivers() {
    let mut data = MktData::new();
    assert!(update_mkt_mii_data(&mut data, MII_PAGE));
    assert_eq!(data.drivers.len(), 3);
    let c = &data.drivers.iter().find(|(k, _)| k == "d_mii_c").unwrap().1;
    assert_eq!((c.sort, c.rarity), (Some(3), Rarity::HighEnd));
    let mut untouched = MktData::new();
    assert!(!update_mkt_mii_data(&mut untouched, "<p>nothing</p>"));
    assert!(untouched.drivers.is_empty());
}

const KART_PAGE: &str = "<h2>Karts</h2><table><tbody>\
    <tr><th><a title=\"Pipe Frame\">Pipe Frame</a></th><th><a title=\"Gold Standard\">Gold</a><br>Standard</th></tr>\
    <tr><td>x</td></tr><tr><td>y</td></tr>\
    <tr><td>Normal</td><td>High-End</td></tr><tr><td>z</td></tr>\
    </tbody></table>";

const SIX_ROW_PAGE: &str = "<h2>Drivers</h2><table><tbody>\
    <tr><th><a title=\"Mario\">Mario</a></th><th><a title=\"Toad\">Toad</a></th></tr>\
    <tr><td>x</td></tr><tr><td>y</td></tr>\
    <tr><td>Normal</td><td>Super</td></tr><tr><td>z</td></tr><tr><td>w</td></tr>\
    </tbody></table>";

#[test]
fn item_pages_pair_names_with_rarities() {
    let cells = item_page_cells(KART_PAGE, 5).unwrap();
    assert_eq!(
        cells,
        vec![
            ("Pipe Frame".to_string(), Some("Normal".to_string())),
            ("Gold ".to_string(), Some("High-End".to_string())),
        ]
    );
    assert_eq!(item_page_cells("<table><tbody><tr><td>x</td></tr></tbody></table>", 5), None);
    assert_eq!(item_page_cells(KART_PAGE, 7), item_page_cells(KART_PAGE, 5));
    assert_eq!(item_page_cells(SIX_ROW_PAGE, 5), None);
    assert_eq!(item_page_cells(SIX_ROW_PAGE, 7).map(|c| c.len()), Some(2));
}

#[test]
fn item_page_adds_items_of_its_type() {
    let mut data = MktData::new();
    assert!(update_mkt_item_data(&mut data, ItemType::Kart, KART_PAGE));
    assert_eq!(data.karts.len(), 2);
    let g = &data.karts.iter().find(|(k, _)| k == "k_gold").unwrap().1;
    assert_eq!((g.sort, g.rarity), (Some(2), Rarity::HighEnd));
    let mut karts = MktData::new();
    assert!(!update_mkt_item_data(&mut karts, ItemType::Kart, SIX_ROW_PAGE));
    assert!(karts.karts.is_empty());
    let mut drivers = MktData::new();
    assert!(update_mkt_item_data(&mut drivers, ItemType::Driver, SIX_ROW_PAGE));
    assert_eq!(drivers.drivers.len(), 2);
}

const COVERAGE_PAGE: &str = "<h2><a title=\"Mario Circuit\">Mario Circuit</a></h2><table>\
    <tr><th>Rarity</th><th>Drivers</th></tr>\
    <tr><td>High-End items</td><td><a title=\"Mario\">M</a><sup>**</sup> <a title=\"Peach\">P</a></td><td><a><img alt=\"x\"></a></td></tr>\
    </table><h3>Other</h3><table><tr><td>not read</td></tr></table>";

#[test]
fn coverage_pages_give_tables_rows_and_links() {
    let page = coverage_page("SNES", COVERAGE_PAGE);
    assert_eq!(page.prefix, "SNES");
    assert_eq!(page.tables.len(), 1);
    let t = &page.tables[0];
    assert_eq!(t.name, Some("Mario Circuit".to_string()));
    assert_eq!(t.rows.len(), 1);
    let r = &t.rows[0];
    assert_eq!(r.first_text, Some("High-End items".to_string()));
    let links: Vec<Vec<(Option<String>, Option<usize>)>> = r
        .cells
        .iter()
        .map(|c| c.iter().map(|l: &CoverageLink| (l.title.clone(), l.stars)).collect())
        .collect();
    assert_eq!(
        links,
        vec![
            vec![],
            vec![(Some("Mario".to_string()), Some(2)), (Some("Peach".to_string()), None)],
            vec![(None, None)],
        ]
    );
}

#[test]
fn coverage_update_reads_every_page() {
    let mut data = MktData::new();
    let pages = vec![("SNES".to_string(), COVERAGE_PAGE.to_string()), ("".to_string(), "<p>empty</p>".to_string())];
    assert!(update_mkt_item_coverage_data(&mut data, &pages));
}
