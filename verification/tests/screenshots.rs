//! The screenshot tests run the library's part of the import: the item
//! grid search on item masks laid out like each screenshot (the pictures
//! themselves are not part of this repository), then the decisions on the
//! recognition results (deduction, inventory). The pixel work that turns a
//! picture into a mask and recognition results stands outside the library.
use mkt_blanket::data::{MktData, MktInventory};
use mkt_blanket::deduce::OwnedItemResult;
use mkt_blanket::ids::{ItemType, Rarity};
use mkt_blanket::import::import_results;
use mkt_blanket::model::Item;
use mkt_blanket::rows::{find_item_areas, find_item_rows, rotate90};
use mkt_blanket::screenshot::ItemArea;

/// A black mask of `w` by `h` pixels with the given white boxes.
fn mask_with_boxes(w: u32, h: u32, boxes: &[ItemArea]) -> Vec<u8> {
    let mut px = vec![0u8; (w * h) as usize];
    for b in boxes {
        for y in b.y1..b.y2 {
            for x in b.x1..b.x2 {
                px[(y * w + x) as usize] = 255;
            }
        }
    }
    px
}

/// The boxes of a grid: `counts[r]` boxes in row `r`, each `bw` by `bh`,
/// separated by `gap` pixels, the first one at (`left`, `top`).
fn grid(counts: &[u32], left: u32, top: u32, bw: u32, bh: u32, gap: u32) -> Vec<ItemArea> {
    let mut boxes = vec![];
    for (r, n) in counts.iter().enumerate() {
        for c in 0..*n {
            let x1 = left + c * (bw + gap);
            let y1 = top + r as u32 * (bh + gap);
            boxes.push(ItemArea { x1, y1, x2: x1 + bw, y2: y1 + bh });
        }
    }
    boxes
}

/// Every cell of the grid rows by the grid columns, row after row.
fn full_grid(rows: u32, cols: u32, left: u32, top: u32, bw: u32, bh: u32, gap: u32) -> Vec<ItemArea> {
    grid(&vec![cols; rows as usize], left, top, bw, bh, gap)
}

fn driver_data(n: u32) -> MktData {
    let mut data = MktData::new();
    for i in 1..=n {
        let item = Item::new(ItemType::Driver, Rarity::Normal, format!("Driver {}", i), Some(i));
        data.drivers.push((item.id.clone(), item));
    }
    data
}

fn result(id: Option<&str>, lvl: u8, points: u16) -> OwnedItemResult {
    OwnedItemResult {
        id: id.map(|s| s.to_string()),
        i_type: Some(ItemType::Driver),
        lvl: Some(lvl),
        points: Some(points),
        hash: format!("hash-{:?}-{}", id, points),
        has_img: id.is_none(),
    }
}

fn owned(inv: &MktInventory, id: &str) -> Option<(u8, u16)> {
    inv.drivers.iter().find(|(k, _)| k == id).map(|(_, o)| (o.lvl, o.points))
}

/// Runs the grid search on a mask and checks the cells found.
fn check_cells(w: u32, h: u32, boxes: &[ItemArea], expected: &[ItemArea]) -> Vec<ItemArea> {
    let mask = mask_with_boxes(w, h, boxes);
    let cells = find_item_areas(&mask, w, h);
    assert_eq!(cells, expected.to_vec());
    cells
}

#[test]
fn inv_ipad() {
    // a tablet screenshot: six items to a row
    let boxes = full_grid(2, 6, 30, 40, 160, 200, 20);
    let cells = check_cells(1200, 520, &boxes, &boxes);
    assert_eq!(cells.len(), 12);
    let data = driver_data(12);
    let items = (0..12)
        .map(|i| {
            let id = format!("d_driver_{}", i + 1);
            if i == 0 || i == 11 {
                result(Some(id.as_str()), 1 + (i % 7) as u8, 100 + i as u16)
            } else {
                result(None, 1 + (i % 7) as u8, 100 + i as u16)
            }
        })
        .collect();
    let (inv, hashes) = import_results(items, &data);
    for i in 0..12u16 {
        let id = format!("d_driver_{}", i + 1);
        assert_eq!(owned(&inv, &id), Some((1 + (i % 7) as u8, 100 + i)));
    }
    assert_eq!(hashes.hashes.len(), 10);
}

#[test]
fn mkt_drivers_1() {
    // a full phone screenshot: three rows of four items
    let boxes = full_grid(3, 4, 20, 60, 160, 200, 20);
    let cells = check_cells(760, 760, &boxes, &boxes);
    let data = driver_data(12);
    let items = cells
        .iter()
        .enumerate()
        .map(|(i, _)| result(Some(format!("d_driver_{}", i + 1).as_str()), 3, 500 + i as u16))
        .collect();
    let (inv, hashes) = import_results(items, &data);
    assert_eq!(inv.drivers.len(), 12);
    assert_eq!(owned(&inv, "d_driver_5"), Some((3, 504)));
    assert_eq!(hashes.hashes.len(), 0);
}

#[test]
fn mkt_drivers_2() {
    // the last row is not full: its empty places are cells too
    let boxes = grid(&[4, 4, 2], 20, 60, 160, 200, 20);
    let expected = full_grid(3, 4, 20, 60, 160, 200, 20);
    check_cells(760, 760, &boxes, &expected);
    let data = driver_data(10);
    let items = vec![
        result(Some("d_driver_1"), 7, 1200),
        result(None, 6, 1100),
        result(None, 5, 1000),
        result(Some("d_driver_4"), 4, 900),
        result(None, 3, 800),
        result(Some("d_driver_6"), 2, 700),
    ];
    let (inv, hashes) = import_results(items, &data);
    assert_eq!(owned(&inv, "d_driver_2"), Some((6, 1100)));
    assert_eq!(owned(&inv, "d_driver_3"), Some((5, 1000)));
    assert_eq!(owned(&inv, "d_driver_5"), Some((3, 800)));
    assert_eq!(inv.drivers.len(), 6);
    assert_eq!(hashes.hashes.len(), 3);
}

#[test]
fn mkt_drivers_3() {
    // rows cut by the top of the screenshot still count
    let boxes = full_grid(2, 4, 20, 0, 160, 200, 20);
    check_cells(760, 440, &boxes, &boxes);
    let data = driver_data(8);
    // an unknown item whose neighbours disagree with the game's order stays unknown
    let items = vec![
        result(Some("d_driver_1"), 1, 10),
        result(None, 1, 20),
        result(Some("d_driver_5"), 1, 30),
    ];
    let (inv, _) = import_results(items, &data);
    assert_eq!(owned(&inv, "d_driver_1"), Some((1, 10)));
    assert_eq!(owned(&inv, "d_driver_5"), Some((1, 30)));
    assert_eq!(inv.drivers.len(), 2);
}

#[test]
fn mkt_drivers_4() {
    // bigger items: the item width is measured on the screenshot
    let boxes = full_grid(2, 3, 10, 30, 240, 300, 30);
    check_cells(820, 700, &boxes, &boxes);
    let mask = mask_with_boxes(820, 700, &boxes);
    let (rows, item_width) = find_item_rows(&mask, 820, 700, 50);
    assert_eq!(item_width, 240);
    assert_eq!(rows.len(), 2);
    assert_eq!(rows[0], ItemArea { x1: 0, y1: 30, x2: 820, y2: 330 });
    assert_eq!(rows[1], ItemArea { x1: 0, y1: 360, x2: 820, y2: 660 });
    let turned = rotate90(&mask, 820, 700);
    let (columns, item_height) = find_item_rows(&turned, 700, 820, item_width);
    assert_eq!(item_height, 300);
    assert_eq!(columns.len(), 3);
    assert_eq!(columns[0].swap_x_y(), ItemArea { x1: 10, y1: 0, x2: 250, y2: 700 });
}

#[test]
fn mkt_drivers_5() {
    // small white marks are no items
    let mut boxes = full_grid(2, 4, 20, 60, 160, 200, 20);
    let expected = boxes.clone();
    boxes.push(ItemArea { x1: 5, y1: 5, x2: 15, y2: 8 });
    check_cells(760, 540, &boxes, &expected);
}

#[test]
fn mkt_drivers_6() {
    // with no white run to measure, the item width is 0 and every row and
    // column counts: the whole screenshot is one cell
    check_cells(640, 480, &[], &[ItemArea { x1: 0, y1: 0, x2: 640, y2: 480 }]);
    let data = driver_data(3);
    let (inv, hashes) = import_results(vec![], &data);
    assert_eq!(inv.drivers.len(), 0);
    assert_eq!(hashes.hashes.len(), 0);
}

#[test]
fn imported_records_carry_their_id_and_dates() {
    let data = driver_data(3);
    let items = vec![
        result(Some("d_driver_1"), 2, 40),
        result(Some("d_driver_3"), 5, 410),
    ];
    let (inv, _) = import_results(items, &data);
    assert_eq!(inv.drivers.len(), 2);
    for (k, o) in inv.drivers.iter() {
        assert_eq!(&o.id, k);
        assert!(o.added.is_some());
        assert!(o.last_changed.is_some());
    }
}

#[test]
fn learned_hashes_are_for_database_items() {
    let data = driver_data(4);
    let items = vec![
        result(Some("d_driver_1"), 1, 10),
        result(None, 2, 20),
        result(None, 3, 30),
        result(Some("d_driver_4"), 4, 40),
    ];
    let (_, hashes) = import_results(items, &data);
    let keys: Vec<&str> = hashes.hashes.iter().map(|(k, _)| k.as_str()).collect();
    assert_eq!(keys, vec!["d_driver_2", "d_driver_3"]);
    for k in keys {
        assert!(data.drivers.iter().any(|(_, i)| i.id == k));
    }
}
