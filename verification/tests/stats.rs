use mkt_blanket::data::{MktData, MktInventory};
use mkt_blanket::ids::{ItemType, Rarity};
use mkt_blanket::model::{Course, CourseAvailability, Item, ItemRequirement, OwnedItem};
use mkt_blanket::stats::{
    recipients, CourseStats, DataInventory, DataInventoryRequest, ItemStats,
};

fn req(id: &str, lvl: u8) -> ItemRequirement {
    ItemRequirement { id: id.to_string(), lvl }
}

fn avail(id: &str, lvl: u8) -> CourseAvailability {
    CourseAvailability { id: id.to_string(), lvl }
}

fn sample_data() -> MktData {
    let mut data = MktData::new();
    let mut c1 = Course::new("Course One".to_string(), Some(1));
    c1.favorite_items = vec![req("d_mario", 1), req("k_pipe", 3), req("g_glider", 1), req("d_mario", 1)];
    let mut c2 = Course::new("Course Two".to_string(), Some(2));
    c2.favorite_items = vec![req("d_luigi", 6)];
    data.courses.push((c1.id.clone(), c1));
    data.courses.push((c2.id.clone(), c2));
    let mut mario = Item::new(ItemType::Driver, Rarity::Normal, "Mario".to_string(), Some(1));
    mario.favorite_courses = vec![avail("c_course_one", 1)];
    let mut luigi = Item::new(ItemType::Driver, Rarity::Super, "Luigi".to_string(), Some(2));
    luigi.favorite_courses = vec![avail("c_course_two", 6)];
    let mut pipe = Item::new(ItemType::Kart, Rarity::Normal, "Pipe".to_string(), Some(1));
    pipe.favorite_courses = vec![avail("c_course_one", 3)];
    let mut glider = Item::new(ItemType::Glider, Rarity::Normal, "Glider".to_string(), Some(1));
    glider.favorite_courses = vec![avail("c_course_one", 1)];
    data.drivers.push((mario.id.clone(), mario));
    data.drivers.push((luigi.id.clone(), luigi));
    data.karts.push((pipe.id.clone(), pipe));
    data.gliders.push((glider.id.clone(), glider));
    data
}

fn sample_inventory() -> MktInventory {
    let mut inv = MktInventory::new();
    inv.drivers.push(("d_mario".to_string(), OwnedItem::new("d_mario".to_string(), 2, 400)));
    inv.drivers.push(("d_luigi".to_string(), OwnedItem::new("d_luigi".to_string(), 1, 100)));
    inv.karts.push(("k_pipe".to_string(), OwnedItem::new("k_pipe".to_string(), 3, 300)));
    inv
}

fn joined() -> DataInventory {
    let mut state = DataInventory::new();
    state.apply_data(&sample_data());
    state.apply_inventory(&sample_inventory());
    state
}

fn course_stats(state: &DataInventory, id: &str) -> CourseStats {
    state.courses.iter().find(|(k, _)| k == id).unwrap().1.stats.unwrap()
}

fn item_stats(list: &[(String, mkt_blanket::stats::DataInvItem)], id: &str) -> ItemStats {
    list.iter().find(|(k, _)| k == id).unwrap().1.stats.unwrap()
}

#[test]
fn course_statistics_count_distinct_favored_items() {
    let state = joined();
    assert_eq!(
        course_stats(&state, "c_course_one"),
        CourseStats {
            driver_count: 1,
            kart_count: 1,
            glider_count: 1,
            driver_owned_count: 1,
            kart_owned_count: 1,
            glider_owned_count: 0,
        }
    );
    let two = course_stats(&state, "c_course_two");
    assert_eq!((two.driver_count, two.driver_owned_count), (1, 0));
}

#[test]
fn item_statistics_count_courses() {
    let state = joined();
    assert_eq!(
        item_stats(&state.drivers, "d_mario"),
        ItemStats { fav_course_count: 1, max_fav_course_count: 1, add_course_count: 0, max_add_course_count: 0 }
    );
    assert_eq!(
        item_stats(&state.drivers, "d_luigi"),
        ItemStats { fav_course_count: 0, max_fav_course_count: 1, add_course_count: 0, max_add_course_count: 1 }
    );
    assert_eq!(
        item_stats(&state.gliders, "g_glider"),
        ItemStats { fav_course_count: 0, max_fav_course_count: 1, add_course_count: 1, max_add_course_count: 1 }
    );
    let pipe = item_stats(&state.karts, "k_pipe");
    assert!(pipe.fav_course_count <= pipe.max_fav_course_count);
    assert_eq!(pipe.fav_course_count, 1);
}

#[test]
fn summary_counts_coverage() {
    let s = joined().summary();
    assert_eq!((s.course_count, s.course_covered_count), (2, 0));
    assert_eq!((s.driver_count, s.driver_owned_count), (2, 2));
    assert_eq!((s.kart_count, s.kart_owned_count), (1, 1));
    assert_eq!((s.glider_count, s.glider_owned_count), (1, 0));
    let mut inv = sample_inventory();
    inv.gliders.push(("g_glider".to_string(), OwnedItem::new("g_glider".to_string(), 1, 10)));
    let mut state = DataInventory::new();
    state.apply_data(&sample_data());
    state.apply_inventory(&inv);
    assert_eq!(state.summary().course_covered_count, 1);
}

#[test]
fn new_data_keeps_owned_records_of_known_items() {
    let mut state = joined();
    let mut data = sample_data();
    data.drivers.retain(|(k, _)| k == "d_mario");
    state.apply_data(&data);
    assert_eq!(state.drivers.len(), 1);
    let mario = &state.drivers[0].1;
    assert_eq!(mario.inv.as_ref().map(|o| o.lvl), Some(2));
    assert!(mario.stats.is_some());
    assert_eq!(state.courses.len(), 2);
}

#[test]
fn state_goes_to_the_asker_or_to_all() {
    let handlers = vec![1u32, 2, 3];
    assert_eq!(recipients(DataInventoryRequest::Refresh, 7u32, &handlers), vec![7]);
    assert_eq!(recipients(DataInventoryRequest::RefreshAll, 7u32, &handlers), vec![1, 2, 3]);
}
