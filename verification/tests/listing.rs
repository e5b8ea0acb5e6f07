use mkt_blanket::ids::{CourseGeneration, CourseType, ItemType, Rarity};
use mkt_blanket::listing::{
    course_badge, course_grid, favorites_of_type, grid_cells, sorted_item_ids, stat_label, CourseBadge,
    ListState, ShowStat, SortOrder, SortStat,
};
use mkt_blanket::model::{Course, Item, ItemRequirement, OwnedItem};
use mkt_blanket::stats::{CourseStats, DataInvItem, ItemStats};

fn entry(name: &str, sort: Option<u32>, lvl: Option<u8>, stats: Option<(usize, usize)>) -> (String, DataInvItem) {
    let data = Item::new(ItemType::Driver, Rarity::Normal, name.to_string(), sort);
    let id = data.id.clone();
    let inv = lvl.map(|l| OwnedItem::new(id.clone(), l, 100));
    let stats = stats.map(|(fav, max)| ItemStats {
        fav_course_count: fav,
        max_fav_course_count: max,
        add_course_count: fav,
        max_add_course_count: max,
    });
    (id, DataInvItem { data, inv, stats })
}

fn list() -> Vec<(String, DataInvItem)> {
    vec![
        entry("Peach", Some(3), Some(2), Some((4, 10))),
        entry("Mario", Some(1), None, None),
        entry("Toad", None, Some(2), Some((4, 12))),
        entry("Bowser", Some(2), Some(5), Some((1, 12))),
    ]
}

#[test]
fn items_sort_by_game_order_first_unnumbered() {
    let ids = sorted_item_ids(&list(), SortStat::Default, SortOrder::Up);
    assert_eq!(ids, vec!["d_toad", "d_mario", "d_bowser", "d_peach"]);
}

#[test]
fn items_sort_by_name() {
    let ids = sorted_item_ids(&list(), SortStat::Name, SortOrder::Up);
    assert_eq!(ids, vec!["d_bowser", "d_mario", "d_peach", "d_toad"]);
}

#[test]
fn equal_levels_keep_their_order_and_down_turns_the_list_round() {
    let up = sorted_item_ids(&list(), SortStat::Level, SortOrder::Up);
    assert_eq!(up, vec!["d_mario", "d_peach", "d_toad", "d_bowser"]);
    let down = sorted_item_ids(&list(), SortStat::Level, SortOrder::Down);
    assert_eq!(down, vec!["d_bowser", "d_toad", "d_peach", "d_mario"]);
}

#[test]
fn items_sort_by_most_favorites_then_favorites() {
    let ids = sorted_item_ids(&list(), SortStat::FavoriteCourses, SortOrder::Up);
    assert_eq!(ids, vec!["d_mario", "d_peach", "d_bowser", "d_toad"]);
}

#[test]
fn picking_a_sort_twice_turns_it_round_and_shows_its_statistic() {
    let mut s = ListState::new();
    assert_eq!(s, ListState { show_stat: ShowStat::Level, sort_stat: SortStat::Default, sort: SortOrder::Up });
    s.select_sort(SortStat::FavoriteCourses);
    assert_eq!(s.sort, SortOrder::Up);
    assert_eq!(s.show_stat, ShowStat::FavoriteCourses);
    s.select_sort(SortStat::FavoriteCourses);
    assert_eq!(s.sort, SortOrder::Down);
    s.select_sort(SortStat::Name);
    assert_eq!(s.sort, SortOrder::Up);
    assert_eq!(s.show_stat, ShowStat::FavoriteCourses);
    assert!(s.select_show(ShowStat::Points));
    assert!(!s.select_show(ShowStat::Points));
}

#[test]
fn labels_show_the_picked_statistic() {
    let (_, peach) = entry("Peach", Some(3), Some(2), Some((4, 10)));
    let l = stat_label(&peach, ShowStat::Level, 3);
    assert_eq!(l.text, "2");
    assert!(l.below_requirement);
    let l = stat_label(&peach, ShowStat::LevelPoints, 1);
    assert_eq!((l.text.as_str(), l.small.as_str(), l.below_requirement), ("2", "100", false));
    assert_eq!(stat_label(&peach, ShowStat::FavoriteCourses, 0).text, "4/10");
    assert_eq!(stat_label(&peach, ShowStat::AdditionalCourses, 0).text, "4-10");
    let (_, full) = entry("Toad", None, Some(0), Some((12, 12)));
    assert_eq!(stat_label(&full, ShowStat::FavoriteCourses, 0).text, "12");
    assert_eq!(stat_label(&full, ShowStat::Level, 0).text, "");
    let (_, mario) = entry("Mario", Some(1), None, None);
    assert_eq!(stat_label(&mario, ShowStat::Points, 0).text, "");
}

fn stats(counts: [usize; 3], owned: [usize; 3]) -> Option<CourseStats> {
    Some(CourseStats {
        driver_count: counts[0],
        kart_count: counts[1],
        glider_count: counts[2],
        driver_owned_count: owned[0],
        kart_owned_count: owned[1],
        glider_owned_count: owned[2],
    })
}

#[test]
fn course_badges() {
    assert_eq!(course_badge(stats([2, 2, 2], [2, 2, 2]), None), Some(CourseBadge::Full));
    assert_eq!(course_badge(stats([2, 2, 2], [1, 1, 1]), None), Some(CourseBadge::Covered));
    assert_eq!(course_badge(stats([2, 2, 2], [0, 0, 0]), None), Some(CourseBadge::Missing));
    assert_eq!(course_badge(stats([2, 2, 2], [1, 0, 2]), None), Some(CourseBadge::Partial));
    assert_eq!(course_badge(stats([2, 2, 2], [1, 0, 2]), Some(ItemType::Glider)), Some(CourseBadge::Full));
    assert_eq!(course_badge(stats([2, 2, 2], [1, 0, 2]), Some(ItemType::Kart)), Some(CourseBadge::Missing));
    assert_eq!(course_badge(None, None), None);
}

#[test]
fn course_favorites_by_type_and_id() {
    let mut c = Course::new("Mario Circuit".to_string(), Some(1));
    c.favorite_items = vec![
        ItemRequirement { id: "d_peach".to_string(), lvl: 1 },
        ItemRequirement { id: "k_pipe_frame".to_string(), lvl: 3 },
        ItemRequirement { id: "d_bowser".to_string(), lvl: 6 },
        ItemRequirement { id: "d_mario".to_string(), lvl: 1 },
    ];
    assert_eq!(
        favorites_of_type(&c, ItemType::Driver),
        vec![("d_bowser".to_string(), 6), ("d_mario".to_string(), 1), ("d_peach".to_string(), 1)]
    );
    assert_eq!(favorites_of_type(&c, ItemType::Kart), vec![("k_pipe_frame".to_string(), 3)]);
    assert!(favorites_of_type(&c, ItemType::Glider).is_empty());
}

#[test]
fn courses_stand_in_the_column_of_their_type() {
    let kinds = vec![
        (CourseGeneration::New, CourseType::Normal),
        (CourseGeneration::New, CourseType::Trick),
        (CourseGeneration::New, CourseType::Reverse),
        (CourseGeneration::SNES, CourseType::Reverse),
    ];
    assert_eq!(grid_cells(&kinds), vec![(true, 0), (false, 1), (false, 2), (true, 1)]);
    let ids = vec![
        "c_new_york_minute".to_string(),
        "c_new_york_minute_r".to_string(),
        "c_snes_mario_circuit_1_t".to_string(),
    ];
    assert_eq!(course_grid(&ids), vec![(true, 0), (false, 0), (true, 2)]);
}
