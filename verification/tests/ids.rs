use mkt_blanket::ids::{
    course_generation_from_id, course_id_from_name, course_type_from_id, driver_id_from_name,
    glider_id_from_name, item_id_from_name, item_type_from_id, kart_id_from_name, CourseGeneration,
    CourseType, ItemType, Rarity,
};

#[test]
fn ids_from_names() {
    assert_eq!(driver_id_from_name("Mario (Musician)"), "d_mario_musician");
    assert_eq!(kart_id_from_name("Pipe Frame"), "k_pipe_frame");
    assert_eq!(glider_id_from_name("Super Glider"), "g_super_glider");
    assert_eq!(course_id_from_name("RMX Rainbow Road 1"), "c_rmx_rainbow_road_1");
    assert_eq!(course_id_from_name("3DS Rock Rock Mountain R/T"), "c_3ds_rock_rock_mountain_r_t");
    assert_eq!(item_id_from_name("Baby Peach", ItemType::Driver), "d_baby_peach");
    assert_eq!(item_id_from_name("  --Dry Bones!  ", ItemType::Kart), "k_dry_bones");
}

#[test]
fn item_types_from_ids() {
    assert_eq!(item_type_from_id("d_mario"), Some(ItemType::Driver));
    assert_eq!(item_type_from_id("k_pipe_frame"), Some(ItemType::Kart));
    assert_eq!(item_type_from_id("g_super_glider"), Some(ItemType::Glider));
    assert_eq!(item_type_from_id("c_mario_circuit"), None);
    assert_eq!(item_type_from_id(""), None);
}

#[test]
fn course_kinds_from_ids() {
    assert_eq!(course_type_from_id("c_3ds_rock_rock_mountain_r_t"), CourseType::ReverseTrick);
    assert_eq!(course_type_from_id("c_ny_nighttime_1r"), CourseType::Reverse);
    assert_eq!(course_type_from_id("c_mario_circuit_t"), CourseType::Trick);
    assert_eq!(course_type_from_id("c_mario_circuit"), CourseType::Normal);
    assert_eq!(course_generation_from_id("c_rmx_rainbow_road_1"), CourseGeneration::Remix);
    assert_eq!(course_generation_from_id("c_3ds_rock_rock_mountain"), CourseGeneration::_3DS);
    assert_eq!(course_generation_from_id("c_new_york_minute"), CourseGeneration::New);
}

#[test]
fn rarities_from_words() {
    assert_eq!(Rarity::try_from("High-End"), Ok(Rarity::HighEnd));
    assert_eq!(Rarity::try_from("Super"), Ok(Rarity::Super));
    assert_eq!(Rarity::try_from("Normal"), Ok(Rarity::Normal));
    assert_eq!(Rarity::try_from("Legendary"), Err(()));
}
