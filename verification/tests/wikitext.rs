use mkt_blanket::data::MktData;
use mkt_blanket::ids::{ItemType, Rarity};
use mkt_blanket::model::{Course, Item, ItemRequirement};
use mkt_blanket::wikitext::{find_item_line, wiki_course_block, wiki_lines};

const WIKI: &str = "intro\n\
| [[File:MKT Icon Mario.png|50px|link=Mario]] [[Mario]]<br>more\n\
| [[File:MKT Icon Peach (Vacation).png|50px|link=Peach (Vacation)]] [[Peach (Vacation)]]\n\
| [[File:MKT Icon PipeFrame.png|50px|link=Pipe Frame]] [[Pipe Frame]]\n";

fn data() -> MktData {
    let mut d = MktData::new();
    for (name, rarity) in [("Mario", Rarity::Normal), ("Peach (Vacation)", Rarity::Super), ("Luigi", Rarity::Normal)] {
        let i = Item::new(ItemType::Driver, rarity, name.to_string(), None);
        d.drivers.push((i.id.clone(), i));
    }
    let k = Item::new(ItemType::Kart, Rarity::Normal, "Pipe Frame".to_string(), None);
    d.karts.push((k.id.clone(), k));
    d
}

#[test]
fn item_lines_are_found_by_picture_and_name() {
    assert_eq!(
        find_item_line(WIKI, "Mario"),
        Some("| [[File:MKT Icon Mario.png|50px|link=Mario]] [[Mario]]".to_string())
    );
    assert_eq!(
        find_item_line(WIKI, "Peach (Vacation)"),
        Some("| [[File:MKT Icon Peach (Vacation).png|50px|link=Peach (Vacation)]] [[Peach (Vacation)]]".to_string())
    );
    assert_eq!(find_item_line(WIKI, "Luigi"), None);
    let lines = wiki_lines(&data(), WIKI);
    let ids: Vec<&str> = lines.iter().map(|(k, _)| k.as_str()).collect();
    assert_eq!(ids, vec!["d_mario", "d_peach_vacation", "k_pipe_frame"]);
}

#[test]
fn course_blocks_list_items_by_rarity_level_and_type() {
    let d = data();
    let lines = wiki_lines(&d, WIKI);
    let mut c = Course::new("Mario Circuit".to_string(), Some(1));
    c.favorite_items = vec![
        ItemRequirement { id: "k_pipe_frame".to_string(), lvl: 1 },
        ItemRequirement { id: "d_peach_vacation".to_string(), lvl: 6 },
        ItemRequirement { id: "d_mario".to_string(), lvl: 3 },
        ItemRequirement { id: "d_luigi".to_string(), lvl: 1 },
    ];
    let block = wiki_course_block(&d, &lines, &c);
    let mario = "| [[File:MKT Icon Mario.png|50px|link=Mario]] [[Mario]]";
    let peach = "| [[File:MKT Icon Peach (Vacation).png|50px|link=Peach (Vacation)]] [[Peach (Vacation)]]";
    let pipe = "| [[File:MKT Icon PipeFrame.png|50px|link=Pipe Frame]] [[Pipe Frame]]";
    let expected = format!(
        "----- Mario Circuit -----\n\
         |rowspan=3 style=\"background-color:#FEFEFE;\"|\n!!! COURSE NAME HERE !!!\n|\n|\n|\n|\n|\n|\n\
         |-style=\"background-color:#FEEB80\"\n|\n|\n|\n|\n{}<sup>**</sup>\n|\n|\n\
         |-style=\"background-color:#E3E3E3\"\n|\n|\n{}\n|\n|\n{}<sup>*</sup>\n|\n|\n\
         ----- END Mario Circuit -----\n\n\n",
        peach, pipe, mario
    );
    assert_eq!(block, expected);
}
