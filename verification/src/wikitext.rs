//! The coverage of the courses written as wiki markup: the wiki line of
//! each item, found in the wiki's own text, and for each course a block
//! that lists its favored items by rarity, level and type.
use vstd::prelude::*;
use crate::data::MktData;
use crate::deduce::type_list;
use crate::ids::{capture_group, regex_capture, ItemId, ItemType, Rarity};
use crate::import::{text_before, text_less};
use crate::keyed::{entries_map, find_key, keys_unique, lemma_entries_map_at};
use crate::listing::requirement_pairs;
use crate::listing::{first_greater, insert_by, sort_by};
use crate::model::Course;
use crate::text::{trim_spaces, ws_trimmed};

verus! {

/// A name with `(` and `)` escaped for a regular expression.
pub open spec fn parens_escaped(s: Seq<char>) -> Seq<char>
    decreases s.len(),
{
    if s.len() == 0 {
        Seq::empty()
    } else {
        parens_escaped(s.drop_last()) + if s.last() == '(' || s.last() == ')' {
            seq!['\\', s.last()]
        } else {
            seq![s.last()]
        }
    }
}

/// The pattern that finds the wiki line of an item named `name`: a line
/// with a `[File:...=name]` or `[File:...|name]` picture, up to a `<` or
/// the end of the line.
pub open spec fn item_line_pattern(name: Seq<char>) -> Seq<char> {
    r"(.*\[File:.*[=|]"@ + parens_escaped(name) + r"\][^<\n]*)"@
}

/// The wiki line of an item named `name` in the wiki text: the first
/// match of its pattern, trimmed.
pub open spec fn item_line(wiki: Seq<char>, name: Seq<char>) -> Option<Seq<char>> {
    match regex_capture(item_line_pattern(name), wiki, 0) {
        Some(Some(m)) => Some(ws_trimmed(m)),
        _ => None,
    }
}

fn escape_parens(s: &str) -> (r: String)
    ensures
        r@ == parens_escaped(s@),
{
    let n = s.unicode_len();
    let mut out = String::new();
    let mut i: usize = 0;
    while i < n
        invariant
            n == s@.len(),
            i <= n,
            out@ == parens_escaped(s@.take(i as int)),
        decreases n - i,
    {
        let c = s.get_char(i);
        assert(s@.take(i + 1).drop_last() =~= s@.take(i as int));
        assert(s@.take(i + 1).last() == c);
        if c == '(' {
            out.append("\\(");
            proof {
                reveal_strlit("\\(");
            }
        } else if c == ')' {
            out.append("\\)");
            proof {
                reveal_strlit("\\)");
            }
        } else {
            let one = s.substring_char(i, i + 1);
            assert(one@ =~= seq![c]);
            out.append(one);
        }
        assert(out@ =~= parens_escaped(s@.take(i + 1)));
        i = i + 1;
    }
    assert(s@.take(n as int) =~= s@);
    out
}

/// The wiki line of an item named `name`, if the wiki text has one.
pub fn find_item_line(wiki: &str, name: &str) -> (r: Option<String>)
    ensures
        match item_line(wiki@, name@) {
            Some(l) => r matches Some(x) && x@ == l,
            None => r is None,
        },
{
    let mut pattern = String::new();
    pattern.append(r"(.*\[File:.*[=|]");
    let esc = escape_parens(name);
    pattern.append(esc.as_str());
    pattern.append(r"\][^<\n]*)");
    assert(pattern@ == item_line_pattern(name@));
    match capture_group(pattern.as_str(), wiki, 0) {
        Some(Some(m)) => Some(trim_spaces(m.as_str())),
        _ => None,
    }
}

/// The wiki lines of the first `n` items of a list found in the wiki text,
/// by item id.
pub open spec fn lines_of_list(s: Seq<(ItemId, crate::model::Item)>, wiki: Seq<char>, n: int) -> Seq<(Seq<char>, Seq<char>)>
    decreases n,
{
    if n <= 0 {
        Seq::empty()
    } else {
        lines_of_list(s, wiki, n - 1) + match item_line(wiki, s[n - 1].1.name@) {
            Some(l) => seq![(s[n - 1].1.id@, l)],
            None => Seq::empty(),
        }
    }
}

/// The wiki lines of the drivers, then karts, then gliders of a database
/// that the wiki text has, by item id.
pub open spec fn wiki_lines_of(d: MktData, wiki: Seq<char>) -> Seq<(Seq<char>, Seq<char>)> {
    lines_of_list(d.drivers@, wiki, d.drivers@.len() as int) + lines_of_list(d.karts@, wiki, d.karts@.len() as int)
        + lines_of_list(d.gliders@, wiki, d.gliders@.len() as int)
}

/// The views of (id, line) pairs.
pub open spec fn line_views(s: Seq<(String, String)>) -> Seq<(Seq<char>, Seq<char>)> {
    s.map_values(|p: (String, String)| (p.0@, p.1@))
}

fn add_list_lines(list: &Vec<(ItemId, crate::model::Item)>, wiki: &str, out: &mut Vec<(String, String)>)
    ensures
        line_views(final(out)@) == line_views(old(out)@) + lines_of_list(list@, wiki@, list@.len() as int),
{
    let ghost start = line_views(out@);
    let mut i: usize = 0;
    assert(start + lines_of_list(list@, wiki@, 0) =~= start);
    while i < list.len()
        invariant
            i <= list@.len(),
            line_views(out@) == start + lines_of_list(list@, wiki@, i as int),
        decreases list@.len() - i,
    {
        let ghost before = line_views(out@);
        match find_item_line(wiki, list[i].1.name.as_str()) {
            Some(l) => {
                out.push((list[i].1.id.clone(), l));
                assert(line_views(out@) =~= before.push((list@[i as int].1.id@, item_line(wiki@, list@[i as int].1.name@)->0)));
            },
            None => {},
        }
        assert(start + lines_of_list(list@, wiki@, i + 1) =~= line_views(out@));
        i = i + 1;
    }
}

/// The wiki lines of the items of a database that the wiki text has: for
/// each driver, kart and glider in turn, the first line that shows its
/// picture and names it, by item id.
pub fn wiki_lines(data: &MktData, wiki: &str) -> (r: Vec<(String, String)>)
    ensures
        line_views(r@) == wiki_lines_of(*data, wiki@),
{
    let mut out: Vec<(String, String)> = Vec::new();
    add_list_lines(&data.drivers, wiki, &mut out);
    add_list_lines(&data.karts, wiki, &mut out);
    add_list_lines(&data.gliders, wiki, &mut out);
    assert(line_views(out@) =~= wiki_lines_of(*data, wiki@));
    out
}


/// An id with `_` written as a space.
pub open spec fn spaced_id(s: Seq<char>) -> Seq<char> {
    s.map_values(|c: char| if c == '_' {
        ' '
    } else {
        c
    })
}

/// Favorites in the order of their ids written with spaces.
pub open spec fn favorite_order() -> spec_fn((Seq<char>, u8), (Seq<char>, u8)) -> bool {
    |a: (Seq<char>, u8), b: (Seq<char>, u8)| text_less(spaced_id(a.0), spaced_id(b.0))
}

/// The favorites of a course as (id, level) pairs in the order of their
/// ids written with spaces (equal ones keep their order).
pub open spec fn sorted_favorites(c: Course) -> Seq<(Seq<char>, u8)> {
    sort_by(requirement_pairs(c.favorite_items@), favorite_order())
}

/// The mark of a favorite level: one to three stars for levels 3, 6 and 8.
pub open spec fn level_mark(l: u8) -> Seq<char> {
    if l == 3 {
        "<sup>*</sup>"@
    } else if l == 6 {
        "<sup>**</sup>"@
    } else if l == 8 {
        "<sup>***</sup>"@
    } else {
        Seq::empty()
    }
}

/// Whether a favorite level belongs to the first group (level 1) or the
/// second (levels 3 to 8, and 0).
pub open spec fn in_group(l: u8, first: bool) -> bool {
    if first {
        l == 1
    } else {
        (3 <= l && l <= 8) || l == 0
    }
}

/// The line of the last of the first `n` entries with key `id`.
pub open spec fn last_line(lines: Seq<(Seq<char>, Seq<char>)>, id: Seq<char>, n: int) -> Option<Seq<char>>
    decreases n,
{
    if n <= 0 {
        None
    } else if lines[n - 1].0 == id {
        Some(lines[n - 1].1)
    } else {
        last_line(lines, id, n - 1)
    }
}

/// The wiki lines of the first `n` favorites that are items of type `t`
/// and rarity `r` in the level group, each with its level mark; favorites
/// without a wiki line are left out.
pub open spec fn group_lines(
    d: MktData,
    lines: Seq<(Seq<char>, Seq<char>)>,
    favs: Seq<(Seq<char>, u8)>,
    r: Rarity,
    t: ItemType,
    first: bool,
    n: int,
) -> Seq<char>
    decreases n,
{
    if n <= 0 {
        Seq::empty()
    } else {
        let f = favs[n - 1];
        let m = entries_map(type_list(d, t));
        group_lines(d, lines, favs, r, t, first, n - 1) + if in_group(f.1, first) && m.contains_key(f.0) && m[f.0].rarity
            == r {
            match last_line(lines, m[f.0].id, lines.len() as int) {
                Some(w) => w + level_mark(f.1) + "\n"@,
                None => Seq::empty(),
            }
        } else {
            Seq::empty()
        }
    }
}

/// The heading of a rarity's rows.
pub open spec fn rarity_heading(r: Rarity) -> Seq<char> {
    match r {
        Rarity::HighEnd => "|rowspan=3 style=\"background-color:#FEFEFE;\"|\n!!! COURSE NAME HERE !!!\n"@,
        Rarity::Super => "|-style=\"background-color:#FEEB80\"\n"@,
        Rarity::Normal => "|-style=\"background-color:#E3E3E3\"\n"@,
    }
}

/// A cell of a rarity's rows: a `|` line, then the item lines of a level
/// group and type.
pub open spec fn group_cell(
    d: MktData,
    lines: Seq<(Seq<char>, Seq<char>)>,
    favs: Seq<(Seq<char>, u8)>,
    r: Rarity,
    t: ItemType,
    first: bool,
) -> Seq<char> {
    "|\n"@ + group_lines(d, lines, favs, r, t, first, favs.len() as int)
}

/// The rows of a rarity: its heading, then a cell for each level group and
/// type (drivers, karts, gliders).
pub open spec fn rarity_rows(d: MktData, lines: Seq<(Seq<char>, Seq<char>)>, favs: Seq<(Seq<char>, u8)>, r: Rarity) -> Seq<
    char,
> {
    rarity_heading(r) + group_cell(d, lines, favs, r, ItemType::Driver, true) + group_cell(
        d,
        lines,
        favs,
        r,
        ItemType::Kart,
        true,
    ) + group_cell(d, lines, favs, r, ItemType::Glider, true) + group_cell(d, lines, favs, r, ItemType::Driver, false)
        + group_cell(d, lines, favs, r, ItemType::Kart, false) + group_cell(d, lines, favs, r, ItemType::Glider, false)
}

/// The wiki block of a course: a start line with its name, the rows of
/// the high-end, super and normal rarities over its favorites in order,
/// an end line and a blank line.
pub open spec fn course_block(d: MktData, lines: Seq<(Seq<char>, Seq<char>)>, c: Course) -> Seq<char> {
    let favs = sorted_favorites(c);
    "----- "@ + c.name@ + " -----\n"@ + rarity_rows(d, lines, favs, Rarity::HighEnd) + rarity_rows(
        d,
        lines,
        favs,
        Rarity::Super,
    ) + rarity_rows(d, lines, favs, Rarity::Normal) + "----- END "@ + c.name@ + " -----\n"@ + "\n\n"@
}

fn spaced(s: &str) -> (r: String)
    ensures
        r@ == spaced_id(s@),
{
    let n = s.unicode_len();
    let mut out = String::new();
    let mut i: usize = 0;
    while i < n
        invariant
            n == s@.len(),
            i <= n,
            out@ == spaced_id(s@.take(i as int)),
        decreases n - i,
    {
        let c = s.get_char(i);
        if c == '_' {
            out.append(" ");
            proof {
                reveal_strlit(" ");
            }
        } else {
            let one = s.substring_char(i, i + 1);
            assert(one@ =~= seq![c]);
            out.append(one);
        }
        assert(out@ =~= spaced_id(s@.take(i + 1)));
        i = i + 1;
    }
    assert(s@.take(n as int) =~= s@);
    out
}

fn favorite_place(v: &Vec<(ItemId, u8)>, key: &str) -> (p: usize)
    ensures
        p == first_greater(v@.map_values(|e: (ItemId, u8)| (e.0@, e.1)), (key@, 0u8), favorite_order()),
        p <= v@.len(),
{
    let ghost s = v@.map_values(|e: (ItemId, u8)| (e.0@, e.1));
    let mut i: usize = 0;
    assert(s.skip(0) =~= s);
    while i < v.len()
        invariant
            i <= v@.len(),
            s == v@.map_values(|e: (ItemId, u8)| (e.0@, e.1)),
            first_greater(s, (key@, 0u8), favorite_order()) == i + first_greater(s.skip(i as int), (key@, 0u8), favorite_order()),
        decreases v@.len() - i,
    {
        let ghost rest = s.skip(i as int);
        assert(rest[0] == s[i as int]);
        let other = spaced(v[i].0.as_str());
        let mine = spaced(key);
        if text_before(mine.as_str(), other.as_str()) {
            return i;
        }
        assert(rest.drop_first() =~= s.skip(i + 1));
        i = i + 1;
    }
    assert(s.skip(i as int).len() == 0);
    i
}

proof fn lemma_first_greater_by_key(s: Seq<(Seq<char>, u8)>, id: Seq<char>, a: u8, b: u8)
    ensures
        first_greater(s, (id, a), favorite_order()) == first_greater(s, (id, b), favorite_order()),
    decreases s.len(),
{
    if s.len() > 0 {
        lemma_first_greater_by_key(s.drop_first(), id, a, b);
    }
}

fn sorted_favorites_of(c: &Course) -> (r: Vec<(ItemId, u8)>)
    ensures
        r@.map_values(|e: (ItemId, u8)| (e.0@, e.1)) == sorted_favorites(*c),
{
    let ghost all = requirement_pairs(c.favorite_items@);
    let mut r: Vec<(ItemId, u8)> = Vec::new();
    let mut i: usize = 0;
    while i < c.favorite_items.len()
        invariant
            i <= c.favorite_items@.len(),
            all == requirement_pairs(c.favorite_items@),
            r@.map_values(|e: (ItemId, u8)| (e.0@, e.1)) == sort_by(all.take(i as int), favorite_order()),
        decreases c.favorite_items@.len() - i,
    {
        let f = &c.favorite_items[i];
        let p = favorite_place(&r, f.id.as_str());
        let ghost before = r@.map_values(|e: (ItemId, u8)| (e.0@, e.1));
        r.insert(p, (f.id.clone(), f.lvl));
        proof {
            let x = (f.id@, f.lvl);
            assert(all[i as int] == x);
            assert(all.take(i + 1).drop_last() =~= all.take(i as int));
            assert(all.take(i + 1).last() == x);
            lemma_first_greater_by_key(before, f.id@, f.lvl, 0u8);
            assert(r@.map_values(|e: (ItemId, u8)| (e.0@, e.1)) =~= insert_by(before, x, favorite_order()));
        }
        i = i + 1;
    }
    assert(all.take(i as int) =~= all);
    r
}

fn level_mark_text(l: u8) -> (r: &'static str)
    ensures
        r@ == level_mark(l),
{
    if l == 3 {
        "<sup>*</sup>"
    } else if l == 6 {
        "<sup>**</sup>"
    } else if l == 8 {
        "<sup>***</sup>"
    } else {
        proof {
            reveal_strlit("");
        }
        ""
    }
}

fn last_line_of<'a>(lines: &'a Vec<(String, String)>, id: &str) -> (r: Option<&'a String>)
    ensures
        match last_line(line_views(lines@), id@, lines@.len() as int) {
            Some(w) => r matches Some(x) && x@ == w,
            None => r is None,
        },
{
    let ghost lv = line_views(lines@);
    let mut n = lines.len();
    while n > 0
        invariant
            n <= lines@.len(),
            lv == line_views(lines@),
            last_line(lv, id@, n as int) == last_line(lv, id@, lines@.len() as int),
        decreases n,
    {
        assert(lv[n - 1] == (lines@[n - 1].0@, lines@[n - 1].1@));
        if crate::text::same_text(lines[n - 1].0.as_str(), id) {
            return Some(&lines[n - 1].1);
        }
        n = n - 1;
    }
    None
}

fn add_group_lines(
    data: &MktData,
    lines: &Vec<(String, String)>,
    favs: &Vec<(ItemId, u8)>,
    r: Rarity,
    t: ItemType,
    first: bool,
    out: &mut String,
)
    requires
        data.wf(),
    ensures
        final(out)@ == old(out)@ + group_lines(
            *data,
            line_views(lines@),
            favs@.map_values(|e: (ItemId, u8)| (e.0@, e.1)),
            r,
            t,
            first,
            favs@.len() as int,
        ),
{
    let ghost fv = favs@.map_values(|e: (ItemId, u8)| (e.0@, e.1));
    let ghost start = out@;
    let list = match t {
        ItemType::Driver => &data.drivers,
        ItemType::Kart => &data.karts,
        ItemType::Glider => &data.gliders,
    };
    assert(list@ == type_list(*data, t));
    assert(keys_unique(list@));
    let mut i: usize = 0;
    assert(start + group_lines(*data, line_views(lines@), fv, r, t, first, 0) =~= start);
    while i < favs.len()
        invariant
            i <= favs@.len(),
            data.wf(),
            list@ == type_list(*data, t),
            keys_unique(list@),
            fv == favs@.map_values(|e: (ItemId, u8)| (e.0@, e.1)),
            out@ == start + group_lines(*data, line_views(lines@), fv, r, t, first, i as int),
        decreases favs@.len() - i,
    {
        let ghost before = out@;
        let (id, l) = (&favs[i].0, favs[i].1);
        assert(fv[i as int] == (id@, l));
        let in_grp = if first {
            l == 1
        } else {
            (3 <= l && l <= 8) || l == 0
        };
        if in_grp {
            match find_key(list, id.as_str()) {
                Some(k) => {
                    proof {
                        lemma_entries_map_at(list@, k as int);
                    }
                    if list[k].1.rarity == r {
                        match last_line_of(lines, list[k].1.id.as_str()) {
                            Some(w) => {
                                out.append(w.as_str());
                                out.append(level_mark_text(l));
                                out.append("\n");
                                proof {
                                    reveal_strlit("\n");
                                }
                            },
                            None => {},
                        }
                    }
                },
                None => {},
            }
        }
        assert(out@ =~= start + group_lines(*data, line_views(lines@), fv, r, t, first, i + 1));
        i = i + 1;
    }
}

fn add_cell(
    data: &MktData,
    lines: &Vec<(String, String)>,
    favs: &Vec<(ItemId, u8)>,
    r: Rarity,
    t: ItemType,
    first: bool,
    out: &mut String,
)
    requires
        data.wf(),
    ensures
        final(out)@ == old(out)@ + group_cell(
            *data,
            line_views(lines@),
            favs@.map_values(|e: (ItemId, u8)| (e.0@, e.1)),
            r,
            t,
            first,
        ),
{
    let ghost start = out@;
    out.append("|\n");
    let ghost mid = out@;
    add_group_lines(data, lines, favs, r, t, first, out);
    assert(out@ =~= start + group_cell(*data, line_views(lines@), favs@.map_values(|e: (ItemId, u8)| (e.0@, e.1)), r, t, first));
}

fn add_rarity_rows(data: &MktData, lines: &Vec<(String, String)>, favs: &Vec<(ItemId, u8)>, r: Rarity, out: &mut String)
    requires
        data.wf(),
    ensures
        final(out)@ == old(out)@ + rarity_rows(
            *data,
            line_views(lines@),
            favs@.map_values(|e: (ItemId, u8)| (e.0@, e.1)),
            r,
        ),
{
    let ghost start = out@;
    let ghost lv = line_views(lines@);
    let ghost fv = favs@.map_values(|e: (ItemId, u8)| (e.0@, e.1));
    let heading = match r {
        Rarity::HighEnd => "|rowspan=3 style=\"background-color:#FEFEFE;\"|\n!!! COURSE NAME HERE !!!\n",
        Rarity::Super => "|-style=\"background-color:#FEEB80\"\n",
        Rarity::Normal => "|-style=\"background-color:#E3E3E3\"\n",
    };
    assert(heading@ == rarity_heading(r));
    let ghost d = *data;
    let ghost c1 = group_cell(d, lv, fv, r, ItemType::Driver, true);
    let ghost c2 = group_cell(d, lv, fv, r, ItemType::Kart, true);
    let ghost c3 = group_cell(d, lv, fv, r, ItemType::Glider, true);
    let ghost c4 = group_cell(d, lv, fv, r, ItemType::Driver, false);
    let ghost c5 = group_cell(d, lv, fv, r, ItemType::Kart, false);
    let ghost c6 = group_cell(d, lv, fv, r, ItemType::Glider, false);
    out.append(heading);
    add_cell(data, lines, favs, r, ItemType::Driver, true, out);
    add_cell(data, lines, favs, r, ItemType::Kart, true, out);
    add_cell(data, lines, favs, r, ItemType::Glider, true, out);
    add_cell(data, lines, favs, r, ItemType::Driver, false, out);
    add_cell(data, lines, favs, r, ItemType::Kart, false, out);
    add_cell(data, lines, favs, r, ItemType::Glider, false, out);
    assert(out@ == start + rarity_heading(r) + c1 + c2 + c3 + c4 + c5 + c6);
    assert(rarity_rows(d, lv, fv, r) == rarity_heading(r) + c1 + c2 + c3 + c4 + c5 + c6);
    assert(out@ =~= start + rarity_rows(d, lv, fv, r));
}

/// The wiki block of a course (see `course_block`), with the wiki lines of
/// the items by id.
pub fn wiki_course_block(data: &MktData, lines: &Vec<(String, String)>, c: &Course) -> (r: String)
    requires
        data.wf(),
    ensures
        r@ == course_block(*data, line_views(lines@), *c),
{
    let favs = sorted_favorites_of(c);
    let mut out = String::new();
    out.append("----- ");
    out.append(c.name.as_str());
    out.append(" -----\n");
    add_rarity_rows(data, lines, &favs, Rarity::HighEnd, &mut out);
    add_rarity_rows(data, lines, &favs, Rarity::Super, &mut out);
    add_rarity_rows(data, lines, &favs, Rarity::Normal, &mut out);
    out.append("----- END ");
    out.append(c.name.as_str());
    out.append(" -----\n");
    out.append("\n\n");
    assert(out@ =~= course_block(*data, line_views(lines@), *c));
    out
}

} // verus!
