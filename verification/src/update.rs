//! Building the database from the tables of the Super Mario Wiki: the
//! names of courses, drivers, karts and gliders listed there, and the
//! records they become.
use vstd::prelude::*;
use crate::data::MktData;
use crate::ids::{
    item_id_from_name, item_id_of, name_id, rarity_of_word, regex_replace_all, replace_all_matches,
    CourseId, ItemId, ItemType, Rarity,
};
use crate::keyed::{entries_map, keys_unique, upsert};
use crate::deduce::type_list;
use crate::keyed::{find_key, has_key};
use crate::model::{
    holds_pair, lemma_pair_set_empty, pair_set, Course, CourseAvailability, CourseView, Item,
    ItemRequirement, ItemView,
};
use crate::text::{
    contains_text, find_from, join2, lowercase, removed, same_text, split_char, split_on,
    split_once_at,
    split_once_text, trim_end_char, trim_spaces, views, without_trailing, ws_trimmed,
};

verus! {

/// Whether the last character of `s` is an ASCII digit.
pub open spec fn ends_with_digit(s: Seq<char>) -> bool {
    s.len() > 0 && '0' <= s.last() <= '9'
}

/// The full name of a course: the console prefix (if any) and a space, the
/// name, then the variant (such as `R` or `T`), right after the name when
/// it ends with a digit and after a space otherwise.
pub open spec fn full_course_name(prefix: Seq<char>, name: Seq<char>, variant: Seq<char>) -> Seq<
    char,
> {
    let head = if prefix.len() == 0 {
        name
    } else {
        prefix + seq![' '] + name
    };
    if ends_with_digit(name) {
        head + variant
    } else if variant.len() > 0 {
        head + seq![' '] + variant
    } else {
        head
    }
}

/// The full name of a course from its console prefix, name and variant.
pub fn course_name(prefix: &str, name: &str, variant: &str) -> (r: String)
    ensures
        r@ == full_course_name(prefix@, name@, variant@),
{
    let mut out = String::new();
    assert(out@ =~= Seq::<char>::empty());
    out.append(prefix);
    if prefix.unicode_len() > 0 {
        out.append(" ");
        proof {
            reveal_strlit(" ");
        }
    }
    out.append(name);
    let n = name.unicode_len();
    let digit_end = n > 0 && {
        let c = name.get_char(n - 1);
        '0' <= c && c <= '9'
    };
    if digit_end {
        out.append(variant);
    } else if variant.unicode_len() > 0 {
        out.append(" ");
        out.append(variant);
    }
    proof {
        reveal_strlit(" ");
        assert(out@ =~= full_course_name(prefix@, name@, variant@));
    }
    out
}

/// The view of a table of texts.
pub open spec fn table_views(rows: Seq<Vec<String>>) -> Seq<Seq<Seq<char>>> {
    rows.map_values(|r: Vec<String>| views(r@))
}

/// The names with their rarity that a row of the item table lists; names
/// holding `Mii` are left out when `skip_mii` is set.
pub open spec fn row_items(names: Seq<Seq<char>>, r: Rarity, skip_mii: bool) -> Seq<(Seq<char>, Rarity)>
    decreases names.len(),
{
    if names.len() == 0 {
        Seq::empty()
    } else {
        let rest = row_items(names.drop_last(), r, skip_mii);
        if skip_mii && find_from(names.last(), "Mii"@, 0) is Some {
            rest
        } else {
            rest.push((names.last(), r))
        }
    }
}

/// The items of the three rows from `first` on: normal, super, then
/// high-end ones.
pub open spec fn listed_items_of(rows: Seq<Seq<Seq<char>>>, first: int, skip_mii: bool) -> Seq<
    (Seq<char>, Rarity),
> {
    row_items(rows[first], Rarity::Normal, skip_mii) + row_items(
        rows[first + 1],
        Rarity::Super,
        skip_mii,
    ) + row_items(rows[first + 2], Rarity::HighEnd, skip_mii)
}

fn row_items_exec(names: &Vec<String>, r: Rarity, skip_mii: bool, out: &mut Vec<(String, Rarity)>)
    ensures
        pair_list_views(final(out)@) == pair_list_views(old(out)@) + row_items(views(names@), r, skip_mii),
{
    let ghost start = pair_list_views(out@);
    let mut i: usize = 0;
    assert(views(names@).subrange(0, 0) =~= Seq::<Seq<char>>::empty());
    assert(start + Seq::<(Seq<char>, Rarity)>::empty() =~= start);
    while i < names.len()
        invariant
            i <= names.len(),
            pair_list_views(out@) == start + row_items(views(names@).subrange(0, i as int), r, skip_mii),
        decreases names.len() - i,
    {
        let ghost pre = views(names@).subrange(0, i + 1);
        assert(pre.drop_last() =~= views(names@).subrange(0, i as int));
        assert(pre.last() == names@[i as int]@);
        let skip = skip_mii && contains_text(names[i].as_str(), "Mii");
        if !skip {
            let ghost before = pair_list_views(out@);
            out.push((names[i].clone(), r));
            assert(pair_list_views(out@) =~= before.push((names@[i as int]@, r)));
        }
        i = i + 1;
    }
    assert(views(names@).subrange(0, names@.len() as int) =~= views(names@));
}

/// The views of a list of (name, rarity) pairs.
pub open spec fn pair_list_views(s: Seq<(String, Rarity)>) -> Seq<(Seq<char>, Rarity)> {
    s.map_values(|p: (String, Rarity)| (p.0@, p.1))
}

/// The items that rows `first`, `first + 1` and `first + 2` of the wiki's
/// item table list, with their rarity.
pub fn listed_items(rows: &Vec<Vec<String>>, first: usize, skip_mii: bool) -> (r: Vec<(String, Rarity)>)
    requires
        first + 3 <= rows.len(),
    ensures
        pair_list_views(r@) == listed_items_of(table_views(rows@), first as int, skip_mii),
{
    let mut out: Vec<(String, Rarity)> = Vec::new();
    assert(pair_list_views(out@) =~= Seq::<(Seq<char>, Rarity)>::empty());
    row_items_exec(&rows[first], Rarity::Normal, skip_mii, &mut out);
    row_items_exec(&rows[first + 1], Rarity::Super, skip_mii, &mut out);
    row_items_exec(&rows[first + 2], Rarity::HighEnd, skip_mii, &mut out);
    proof {
        let t = table_views(rows@);
        assert(t[first as int] == views(rows@[first as int]@));
        assert(t[first + 1] == views(rows@[first + 1]@));
        assert(t[first + 2] == views(rows@[first + 2]@));
        assert(Seq::<(Seq<char>, Rarity)>::empty() + row_items(t[first as int], Rarity::Normal, skip_mii)
            =~= row_items(t[first as int], Rarity::Normal, skip_mii));
    }
    out
}

/// The console prefix of the course rows of the wiki's table, from the
/// first course row on.
pub open spec fn course_prefix(k: int) -> Seq<char> {
    if k == 3 {
        "SNES"@
    } else if k == 4 {
        "N64"@
    } else if k == 5 {
        "GBA"@
    } else if k == 6 {
        "GCN"@
    } else if k == 7 {
        "DS"@
    } else if k == 8 {
        "Wii"@
    } else if k == 9 {
        "3DS"@
    } else {
        ""@
    }
}

fn course_prefix_exec(k: usize) -> (r: &'static str)
    ensures
        r@ == course_prefix(k as int),
{
    if k == 3 {
        "SNES"
    } else if k == 4 {
        "N64"
    } else if k == 5 {
        "GBA"
    } else if k == 6 {
        "GCN"
    } else if k == 7 {
        "DS"
    } else if k == 8 {
        "Wii"
    } else if k == 9 {
        "3DS"
    } else {
        ""
    }
}

/// The variants listed after a course name: the text between ` (` and the
/// closing brackets, split at commas, each piece trimmed.
pub open spec fn listed_variants(rt: Seq<char>) -> Seq<Seq<char>> {
    split_on(without_trailing(rt, ')'), ',').map_values(|v: Seq<char>| ws_trimmed(v))
}

/// The courses that one course link of the table stands for: `Name (R, T)`
/// stands for the course, its `R` and its `T` variants; other links for the
/// prefixed name; the `tour appearances` link for none.
pub open spec fn link_courses(prefix: Seq<char>, link: Seq<char>) -> Seq<Seq<char>> {
    if link == "tour appearances"@ {
        Seq::empty()
    } else {
        match split_once_at(link, " ("@) {
            Some((name, rt)) => seq![full_course_name(prefix, name, Seq::empty())] + listed_variants(
                rt,
            ).map_values(|v: Seq<char>| full_course_name(prefix, name, v)),
            None => seq![ws_trimmed(prefix + seq![' '] + link)],
        }
    }
}

/// The courses of the first `n` links of a row.
pub open spec fn row_courses(prefix: Seq<char>, links: Seq<Seq<char>>, n: int) -> Seq<Seq<char>>
    decreases n,
{
    if n <= 0 {
        Seq::empty()
    } else {
        row_courses(prefix, links, n - 1) + link_courses(prefix, links[n - 1])
    }
}

/// The courses of the first `k` course rows of the table (rows 14 on).
pub open spec fn listed_courses_of(rows: Seq<Seq<Seq<char>>>, k: int) -> Seq<Seq<char>>
    decreases k,
{
    if k <= 0 {
        Seq::empty()
    } else {
        listed_courses_of(rows, k - 1) + row_courses(
            course_prefix(k - 1),
            rows[14 + k - 1],
            rows[14 + k - 1].len() as int,
        )
    }
}

fn push_link_courses(prefix: &str, link: &str, out: &mut Vec<String>)
    ensures
        views(final(out)@) == views(old(out)@) + link_courses(prefix@, link@),
{
    let ghost start = views(out@);
    if same_text(link, "tour appearances") {
        assert(views(out@) =~= start + Seq::<Seq<char>>::empty());
        return ;
    }
    match split_once_text(link, " (") {
        Some((name, rt)) => {
            out.push(course_name(prefix, name.as_str(), ""));
            proof {
                reveal_strlit("");
            }
            let inner = trim_end_char(rt.as_str(), ')');
            let parts = split_char(inner.as_str(), ',');
            let ghost vs = listed_variants(rt@);
            let ghost mapped = vs.map_values(|v: Seq<char>| full_course_name(prefix@, name@, v));
            let ghost head = start.push(full_course_name(prefix@, name@, Seq::empty()));
            assert(views(out@) =~= head);
            let mut j: usize = 0;
            while j < parts.len()
                invariant
                    j <= parts.len(),
                    views(parts@) == split_on(without_trailing(rt@, ')'), ','),
                    vs == listed_variants(rt@),
                    mapped == vs.map_values(|v: Seq<char>| full_course_name(prefix@, name@, v)),
                    views(out@) == head + mapped.subrange(0, j as int),
                decreases parts.len() - j,
            {
                let v = trim_spaces(parts[j].as_str());
                assert(views(parts@)[j as int] == parts@[j as int]@);
                let ghost before = views(out@);
                out.push(course_name(prefix, name.as_str(), v.as_str()));
                assert(views(out@) =~= before.push(mapped[j as int]));
                assert(mapped.subrange(0, j + 1) =~= mapped.subrange(0, j as int).push(
                    mapped[j as int],
                ));
                j = j + 1;
            }
            proof {
                assert(mapped.subrange(0, mapped.len() as int) =~= mapped);
                assert(seq![full_course_name(prefix@, name@, Seq::empty())] + mapped =~= link_courses(
                    prefix@,
                    link@,
                ).subrange(0, link_courses(prefix@, link@).len() as int));
                assert(views(out@) =~= start + link_courses(prefix@, link@));
            }
        },
        None => {
            let spaced = join2(prefix, " ");
            let whole = join2(spaced.as_str(), link);
            let ghost before = views(out@);
            out.push(trim_spaces(whole.as_str()));
            proof {
                reveal_strlit(" ");
                assert(whole@ =~= prefix@ + seq![' '] + link@);
                assert(views(out@) =~= before.push(ws_trimmed(prefix@ + seq![' '] + link@)));
                assert(views(out@) =~= start + link_courses(prefix@, link@));
            }
        },
    }
}

/// The courses that the course rows of the wiki's table list (rows 14 to
/// 25, each with its console prefix).
pub fn listed_courses(rows: &Vec<Vec<String>>) -> (r: Vec<String>)
    requires
        rows.len() >= 26,
    ensures
        views(r@) == listed_courses_of(table_views(rows@), 12),
{
    let ghost t = table_views(rows@);
    let mut out: Vec<String> = Vec::new();
    let mut k: usize = 0;
    assert(views(out@) =~= Seq::<Seq<char>>::empty());
    while k < 12
        invariant
            rows.len() >= 26,
            t == table_views(rows@),
            k <= 12,
            views(out@) == listed_courses_of(t, k as int),
        decreases 12 - k,
    {
        let prefix = course_prefix_exec(k);
        let row = &rows[14 + k];
        assert(t[14 + k as int] == views(row@));
        let ghost base = views(out@);
        let mut j: usize = 0;
        while j < row.len()
            invariant
                j <= row.len(),
                prefix@ == course_prefix(k as int),
                views(out@) == base + row_courses(prefix@, views(row@), j as int),
            decreases row.len() - j,
        {
            assert(views(row@)[j as int] == row@[j as int]@);
            let ghost before = views(out@);
            push_link_courses(prefix, row[j].as_str(), &mut out);
            assert(base + row_courses(prefix@, views(row@), j + 1) =~= before + link_courses(
                prefix@,
                row@[j as int]@,
            ));
            j = j + 1;
        }
        k = k + 1;
    }
    out
}

/// An item view without its change date.
pub open spec fn timeless_item(v: ItemView) -> ItemView {
    ItemView { last_changed: None, ..v }
}

/// A map of item views without their change dates.
pub open spec fn timeless_items(m: Map<Seq<char>, ItemView>) -> Map<Seq<char>, ItemView> {
    Map::new(|k: Seq<char>| m.contains_key(k), |k: Seq<char>| timeless_item(m[k]))
}

/// A course view without its change date.
pub open spec fn timeless_course(v: CourseView) -> CourseView {
    CourseView { last_changed: None, ..v }
}

/// A map of course views without their change dates.
pub open spec fn timeless_courses(m: Map<Seq<char>, CourseView>) -> Map<Seq<char>, CourseView> {
    Map::new(|k: Seq<char>| m.contains_key(k), |k: Seq<char>| timeless_course(m[k]))
}

/// A new item (without change date): no favored course and no hash yet.
pub open spec fn new_item(name: Seq<char>, r: Rarity, t: ItemType, sort: int) -> ItemView {
    ItemView {
        sort: Some(sort as u32),
        id: item_id_of(name, t),
        i_type: t,
        name,
        rarity: r,
        favorite_courses: Set::empty(),
        hashes: Seq::empty(),
        last_changed: None,
    }
}

/// A new course (without change date): no favored item yet.
pub open spec fn new_course(name: Seq<char>, sort: int) -> CourseView {
    CourseView {
        sort: Some(sort as u32),
        id: "c_"@ + name_id(name),
        name,
        favorite_items: Set::empty(),
        last_changed: None,
    }
}

/// Map `m` after adding, in order, a new item for each entry; entry `j`
/// gets the sort number `first + j + 1`, and a later entry with the same
/// id replaces an earlier one.
pub open spec fn items_added(
    m: Map<Seq<char>, ItemView>,
    entries: Seq<(Seq<char>, Rarity)>,
    t: ItemType,
    first: int,
) -> Map<Seq<char>, ItemView>
    decreases entries.len(),
{
    if entries.len() == 0 {
        m
    } else {
        let e = entries.last();
        items_added(m, entries.drop_last(), t, first).insert(
            item_id_of(e.0, t),
            new_item(e.0, e.1, t, first + entries.len()),
        )
    }
}

/// Map `m` after adding, in order, a new course for each name; name `j`
/// gets the sort number `j + 1`.
pub open spec fn courses_added(m: Map<Seq<char>, CourseView>, names: Seq<Seq<char>>) -> Map<
    Seq<char>,
    CourseView,
>
    decreases names.len(),
{
    if names.len() == 0 {
        m
    } else {
        courses_added(m, names.drop_last()).insert(
            "c_"@ + name_id(names.last()),
            new_course(names.last(), names.len() as int),
        )
    }
}

/// Adds a new item of type `t` for each entry, numbered from `first + 1`.
fn add_items(list: &mut Vec<(ItemId, Item)>, entries: &Vec<(String, Rarity)>, t: ItemType, first: u32)
    requires
        keys_unique(old(list)@),
        first + entries@.len() <= u32::MAX,
    ensures
        keys_unique(final(list)@),
        timeless_items(entries_map(final(list)@)) == items_added(
            timeless_items(entries_map(old(list)@)),
            pair_list_views(entries@),
            t,
            first as int,
        ),
        forall|j: int|
            0 <= j < entries@.len() ==> (#[trigger] entries_map(final(list)@)[item_id_of(
                entries@[j].0@,
                t,
            )]).last_changed is Some,
        forall|j: int|
            0 <= j < entries@.len() ==> entries_map(final(list)@).contains_key(
                #[trigger] item_id_of(entries@[j].0@, t),
            ),
{
    let ghost m0 = timeless_items(entries_map(list@));
    let ghost ev = pair_list_views(entries@);
    let mut i: usize = 0;
    let mut sort: u32 = first;
    assert(ev.subrange(0, 0) =~= Seq::<(Seq<char>, Rarity)>::empty());
    while i < entries.len()
        invariant
            keys_unique(list@),
            first + entries@.len() <= u32::MAX,
            i <= entries.len(),
            sort == first + i,
            ev == pair_list_views(entries@),
            timeless_items(entries_map(list@)) == items_added(m0, ev.subrange(0, i as int), t, first as int),
            forall|j: int|
                0 <= j < i ==> entries_map(list@).contains_key(#[trigger] item_id_of(entries@[j].0@, t))
                    && entries_map(list@)[item_id_of(entries@[j].0@, t)].last_changed is Some,
        decreases entries.len() - i,
    {
        sort = sort + 1;
        let item = Item::new(t, entries[i].1, entries[i].0.clone(), Some(sort));
        proof {
            lemma_pair_set_empty(item.favorite_courses@);
            assert(item@.hashes =~= Seq::<Seq<char>>::empty());
        }
        let ghost before = entries_map(list@);
        let key = item.id.clone();
        let ghost iv = item@;
        upsert(list, key, item);
        proof {
            let pre = ev.subrange(0, i + 1);
            assert(pre.drop_last() =~= ev.subrange(0, i as int));
            assert(pre.last() == (entries@[i as int].0@, entries@[i as int].1));
            assert(timeless_item(iv) == new_item(entries@[i as int].0@, entries@[i as int].1, t, first + i + 1));
            assert(timeless_items(before.insert(iv.id, iv)) =~= timeless_items(before).insert(
                iv.id,
                timeless_item(iv),
            ));
        }
        i = i + 1;
    }
    assert(ev.subrange(0, entries@.len() as int) =~= ev);
}

/// Adds a new course for each name, numbered from 1.
fn add_courses(list: &mut Vec<(CourseId, Course)>, names: &Vec<String>)
    requires
        keys_unique(old(list)@),
        names@.len() <= u32::MAX,
    ensures
        keys_unique(final(list)@),
        timeless_courses(entries_map(final(list)@)) == courses_added(
            timeless_courses(entries_map(old(list)@)),
            views(names@),
        ),
        forall|j: int|
            0 <= j < names@.len() ==> (#[trigger] entries_map(final(list)@)["c_"@ + name_id(
                names@[j]@,
            )]).last_changed is Some,
{
    let ghost m0 = timeless_courses(entries_map(list@));
    let ghost nv = views(names@);
    let mut i: usize = 0;
    let mut sort: u32 = 0;
    assert(nv.subrange(0, 0) =~= Seq::<Seq<char>>::empty());
    while i < names.len()
        invariant
            keys_unique(list@),
            names@.len() <= u32::MAX,
            i <= names.len(),
            sort == i,
            nv == views(names@),
            timeless_courses(entries_map(list@)) == courses_added(m0, nv.subrange(0, i as int)),
            forall|j: int|
                0 <= j < i ==> entries_map(list@).contains_key(#[trigger] ("c_"@ + name_id(names@[j]@)))
                    && entries_map(list@)["c_"@ + name_id(names@[j]@)].last_changed is Some,
        decreases names.len() - i,
    {
        sort = sort + 1;
        let course = Course::new(names[i].clone(), Some(sort));
        proof {
            lemma_pair_set_empty(course.favorite_items@);
        }
        let ghost before = entries_map(list@);
        let key = course.id.clone();
        let ghost cv = course@;
        upsert(list, key, course);
        proof {
            let pre = nv.subrange(0, i + 1);
            assert(pre.drop_last() =~= nv.subrange(0, i as int));
            assert(pre.last() == names@[i as int]@);
            assert(timeless_course(cv) == new_course(names@[i as int]@, i + 1));
            assert(timeless_courses(before.insert(cv.id, cv)) =~= timeless_courses(before).insert(
                cv.id,
                timeless_course(cv),
            ));
        }
        i = i + 1;
    }
    assert(nv.subrange(0, names@.len() as int) =~= nv);
}

/// Whether the lists of the wiki's table are short enough to be numbered
/// with `u32` sort numbers.
pub open spec fn table_fits(rows: Seq<Seq<Seq<char>>>) -> bool {
    &&& listed_items_of(rows, 2, true).len() <= u32::MAX
    &&& listed_items_of(rows, 6, false).len() <= u32::MAX
    &&& listed_items_of(rows, 9, false).len() <= u32::MAX
    &&& listed_courses_of(rows, 12).len() <= u32::MAX
}

/// The database `new` is `old` with the items and courses of the summary
/// table rows added (see `add_listed_items_and_courses`).
pub open spec fn catalog_added(old: MktData, new: MktData, rows: Seq<Seq<Seq<char>>>) -> bool {
    &&& new.wf()
    &&& timeless_items(entries_map(new.drivers@)) == items_added(
        timeless_items(entries_map(old.drivers@)),
        listed_items_of(rows, 2, true),
        ItemType::Driver,
        0,
    )
    &&& timeless_items(entries_map(new.karts@)) == items_added(
        timeless_items(entries_map(old.karts@)),
        listed_items_of(rows, 6, false),
        ItemType::Kart,
        0,
    )
    &&& timeless_items(entries_map(new.gliders@)) == items_added(
        timeless_items(entries_map(old.gliders@)),
        listed_items_of(rows, 9, false),
        ItemType::Glider,
        0,
    )
    &&& timeless_courses(entries_map(new.courses@)) == courses_added(
        timeless_courses(entries_map(old.courses@)),
        listed_courses_of(rows, 12),
    )
}

/// Adds to the database the items and courses that the rows of the wiki's
/// summary table list, each row given as the texts of its links: drivers
/// in rows 2 to 4 (but Miis), karts in rows 6 to 8 and gliders in rows 9
/// to 11, each kind normal, super then high-end and numbered from 1 in
/// order; courses in rows 14 to 25 with their console prefixes, numbered
/// from 1 in order.
pub fn add_listed_items_and_courses(data: &mut MktData, rows: &Vec<Vec<String>>)
    requires
        old(data).wf(),
        rows@.len() >= 26,
        table_fits(table_views(rows@)),
    ensures
        catalog_added(*old(data), *final(data), table_views(rows@)),
{
    let drivers = listed_items(rows, 2, true);
    add_items(&mut data.drivers, &drivers, ItemType::Driver, 0);
    let karts = listed_items(rows, 6, false);
    add_items(&mut data.karts, &karts, ItemType::Kart, 0);
    let gliders = listed_items(rows, 9, false);
    add_items(&mut data.gliders, &gliders, ItemType::Glider, 0);
    let courses = listed_courses(rows);
    add_courses(&mut data.courses, &courses);
}

/// The Mii names of the first `n` rows of the wiki's Mii table: one row in
/// four, from the third row on.
pub open spec fn mii_names_of(rows: Seq<Seq<Seq<char>>>, n: int) -> Seq<Seq<char>>
    decreases n,
{
    if n <= 0 {
        Seq::empty()
    } else {
        mii_names_of(rows, n - 1) + if n - 1 >= 2 && (n - 1 - 2) % 4 == 0 {
            rows[n - 1]
        } else {
            Seq::empty()
        }
    }
}

/// The Mii names that the wiki's Mii table lists.
pub fn listed_miis(rows: &Vec<Vec<String>>) -> (r: Vec<(String, Rarity)>)
    ensures
        pair_list_views(r@) == mii_names_of(table_views(rows@), rows@.len() as int).map_values(
            |n: Seq<char>| (n, Rarity::HighEnd),
        ),
{
    let ghost t = table_views(rows@);
    let mut out: Vec<(String, Rarity)> = Vec::new();
    let mut k: usize = 0;
    assert(pair_list_views(out@) =~= mii_names_of(t, 0).map_values(
        |n: Seq<char>| (n, Rarity::HighEnd),
    ));
    while k < rows.len()
        invariant
            t == table_views(rows@),
            k <= rows.len(),
            pair_list_views(out@) == mii_names_of(t, k as int).map_values(
                |n: Seq<char>| (n, Rarity::HighEnd),
            ),
        decreases rows.len() - k,
    {
        if k >= 2 && (k - 2) % 4 == 0 {
            let row = &rows[k];
            assert(t[k as int] == views(row@));
            let ghost base = pair_list_views(out@);
            let mut j: usize = 0;
            while j < row.len()
                invariant
                    j <= row.len(),
                    pair_list_views(out@) == base + views(row@).subrange(0, j as int).map_values(
                        |n: Seq<char>| (n, Rarity::HighEnd),
                    ),
                decreases row.len() - j,
            {
                let ghost before = pair_list_views(out@);
                out.push((row[j].clone(), Rarity::HighEnd));
                assert(pair_list_views(out@) =~= before.push((row@[j as int]@, Rarity::HighEnd)));
                assert(views(row@).subrange(0, j + 1).map_values(|n: Seq<char>| (n, Rarity::HighEnd))
                    =~= views(row@).subrange(0, j as int).map_values(
                    |n: Seq<char>| (n, Rarity::HighEnd),
                ).push((row@[j as int]@, Rarity::HighEnd)));
                j = j + 1;
            }
            assert(views(row@).subrange(0, row@.len() as int) =~= views(row@));
            assert(mii_names_of(t, k + 1).map_values(|n: Seq<char>| (n, Rarity::HighEnd))
                =~= mii_names_of(t, k as int).map_values(|n: Seq<char>| (n, Rarity::HighEnd))
                + views(row@).map_values(|n: Seq<char>| (n, Rarity::HighEnd)));
        } else {
            assert(mii_names_of(t, k + 1) =~= mii_names_of(t, k as int));
        }
        k = k + 1;
    }
    out
}

/// The sort number that the Miis are numbered after: the number of drivers,
/// cut to 32 bits.
pub open spec fn mii_start(n: nat) -> u32 {
    n as u32
}

/// The database `new` is `old` with the Miis of the Mii table rows added
/// (see `add_listed_miis`).
pub open spec fn miis_added(old: MktData, new: MktData, rows: Seq<Seq<Seq<char>>>) -> bool {
    &&& new.wf()
    &&& new.courses@ == old.courses@
    &&& new.karts@ == old.karts@
    &&& new.gliders@ == old.gliders@
    &&& timeless_items(entries_map(new.drivers@)) == items_added(
        timeless_items(entries_map(old.drivers@)),
        mii_names_of(rows, rows.len() as int).map_values(|n: Seq<char>| (n, Rarity::HighEnd)),
        ItemType::Driver,
        mii_start(old.drivers@.len()) as int,
    )
}

/// Adds to the database the Mii drivers that the wiki's Mii table lists,
/// all high-end, numbered after the drivers already there.
pub fn add_listed_miis(data: &mut MktData, rows: &Vec<Vec<String>>)
    requires
        old(data).wf(),
        mii_start(old(data).drivers@.len()) + mii_names_of(table_views(rows@), rows@.len() as int).len()
            <= u32::MAX,
    ensures
        miis_added(*old(data), *final(data), table_views(rows@)),
{
    let start: u32 = #[verifier::truncate] (data.drivers.len() as u32);
    let miis = listed_miis(rows);
    add_items(&mut data.drivers, &miis, ItemType::Driver, start);
}

/// What `regex::Regex::new(pattern)` followed by `replace(haystack,
/// replacement)` gives (the first match replaced): `None` when the pattern
/// does not compile.
pub uninterp spec fn regex_replace_first(
    pattern: Seq<char>,
    haystack: Seq<char>,
    replacement: Seq<char>,
) -> Option<Seq<char>>;

/// Calls `regex::Regex::new` and `Regex::replace` of the `regex` crate. The
/// contract names the outcome as a function of the pattern, the text and
/// the replacement; nothing more of it is stated.
#[verifier::external_body]
fn replace_first_match(pattern: &str, haystack: &str, replacement: &str) -> (r: Option<String>)
    ensures
        match r {
            Some(s) => regex_replace_first(pattern@, haystack@, replacement@) == Some(s@),
            None => regex_replace_first(pattern@, haystack@, replacement@) is None,
        },
{
    regex::Regex::new(pattern).ok().map(|re| re.replace(haystack, replacement).into_owned())
}

/// A link of a cell of a coverage table: the item it names (its title, or
/// the alternative text of the picture it holds, if any) and the number of
/// stars of the mark right after it, if there is one.
#[derive(Debug, Clone)]
pub struct CoverageLink {
    pub title: Option<String>,
    pub stars: Option<usize>,
}

/// A row of a coverage table: the first text of its first element, and the
/// links of each of its cells.
#[derive(Debug, Clone)]
pub struct CoverageRow {
    pub first_text: Option<String>,
    pub cells: Vec<Vec<CoverageLink>>,
}

/// A coverage table of a wiki page: the name of its course (the title of
/// the link before the table, if any) and its rows after the header row.
#[derive(Debug, Clone)]
pub struct CoverageTable {
    pub name: Option<String>,
    pub rows: Vec<CoverageRow>,
}

/// A wiki page of course coverage: the console prefix of its courses and
/// its tables.
#[derive(Debug, Clone)]
pub struct CoveragePage {
    pub prefix: String,
    pub tables: Vec<CoverageTable>,
}

/// The items a course favors, as the coverage pages list them: name,
/// sort number within its page, and (type, item name, level) links.
#[derive(Debug, Clone)]
pub struct CourseCoverage {
    pub name: String,
    pub sort: u32,
    pub links: Vec<(ItemType, String, u8)>,
}

pub type LinkView = (Option<Seq<char>>, Option<usize>);

pub type RowView = (Option<Seq<char>>, Seq<Seq<LinkView>>);

pub type TableView = (Option<Seq<char>>, Seq<RowView>);

pub type PageView = (Seq<char>, Seq<TableView>);

pub type Favor = (ItemType, Seq<char>, u8);

/// The view of an optional text.
pub open spec fn text_view(o: Option<String>) -> Option<Seq<char>> {
    match o {
        Some(s) => Some(s@),
        None => None,
    }
}

impl View for CoverageLink {
    type V = LinkView;

    open spec fn view(&self) -> LinkView {
        (text_view(self.title), self.stars)
    }
}

/// The views of the links of a cell.
pub open spec fn cell_view(c: Vec<CoverageLink>) -> Seq<LinkView> {
    c@.map_values(|l: CoverageLink| l@)
}

impl View for CoverageRow {
    type V = RowView;

    open spec fn view(&self) -> RowView {
        (text_view(self.first_text), self.cells@.map_values(|c: Vec<CoverageLink>| cell_view(c)))
    }
}

impl View for CoverageTable {
    type V = TableView;

    open spec fn view(&self) -> TableView {
        (text_view(self.name), self.rows@.map_values(|r: CoverageRow| r@))
    }
}

impl View for CoveragePage {
    type V = PageView;

    open spec fn view(&self) -> PageView {
        (self.prefix@, self.tables@.map_values(|t: CoverageTable| t@))
    }
}

/// The views of (type, name, level) links.
pub open spec fn favor_views(s: Seq<(ItemType, String, u8)>) -> Seq<Favor> {
    s.map_values(|f: (ItemType, String, u8)| (f.0, f.1@, f.2))
}

impl View for CourseCoverage {
    type V = (Seq<char>, u32, Seq<Favor>);

    open spec fn view(&self) -> (Seq<char>, u32, Seq<Favor>) {
        (self.name@, self.sort, favor_views(self.links@))
    }
}

/// The level that a star mark gives: `*` 3, `**` 6, `***` 8, else 0.
pub open spec fn star_level(stars: usize) -> u8 {
    if stars == 1 {
        3
    } else if stars == 2 {
        6
    } else if stars == 3 {
        8
    } else {
        0
    }
}

/// The item type of cell `k` of a course's three rows: none for the first
/// (the course cell), then drivers, karts and gliders in turn.
pub open spec fn cell_type(k: int) -> Option<ItemType> {
    if k <= 0 {
        None
    } else if (k - 1) % 3 == 0 {
        Some(ItemType::Driver)
    } else if (k - 1) % 3 == 1 {
        Some(ItemType::Kart)
    } else {
        Some(ItemType::Glider)
    }
}

/// The level of the items of cell `k` without a star mark: 1 for the
/// course cell, then three cells of favored items (1) and three of items
/// that are only good there (0) in turn.
pub open spec fn cell_level(k: int) -> u8 {
    if k <= 0 {
        1
    } else if (k - 1) % 6 < 3 {
        1
    } else {
        0
    }
}

/// An item name without an ending such as `'s icon from ...`.
pub open spec fn cleaned_name(n: Seq<char>) -> Seq<char> {
    match regex_replace_first("('s icon)? from.*"@, n, ""@) {
        Some(r) => r,
        None => n,
    }
}

/// The (type, name, level) links of the first `m` links of cell `k`.
pub open spec fn cell_links(cell: Seq<LinkView>, k: int, m: int) -> Seq<Favor>
    decreases m,
{
    if m <= 0 {
        Seq::empty()
    } else {
        let prev = cell_links(cell, k, m - 1);
        match (cell_type(k), cell[m - 1].0) {
            (Some(t), Some(n)) => prev.push(
                (
                    t,
                    cleaned_name(n),
                    match cell[m - 1].1 {
                        Some(s) => star_level(s),
                        None => cell_level(k),
                    },
                ),
            ),
            _ => prev,
        }
    }
}

/// The links of the first `n` cells.
pub open spec fn cells_links(cells: Seq<Seq<LinkView>>, n: int) -> Seq<Favor>
    decreases n,
{
    if n <= 0 {
        Seq::empty()
    } else {
        cells_links(cells, n - 1) + cell_links(cells[n - 1], n - 1, cells[n - 1].len() as int)
    }
}

/// The course that three rows of a table are about: the table's name with
/// the page's prefix and the variant, which is the first word of the first
/// row without `Normal`; none when one of these is missing.
pub open spec fn triple_course(prefix: Seq<char>, name: Option<Seq<char>>, high: RowView) -> Option<
    Seq<char>,
> {
    match (name, high.0) {
        (Some(nm), Some(ft)) => match split_once_at(ft, " "@) {
            Some((first, _)) => if nm.len() > 0 {
                Some(full_course_name(prefix, nm, removed(first, "Normal"@)))
            } else {
                None
            },
            None => None,
        },
        _ => None,
    }
}

/// The courses, with their links, of the first `k` row triples of a table.
pub open spec fn table_named(prefix: Seq<char>, t: TableView, k: int) -> Seq<(Seq<char>, Seq<Favor>)>
    decreases k,
{
    if k <= 0 {
        Seq::empty()
    } else {
        let prev = table_named(prefix, t, k - 1);
        let h = t.1[3 * (k - 1)];
        let s = t.1[3 * (k - 1) + 1];
        let n = t.1[3 * (k - 1) + 2];
        match triple_course(prefix, t.0, h) {
            Some(c) => prev.push((c, cells_links(h.1 + s.1 + n.1, (h.1 + s.1 + n.1).len() as int))),
            None => prev,
        }
    }
}

/// The courses of the first `m` tables of a page.
pub open spec fn page_named(prefix: Seq<char>, tables: Seq<TableView>, m: int) -> Seq<
    (Seq<char>, Seq<Favor>),
>
    decreases m,
{
    if m <= 0 {
        Seq::empty()
    } else {
        page_named(prefix, tables, m - 1) + table_named(
            prefix,
            tables[m - 1],
            tables[m - 1].1.len() as int / 3,
        )
    }
}

/// The courses of a page numbered from 1.
pub open spec fn numbered(s: Seq<(Seq<char>, Seq<Favor>)>) -> Seq<(Seq<char>, u32, Seq<Favor>)> {
    Seq::new(s.len(), |j: int| (s[j].0, (j + 1) as u32, s[j].1))
}

/// The courses of the first `m` pages.
pub open spec fn coverage_of(pages: Seq<PageView>, m: int) -> Seq<(Seq<char>, u32, Seq<Favor>)>
    decreases m,
{
    if m <= 0 {
        Seq::empty()
    } else {
        coverage_of(pages, m - 1) + numbered(
            page_named(pages[m - 1].0, pages[m - 1].1, pages[m - 1].1.len() as int),
        )
    }
}

/// Whether no page lists so many courses that their numbers overflow.
pub open spec fn pages_fit(pages: Seq<PageView>) -> bool {
    forall|p: int|
        0 <= p < pages.len() ==> (#[trigger] page_named(
            pages[p].0,
            pages[p].1,
            pages[p].1.len() as int,
        )).len() < u32::MAX
}

fn star_level_exec(stars: usize) -> (r: u8)
    ensures
        r == star_level(stars),
{
    if stars == 1 {
        3
    } else if stars == 2 {
        6
    } else if stars == 3 {
        8
    } else {
        0
    }
}

/// The type and level of the cell after the first one whose position,
/// less one, is `phase` modulo 6.
fn cell_kind(first: bool, phase: usize) -> (r: (Option<ItemType>, u8))
    requires
        phase < 6,
    ensures
        first ==> r == (cell_type(0), cell_level(0)),
        !first ==> forall|k: int| k >= 1 && (k - 1) % 6 == phase ==> r == (cell_type(k), cell_level(k)),
{
    if first {
        (None, 1)
    } else {
        let m = phase % 3;
        let t = if m == 0 {
            ItemType::Driver
        } else if m == 1 {
            ItemType::Kart
        } else {
            ItemType::Glider
        };
        let l: u8 = if phase < 3 {
            1
        } else {
            0
        };
        (Some(t), l)
    }
}

fn clean_name(n: &str) -> (r: String)
    ensures
        r@ == cleaned_name(n@),
{
    match replace_first_match("('s icon)? from.*", n, "") {
        Some(r) => r,
        None => n.to_owned(),
    }
}

fn push_cell_links(
    cell: &Vec<CoverageLink>,
    t: Option<ItemType>,
    base: u8,
    Ghost(k): Ghost<int>,
    out: &mut Vec<(ItemType, String, u8)>,
)
    requires
        t == cell_type(k),
        base == cell_level(k),
    ensures
        favor_views(final(out)@) == favor_views(old(out)@) + cell_links(
            cell_view(*cell),
            k,
            cell@.len() as int,
        ),
{
    let ghost start = favor_views(out@);
    let mut m: usize = 0;
    assert(start + cell_links(cell_view(*cell), k, 0) =~= start);
    while m < cell.len()
        invariant
            m <= cell.len(),
            t == cell_type(k),
            base == cell_level(k),
            favor_views(out@) == start + cell_links(cell_view(*cell), k, m as int),
        decreases cell.len() - m,
    {
        let link = &cell[m];
        assert(cell_view(*cell)[m as int] == link@);
        match (t, &link.title) {
            (Some(t), Some(n)) => {
                let l = match link.stars {
                    Some(s) => star_level_exec(s),
                    None => base,
                };
                let ghost before = favor_views(out@);
                out.push((t, clean_name(n.as_str()), l));
                assert(favor_views(out@) =~= before.push((t, cleaned_name(n@), l)));
            },
            _ => {},
        }
        m = m + 1;
    }
}

proof fn lemma_next_phase(k: int, phase: int)
    requires
        k >= 1,
        phase == (k - 1) % 6,
    ensures
        (phase + 1) % 6 == k % 6,
{
    assert((phase + 1) % 6 == k % 6) by (nonlinear_arith)
        requires
            k >= 1,
            phase == (k - 1) % 6,
    ;
}

/// The links of three rows of a coverage table.
fn triple_links(h: &CoverageRow, s: &CoverageRow, n: &CoverageRow) -> (r: Vec<(ItemType, String, u8)>)
    ensures
        favor_views(r@) == cells_links(h@.1 + s@.1 + n@.1, (h@.1 + s@.1 + n@.1).len() as int),
{
    let ghost all = h@.1 + s@.1 + n@.1;
    let mut out: Vec<(ItemType, String, u8)> = Vec::new();
    assert(favor_views(out@) =~= cells_links(all, 0));
    let ghost mut k: int = 0;
    let mut first = true;
    let mut phase: usize = 0;
    let mut ri: usize = 0;
    while ri < 3
        invariant
            all == h@.1 + s@.1 + n@.1,
            ri <= 3,
            k == (if ri == 0 {
                0
            } else if ri == 1 {
                h@.1.len() as int
            } else if ri == 2 {
                h@.1.len() + s@.1.len() as int
            } else {
                all.len() as int
            }),
            first == (k == 0),
            phase < 6,
            k > 0 ==> phase == (k - 1) % 6,
            favor_views(out@) == cells_links(all, k),
        decreases 3 - ri,
    {
        let row = if ri == 0 {
            h
        } else if ri == 1 {
            s
        } else {
            n
        };
        let mut ci: usize = 0;
        let ghost k0 = k;
        assert(k0 + row@.1.len() <= all.len());
        assert forall|j: int| 0 <= j < row@.1.len() implies all[k0 + j] == #[trigger] row@.1[j] by {}
        while ci < row.cells.len()
            invariant
                all == h@.1 + s@.1 + n@.1,
                ci <= row.cells.len(),
                k == k0 + ci,
                k0 >= 0,
                k0 + row@.1.len() <= all.len(),
                forall|j: int| 0 <= j < row@.1.len() ==> all[k0 + j] == #[trigger] row@.1[j],
                first == (k == 0),
                phase < 6,
                k > 0 ==> phase == (k - 1) % 6,
                favor_views(out@) == cells_links(all, k),
            decreases row.cells.len() - ci,
        {
            assert(row@.1[ci as int] == cell_view(row.cells@[ci as int]));
            assert(all[k] == cell_view(row.cells@[ci as int]));
            let (t, base) = cell_kind(first, phase);
            push_cell_links(&row.cells[ci], t, base, Ghost(k), &mut out);
            proof {
                if !first {
                    lemma_next_phase(k, phase as int);
                }
            }
            if first {
                first = false;
                phase = 0;
            } else {
                phase = (phase + 1) % 6;
            }
            proof {
                k = k + 1;
            }
            ci = ci + 1;
        }
        ri = ri + 1;
    }
    out
}

/// The course that three rows of a table are about.
fn triple_course_exec(prefix: &str, name: &Option<String>, high: &CoverageRow) -> (r: Option<String>)
    ensures
        text_view(r) == triple_course(prefix@, text_view(*name), high@),
{
    match (name, &high.first_text) {
        (Some(nm), Some(ft)) => match split_once_text(ft.as_str(), " ") {
            Some((first, _)) => {
                if nm.as_str().unicode_len() > 0 {
                    proof {
                        reveal_strlit("Normal");
                    }
                    let variant = crate::text::remove_text(first.as_str(), "Normal");
                    Some(course_name(prefix, nm.as_str(), variant.as_str()))
                } else {
                    None
                }
            },
            None => None,
        },
        _ => None,
    }
}

/// The named courses of a coverage page with their links, numbered from 1
/// in order, after the entries already in `out`.
fn push_page_courses(page: &CoveragePage, out: &mut Vec<CourseCoverage>)
    requires
        page_named(page@.0, page@.1, page@.1.len() as int).len() < u32::MAX,
    ensures
        final(out)@.map_values(|c: CourseCoverage| c@) == old(out)@.map_values(|c: CourseCoverage| c@)
            + numbered(page_named(page@.0, page@.1, page@.1.len() as int)),
{
    let ghost start = out@.map_values(|c: CourseCoverage| c@);
    let ghost total = page_named(page@.0, page@.1, page@.1.len() as int);
    let mut sort: u32 = 1;
    let mut ti: usize = 0;
    assert(numbered(page_named(page@.0, page@.1, 0)) =~= Seq::<(Seq<char>, u32, Seq<Favor>)>::empty());
    while ti < page.tables.len()
        invariant
            ti <= page.tables.len(),
            total == page_named(page@.0, page@.1, page@.1.len() as int),
            total.len() < u32::MAX,
            sort == page_named(page@.0, page@.1, ti as int).len() + 1,
            out@.map_values(|c: CourseCoverage| c@) == start + numbered(
                page_named(page@.0, page@.1, ti as int),
            ),
        decreases page.tables.len() - ti,
    {
        let table = &page.tables[ti];
        assert(page@.1[ti as int] == table@);
        let ghost done = page_named(page@.0, page@.1, ti as int);
        let mut k: usize = 0;
        let triples = table.rows.len() / 3;
        while k < triples
            invariant
                k <= triples,
                triples == table@.1.len() / 3,
                table@ == page@.1[ti as int],
                ti < page.tables.len(),
                triples == table.rows.len() / 3,
                total == page_named(page@.0, page@.1, page@.1.len() as int),
                total.len() < u32::MAX,
                done == page_named(page@.0, page@.1, ti as int),
                sort == done.len() + table_named(page@.0, table@, k as int).len() + 1,
                out@.map_values(|c: CourseCoverage| c@) == start + numbered(
                    done + table_named(page@.0, table@, k as int),
                ),
            decreases triples - k,
        {
            assert(3 * k + 2 < table.rows.len()) by (nonlinear_arith)
                requires
                    k < triples,
                    triples == table.rows.len() / 3,
            ;
            let h = &table.rows[3 * k];
            let s = &table.rows[3 * k + 1];
            let n = &table.rows[3 * k + 2];
            assert(table@.1[3 * k as int] == h@);
            assert(table@.1[3 * k + 1] == s@);
            assert(table@.1[3 * k + 2] == n@);
            match triple_course_exec(page.prefix.as_str(), &table.name, h) {
                Some(c) => {
                    let links = triple_links(h, s, n);
                    proof {
                        lemma_page_named_grows(page@.0, page@.1, ti as int, k + 1);
                    }
                    let ghost before = out@.map_values(|c: CourseCoverage| c@);
                    let entry = CourseCoverage { name: c, sort, links };
                    out.push(entry);
                    proof {
                        let prev = done + table_named(page@.0, table@, k as int);
                        let nd = done + table_named(page@.0, table@, k + 1);
                        assert(nd =~= prev.push((c@, favor_views(links@))));
                        assert(numbered(nd) =~= numbered(prev).push(
                            (c@, (prev.len() + 1) as u32, favor_views(links@)),
                        ));
                        assert(out@.map_values(|c: CourseCoverage| c@) =~= before.push(
                            (c@, sort, favor_views(links@)),
                        ));
                        assert(out@.map_values(|c: CourseCoverage| c@) =~= start + numbered(nd));
                    }
                    sort = sort + 1;
                },
                None => {
                    assert(table_named(page@.0, table@, k + 1) == table_named(page@.0, table@, k as int));
                },
            }
            k = k + 1;
        }
        proof {
            assert(page_named(page@.0, page@.1, ti + 1) == done + table_named(
                page@.0,
                table@,
                table@.1.len() as int / 3,
            ));
        }
        ti = ti + 1;
    }
}

proof fn lemma_page_named_grows(prefix: Seq<char>, tables: Seq<TableView>, ti: int, k: int)
    requires
        0 <= ti < tables.len(),
        0 <= k <= tables[ti].1.len() / 3,
    ensures
        page_named(prefix, tables, ti).len() + table_named(prefix, tables[ti], k).len() <= page_named(
            prefix,
            tables,
            tables.len() as int,
        ).len(),
{
    lemma_table_named_grows(prefix, tables[ti], k, tables[ti].1.len() as int / 3);
    lemma_page_named_mono(prefix, tables, ti + 1, tables.len() as int);
}

proof fn lemma_table_named_grows(prefix: Seq<char>, t: TableView, k: int, m: int)
    requires
        0 <= k <= m,
    ensures
        table_named(prefix, t, k).len() <= table_named(prefix, t, m).len(),
    decreases m - k,
{
    if k < m {
        lemma_table_named_grows(prefix, t, k, m - 1);
    }
}

proof fn lemma_page_named_mono(prefix: Seq<char>, tables: Seq<TableView>, a: int, b: int)
    requires
        0 <= a <= b,
    ensures
        page_named(prefix, tables, a).len() <= page_named(prefix, tables, b).len(),
    decreases b - a,
{
    if a < b {
        lemma_page_named_mono(prefix, tables, a, b - 1);
    }
}

/// The courses of the coverage pages with the items they favor: each page's
/// courses numbered from 1 in order.
pub fn coverage_entries(pages: &Vec<CoveragePage>) -> (r: Vec<CourseCoverage>)
    requires
        pages_fit(pages@.map_values(|p: CoveragePage| p@)),
    ensures
        r@.map_values(|c: CourseCoverage| c@) == coverage_of(
            pages@.map_values(|p: CoveragePage| p@),
            pages@.len() as int,
        ),
{
    let ghost pv = pages@.map_values(|p: CoveragePage| p@);
    let mut out: Vec<CourseCoverage> = Vec::new();
    let mut i: usize = 0;
    assert(out@.map_values(|c: CourseCoverage| c@) =~= coverage_of(pv, 0));
    while i < pages.len()
        invariant
            i <= pages.len(),
            pv == pages@.map_values(|p: CoveragePage| p@),
            pages_fit(pv),
            out@.map_values(|c: CourseCoverage| c@) == coverage_of(pv, i as int),
        decreases pages.len() - i,
    {
        assert(pv[i as int] == pages@[i as int]@);
        assert(page_named(pv[i as int].0, pv[i as int].1, pv[i as int].1.len() as int).len() < u32::MAX);
        push_page_courses(&pages[i], &mut out);
        i = i + 1;
    }
    out
}

/// The id of the course with a given name.
pub open spec fn course_key(name: Seq<char>) -> Seq<char> {
    "c_"@ + name_id(name)
}

/// The (item id, level) pairs that the first `m` links of a course favor:
/// links of a level above 0 to items that database `d` knows.
pub open spec fn favorites_of(links: Seq<Favor>, m: int, d: MktData) -> Set<(Seq<char>, u8)>
    decreases m,
{
    if m <= 0 {
        Set::empty()
    } else {
        let prev = favorites_of(links, m - 1, d);
        let f = links[m - 1];
        if f.2 > 0 && has_key(type_list(d, f.0), item_id_of(f.1, f.0)) {
            prev.insert((item_id_of(f.1, f.0), f.2))
        } else {
            prev
        }
    }
}

/// The courses (without change dates) after the coverage entries `e`: each
/// entry makes a new course that favors its links' items; a later entry
/// with the same id replaces an earlier one.
pub open spec fn courses_covered(
    m: Map<Seq<char>, CourseView>,
    e: Seq<(Seq<char>, u32, Seq<Favor>)>,
    d: MktData,
) -> Map<Seq<char>, CourseView>
    decreases e.len(),
{
    if e.len() == 0 {
        m
    } else {
        let x = e.last();
        courses_covered(m, e.drop_last(), d).insert(
            course_key(x.0),
            CourseView {
                sort: Some(x.1),
                id: course_key(x.0),
                name: x.0,
                favorite_items: favorites_of(x.2, x.2.len() as int, d),
                last_changed: None,
            },
        )
    }
}

/// The (course id, level) pairs that the first `m` links of course `c` give
/// the item of type `t` with id `k`.
pub open spec fn link_gains(links: Seq<Favor>, m: int, t: ItemType, k: Seq<char>, c: Seq<char>) -> Set<
    (Seq<char>, u8),
>
    decreases m,
{
    if m <= 0 {
        Set::empty()
    } else {
        let prev = link_gains(links, m - 1, t, k, c);
        let f = links[m - 1];
        if f.0 == t && item_id_of(f.1, t) == k && f.2 > 0 {
            prev.insert((c, f.2))
        } else {
            prev
        }
    }
}

/// The (course id, level) pairs that the first `n` coverage entries give
/// the item of type `t` with id `k`.
pub open spec fn courses_gained(e: Seq<(Seq<char>, u32, Seq<Favor>)>, n: int, t: ItemType, k: Seq<char>) -> Set<
    (Seq<char>, u8),
>
    decreases n,
{
    if n <= 0 {
        Set::empty()
    } else {
        courses_gained(e, n - 1, t, k).union(
            link_gains(e[n - 1].2, e[n - 1].2.len() as int, t, k, course_key(e[n - 1].0)),
        )
    }
}

/// An item that is also favored on the courses `gained`.
pub open spec fn item_covered(v: ItemView, gained: Set<(Seq<char>, u8)>) -> ItemView {
    ItemView { favorite_courses: v.favorite_courses.union(gained), ..v }
}

/// The items of type `t` after the coverage entries `e`.
pub open spec fn items_covered(
    m: Map<Seq<char>, ItemView>,
    e: Seq<(Seq<char>, u32, Seq<Favor>)>,
    t: ItemType,
) -> Map<Seq<char>, ItemView> {
    Map::new(
        |k: Seq<char>| m.contains_key(k),
        |k: Seq<char>| item_covered(m[k], courses_gained(e, e.len() as int, t, k)),
    )
}

/// Marks the item with id `id`, if the list holds it, as favored on course
/// `course` from level `l` on.
fn favor_item(list: &mut Vec<(ItemId, Item)>, id: &String, course: &String, l: u8) -> (found: bool)
    requires
        keys_unique(old(list)@),
    ensures
        keys_unique(final(list)@),
        found == has_key(old(list)@, id@),
        entries_map(final(list)@) == (if found {
            entries_map(old(list)@).insert(
                id@,
                item_covered(entries_map(old(list)@)[id@], set![(course@, l)]),
            )
        } else {
            entries_map(old(list)@)
        }),
{
    match find_key(list, id.as_str()) {
        Some(p) => {
            proof {
                crate::keyed::lemma_entries_map_at(list@, p as int);
            }
            let mut it = list[p].1.duplicate();
            let pair = CourseAvailability::from((course.clone(), l));
            let ghost before = it@.favorite_courses;
            let ghost old_fc = it.favorite_courses@;
            if !holds_pair(&it.favorite_courses, &pair) {
                it.favorite_courses.push(pair);
                proof {
                    let nf = it.favorite_courses@;
                    assert(nf == old_fc.push(pair));
                    assert forall|x: (Seq<char>, u8)| #[trigger] pair_set(nf).contains(x) implies before.insert(
                        (course@, l),
                    ).contains(x) by {
                        let i = choose|i: int| 0 <= i < nf.len() && nf[i]@ == x;
                        if i < old_fc.len() {
                            assert(old_fc[i]@ == x);
                            assert(pair_set(old_fc).contains(x));
                        }
                    }
                    assert forall|x: (Seq<char>, u8)| before.insert((course@, l)).contains(x) implies #[trigger] pair_set(
                        nf,
                    ).contains(x) by {
                        if x == (course@, l) {
                            assert(nf[nf.len() - 1]@ == x);
                        } else {
                            assert(pair_set(old_fc).contains(x));
                            let i = choose|i: int| 0 <= i < old_fc.len() && old_fc[i]@ == x;
                            assert(nf[i]@ == x);
                        }
                    }
                    assert(pair_set(nf) =~= before.insert((course@, l)));
                }
            } else {
                assert(before.insert((course@, l)) =~= before);
            }
            proof {
                assert(before.union(set![(course@, l)]) =~= before.insert((course@, l)));
            }
            upsert(list, id.clone(), it);
            true
        },
        None => false,
    }
}

/// The items of map `m` also favored on the courses that the first `n`
/// coverage entries give them.
pub open spec fn items_gained(
    m: Map<Seq<char>, ItemView>,
    e: Seq<(Seq<char>, u32, Seq<Favor>)>,
    n: int,
    t: ItemType,
) -> Map<Seq<char>, ItemView> {
    Map::new(
        |k: Seq<char>| m.contains_key(k),
        |k: Seq<char>| item_covered(m[k], courses_gained(e, n, t, k)),
    )
}

/// The same, with the first `j` links of entry `n` too.
pub open spec fn items_partly(
    m: Map<Seq<char>, ItemView>,
    e: Seq<(Seq<char>, u32, Seq<Favor>)>,
    n: int,
    j: int,
    t: ItemType,
) -> Map<Seq<char>, ItemView> {
    Map::new(
        |k: Seq<char>| m.contains_key(k),
        |k: Seq<char>|
            item_covered(
                m[k],
                courses_gained(e, n, t, k).union(link_gains(e[n].2, j, t, k, course_key(e[n].0))),
            ),
    )
}

pub proof fn lemma_pair_set_push<T: View<V = (Seq<char>, u8)>>(s: Seq<T>, x: T)
    ensures
        pair_set(s.push(x)) == pair_set(s).insert(x@),
{
    let n = s.push(x);
    assert forall|y: (Seq<char>, u8)| #[trigger] pair_set(n).contains(y) implies pair_set(s).insert(x@).contains(y) by {
        let i = choose|i: int| 0 <= i < n.len() && n[i]@ == y;
        if i < s.len() {
            assert(s[i]@ == y);
        }
    }
    assert forall|y: (Seq<char>, u8)| pair_set(s).insert(x@).contains(y) implies #[trigger] pair_set(n).contains(y) by {
        if y == x@ {
            assert(n[s.len() as int]@ == y);
        } else {
            let i = choose|i: int| 0 <= i < s.len() && s[i]@ == y;
            assert(n[i]@ == y);
        }
    }
    assert(pair_set(n) =~= pair_set(s).insert(x@));
}

/// Marks the item of type `t` with id `id`, if the database holds it, as
/// favored on course `course` from level `l` on.
fn favor_item_of_type(data: &mut MktData, t: ItemType, id: &String, course: &String, l: u8) -> (found: bool)
    requires
        old(data).wf(),
    ensures
        final(data).wf(),
        final(data).courses@ == old(data).courses@,
        found == has_key(type_list(*old(data), t), id@),
        forall|u: ItemType| u != t ==> #[trigger] type_list(*final(data), u) == type_list(*old(data), u),
        entries_map(type_list(*final(data), t)) == (if found {
            entries_map(type_list(*old(data), t)).insert(
                id@,
                item_covered(entries_map(type_list(*old(data), t))[id@], set![(course@, l)]),
            )
        } else {
            entries_map(type_list(*old(data), t))
        }),
{
    match t {
        ItemType::Driver => favor_item(&mut data.drivers, id, course, l),
        ItemType::Kart => favor_item(&mut data.karts, id, course, l),
        ItemType::Glider => favor_item(&mut data.gliders, id, course, l),
    }
}

proof fn lemma_gains_step(
    m: Map<Seq<char>, ItemView>,
    e: Seq<(Seq<char>, u32, Seq<Favor>)>,
    n: int,
    j: int,
    t: ItemType,
    u: ItemType,
    id: Seq<char>,
    found: bool,
    l: u8,
    cur: Map<Seq<char>, ItemView>,
    next: Map<Seq<char>, ItemView>,
)
    requires
        0 <= n < e.len(),
        0 <= j < e[n].2.len(),
        e[n].2[j] == (t, e[n].2[j].1, l),
        id == item_id_of(e[n].2[j].1, t),
        cur == items_partly(m, e, n, j, u),
        u != t || l == 0 ==> next == cur,
        u == t && l > 0 ==> found == m.contains_key(id),
        u == t && l > 0 ==> next == (if found {
            cur.insert(id, item_covered(cur[id], set![(course_key(e[n].0), l)]))
        } else {
            cur
        }),
    ensures
        next == items_partly(m, e, n, j + 1, u),
{
    let c = course_key(e[n].0);
    let want = items_partly(m, e, n, j + 1, u);
    assert forall|k: Seq<char>| #[trigger] want.contains_key(k) implies next.contains_key(k) && next[k] == want[k] by {
        let g = courses_gained(e, n, u, k);
        let a = link_gains(e[n].2, j, u, k, c);
        let b = link_gains(e[n].2, j + 1, u, k, c);
        if u == t && l > 0 && k == id {
            assert(b == a.insert((c, l)));
            assert(m[k].favorite_courses.union(g.union(a)).union(set![(c, l)]) =~= m[k].favorite_courses.union(
                g.union(b),
            ));
        } else {
            assert(b == a);
        }
    }
    assert forall|k: Seq<char>| next.contains_key(k) implies #[trigger] want.contains_key(k) by {
        if u == t && l > 0 && found && k == id {
            assert(m.contains_key(id));
        } else {
            assert(cur.contains_key(k));
        }
    }
    assert(next =~= want);
}

/// Adds the coverage entries to the database: each entry makes a new
/// course, numbered as in its page, that replaces any course with its id;
/// for each of its links of a level above 0 to a known item, the course
/// favors the item at that level and the item is favored on the course.
pub fn apply_coverage(data: &mut MktData, entries: &Vec<CourseCoverage>)
    requires
        old(data).wf(),
    ensures
        final(data).wf(),
        timeless_courses(entries_map(final(data).courses@)) == courses_covered(
            timeless_courses(entries_map(old(data).courses@)),
            entries@.map_values(|c: CourseCoverage| c@),
            *old(data),
        ),
        entries_map(final(data).drivers@) == items_covered(
            entries_map(old(data).drivers@),
            entries@.map_values(|c: CourseCoverage| c@),
            ItemType::Driver,
        ),
        entries_map(final(data).karts@) == items_covered(
            entries_map(old(data).karts@),
            entries@.map_values(|c: CourseCoverage| c@),
            ItemType::Kart,
        ),
        entries_map(final(data).gliders@) == items_covered(
            entries_map(old(data).gliders@),
            entries@.map_values(|c: CourseCoverage| c@),
            ItemType::Glider,
        ),
{
    let ghost d0 = *data;
    let ghost ev = entries@.map_values(|c: CourseCoverage| c@);
    let ghost c0 = timeless_courses(entries_map(d0.courses@));
    let mut i: usize = 0;
    proof {
        assert(ev.subrange(0, 0) =~= Seq::<(Seq<char>, u32, Seq<Favor>)>::empty());
        assert forall|u: ItemType| #[trigger] entries_map(type_list(*data, u)) == items_gained(
            entries_map(type_list(d0, u)),
            ev,
            0,
            u,
        ) by {
            let m = entries_map(type_list(d0, u));
            assert forall|k: Seq<char>| m.contains_key(k) implies m[k] == #[trigger] item_covered(
                m[k],
                courses_gained(ev, 0, u, k),
            ) by {
                assert(m[k].favorite_courses.union(Set::empty()) =~= m[k].favorite_courses);
            }
            assert(entries_map(type_list(*data, u)) =~= items_gained(m, ev, 0, u));
        }
    }
    while i < entries.len()
        invariant
            data.wf(),
            i <= entries.len(),
            ev == entries@.map_values(|c: CourseCoverage| c@),
            c0 == timeless_courses(entries_map(d0.courses@)),
            timeless_courses(entries_map(data.courses@)) == courses_covered(
                c0,
                ev.subrange(0, i as int),
                d0,
            ),
            forall|u: ItemType| #[trigger] entries_map(type_list(*data, u)) == items_gained(
                entries_map(type_list(d0, u)),
                ev,
                i as int,
                u,
            ),
        decreases entries.len() - i,
    {
        let e = &entries[i];
        assert(ev[i as int] == e@);
        let mut course = Course::new(e.name.clone(), Some(e.sort));
        let ghost cid = course_key(e.name@);
        let ghost courses_before = data.courses@;
        let mut favs: Vec<ItemRequirement> = Vec::new();
        let mut j: usize = 0;
        proof {
            assert(pair_set(favs@) =~= favorites_of(e@.2, 0, d0));
            assert forall|u: ItemType| #[trigger] entries_map(type_list(*data, u)) == items_partly(
                entries_map(type_list(d0, u)),
                ev,
                i as int,
                0,
                u,
            ) by {
                let m = entries_map(type_list(d0, u));
                assert forall|k: Seq<char>| m.contains_key(k) implies #[trigger] item_covered(
                    m[k],
                    courses_gained(ev, i as int, u, k),
                ) == item_covered(
                    m[k],
                    courses_gained(ev, i as int, u, k).union(link_gains(e@.2, 0, u, k, cid)),
                ) by {
                    assert(courses_gained(ev, i as int, u, k).union(Set::empty()) =~= courses_gained(
                        ev,
                        i as int,
                        u,
                        k,
                    ));
                }
                assert(items_gained(m, ev, i as int, u) =~= items_partly(m, ev, i as int, 0, u));
            }
        }
        while j < e.links.len()
            invariant
                data.wf(),
                i < entries.len(),
                j <= e.links.len(),
                ev == entries@.map_values(|c: CourseCoverage| c@),
                ev[i as int] == e@,
                e == &entries[i as int],
                cid == course_key(e.name@),
                course.id@ == cid,
                course@.name == e.name@,
                course.sort == Some(e.sort),
                data.courses@ == courses_before,
                pair_set(favs@) == favorites_of(e@.2, j as int, d0),
                forall|u: ItemType| #[trigger] entries_map(type_list(*data, u)) == items_partly(
                    entries_map(type_list(d0, u)),
                    ev,
                    i as int,
                    j as int,
                    u,
                ),
            decreases e.links.len() - j,
        {
            let t = e.links[j].0;
            let l = e.links[j].2;
            assert(e@.2[j as int] == (t, e.links@[j as int].1@, l));
            let ghost before = *data;
            if l > 0 {
                let id = item_id_from_name(e.links[j].1.as_str(), t);
                let found = favor_item_of_type(data, t, &id, &course.id, l);
                proof {
                    assert(has_key(type_list(before, t), id@) == entries_map(type_list(before, t)).contains_key(id@));
                    assert(entries_map(type_list(before, t)).dom() == entries_map(type_list(d0, t)).dom());
                    assert(has_key(type_list(d0, t), id@) == entries_map(type_list(d0, t)).contains_key(id@));
                    assert forall|u: ItemType| #[trigger] entries_map(type_list(*data, u)) == items_partly(
                        entries_map(type_list(d0, u)),
                        ev,
                        i as int,
                        j + 1,
                        u,
                    ) by {
                        lemma_gains_step(
                            entries_map(type_list(d0, u)),
                            ev,
                            i as int,
                            j as int,
                            t,
                            u,
                            id@,
                            found,
                            l,
                            entries_map(type_list(before, u)),
                            entries_map(type_list(*data, u)),
                        );
                    }
                }
                if found {
                    let req = ItemRequirement::from((id, l));
                    if !holds_pair(&favs, &req) {
                        proof {
                            lemma_pair_set_push(favs@, req);
                        }
                        favs.push(req);
                    } else {
                        assert(pair_set(favs@).insert(req@) =~= pair_set(favs@));
                    }
                }
            } else {
                proof {
                    assert forall|u: ItemType| #[trigger] entries_map(type_list(*data, u)) == items_partly(
                        entries_map(type_list(d0, u)),
                        ev,
                        i as int,
                        j + 1,
                        u,
                    ) by {
                        lemma_gains_step(
                            entries_map(type_list(d0, u)),
                            ev,
                            i as int,
                            j as int,
                            t,
                            u,
                            item_id_of(e.links@[j as int].1@, t),
                            false,
                            l,
                            entries_map(type_list(before, u)),
                            entries_map(type_list(*data, u)),
                        );
                    }
                }
            }
            j = j + 1;
        }
        course.favorite_items = favs;
        let ghost cv = course@;
        let ghost cm = entries_map(data.courses@);
        let ghost dm = *data;
        upsert(&mut data.courses, course.id.clone(), course);
        proof {
            assert forall|u: ItemType| #[trigger] type_list(*data, u) == type_list(dm, u) by {}
            let pre = ev.subrange(0, i + 1);
            assert(pre.drop_last() =~= ev.subrange(0, i as int));
            assert(pre.last() == e@);
            assert(timeless_courses(cm.insert(cv.id, cv)) =~= timeless_courses(cm).insert(
                cv.id,
                timeless_course(cv),
            ));
            assert forall|u: ItemType| #[trigger] entries_map(type_list(*data, u)) == items_gained(
                entries_map(type_list(d0, u)),
                ev,
                i + 1,
                u,
            ) by {
                assert(type_list(*data, u) == type_list(dm, u));
                assert(e@.2.len() == e.links@.len());
                assert(items_partly(entries_map(type_list(d0, u)), ev, i as int, e@.2.len() as int, u)
                    =~= items_gained(entries_map(type_list(d0, u)), ev, i + 1, u));
            }
        }
        i = i + 1;
    }
    proof {
        assert(ev.subrange(0, ev.len() as int) =~= ev);
        assert(type_list(*data, ItemType::Driver) == data.drivers@);
        assert(type_list(*data, ItemType::Kart) == data.karts@);
        assert(type_list(*data, ItemType::Glider) == data.gliders@);
        assert(type_list(d0, ItemType::Driver) == d0.drivers@);
        assert(type_list(d0, ItemType::Kart) == d0.karts@);
        assert(type_list(d0, ItemType::Glider) == d0.gliders@);
    }
}

/// The database `new` is `old` with the courses and favorites of the
/// coverage pages added (see `apply_coverage`).
pub open spec fn coverage_added(old: MktData, new: MktData, pages: Seq<PageView>) -> bool {
    &&& new.wf()
    &&& timeless_courses(entries_map(new.courses@)) == courses_covered(
        timeless_courses(entries_map(old.courses@)),
        coverage_of(pages, pages.len() as int),
        old,
    )
    &&& entries_map(new.drivers@) == items_covered(
        entries_map(old.drivers@),
        coverage_of(pages, pages.len() as int),
        ItemType::Driver,
    )
    &&& entries_map(new.karts@) == items_covered(
        entries_map(old.karts@),
        coverage_of(pages, pages.len() as int),
        ItemType::Kart,
    )
    &&& entries_map(new.gliders@) == items_covered(
        entries_map(old.gliders@),
        coverage_of(pages, pages.len() as int),
        ItemType::Glider,
    )
}

/// Adds to the database the courses of the coverage pages, and which items
/// each course favors at which level (see `apply_coverage`).
pub fn apply_coverage_pages(data: &mut MktData, pages: &Vec<CoveragePage>)
    requires
        old(data).wf(),
        pages_fit(pages@.map_values(|p: CoveragePage| p@)),
    ensures
        coverage_added(*old(data), *final(data), pages@.map_values(|p: CoveragePage| p@)),
{
    let entries = coverage_entries(pages);
    apply_coverage(data, &entries);
}

/// A name cell's text with each line break tag made a space.
pub open spec fn br_spaced(s: Seq<char>) -> Seq<char> {
    match regex_replace_all("<br/?>"@, s, " "@) {
        Some(r) => r,
        None => s,
    }
}

/// The item that a (name, rarity) cell pair of an item list page gives:
/// the trimmed name with line breaks made spaces, and the rarity the
/// trimmed rarity text names; none when that text is missing or names no
/// rarity.
pub open spec fn page_item(cell: (Seq<char>, Option<Seq<char>>)) -> Option<(Seq<char>, Rarity)> {
    match cell.1 {
        None => None,
        Some(rt) => match rarity_of_word(lowercase(ws_trimmed(rt))) {
            None => None,
            Some(r) => Some((ws_trimmed(br_spaced(cell.0)), r)),
        },
    }
}

/// The items that the first `n` cell pairs of an item list page give.
pub open spec fn page_items(cells: Seq<(Seq<char>, Option<Seq<char>>)>, n: int) -> Seq<(Seq<char>, Rarity)>
    decreases n,
{
    if n <= 0 {
        Seq::empty()
    } else {
        match page_item(cells[n - 1]) {
            Some(x) => page_items(cells, n - 1).push(x),
            None => page_items(cells, n - 1),
        }
    }
}

/// The views of (name, rarity text) cell pairs.
pub open spec fn cell_pair_views(s: Seq<(String, Option<String>)>) -> Seq<(Seq<char>, Option<Seq<char>>)> {
    s.map_values(|c: (String, Option<String>)| (c.0@, text_view(c.1)))
}

/// The items that the (name, rarity text) cell pairs of an item list page
/// give.
pub fn listed_page_items(cells: &Vec<(String, Option<String>)>) -> (r: Vec<(String, Rarity)>)
    ensures
        pair_list_views(r@) == page_items(cell_pair_views(cells@), cells@.len() as int),
{
    let ghost cv = cell_pair_views(cells@);
    let mut out: Vec<(String, Rarity)> = Vec::new();
    let mut i: usize = 0;
    assert(pair_list_views(out@) =~= page_items(cv, 0));
    while i < cells.len()
        invariant
            i <= cells.len(),
            cv == cell_pair_views(cells@),
            pair_list_views(out@) == page_items(cv, i as int),
        decreases cells.len() - i,
    {
        assert(cv[i as int] == (cells@[i as int].0@, text_view(cells@[i as int].1)));
        match &cells[i].1 {
            Some(rt) => {
                let word = trim_spaces(rt.as_str());
                match Rarity::try_from(word.as_str()) {
                    Ok(r) => {
                        let spaced = match replace_all_matches("<br/?>", cells[i].0.as_str(), " ") {
                            Some(x) => x,
                            None => cells[i].0.clone(),
                        };
                        let name = trim_spaces(spaced.as_str());
                        let ghost before = pair_list_views(out@);
                        out.push((name, r));
                        assert(pair_list_views(out@) =~= before.push((name@, r)));
                    },
                    Err(_) => {},
                }
            },
            None => {},
        }
        i = i + 1;
    }
    out
}

/// The database `new` is `old` with the items of type `t` of an item list
/// page's cell pairs added (see `add_page_items`).
pub open spec fn page_items_added(old: MktData, new: MktData, t: ItemType, cells: Seq<(Seq<char>, Option<Seq<char>>)>) -> bool {
    &&& new.wf()
    &&& new.courses@ == old.courses@
    &&& forall|u: ItemType| u != t ==> #[trigger] type_list(new, u) == type_list(old, u)
    &&& timeless_items(entries_map(type_list(new, t))) == items_added(
        timeless_items(entries_map(type_list(old, t))),
        page_items(cells, cells.len() as int),
        t,
        0,
    )
}

/// Adds to the database the items of type `t` that an item list page of the
/// wiki lists, given as (name cell, rarity text) pairs: numbered from 1 in
/// order, pairs without a known rarity left out.
pub fn add_page_items(data: &mut MktData, t: ItemType, cells: &Vec<(String, Option<String>)>)
    requires
        old(data).wf(),
        page_items(cell_pair_views(cells@), cells@.len() as int).len() <= u32::MAX,
    ensures
        page_items_added(*old(data), *final(data), t, cell_pair_views(cells@)),
{
    let items = listed_page_items(cells);
    match t {
        ItemType::Driver => add_items(&mut data.drivers, &items, t, 0),
        ItemType::Kart => add_items(&mut data.karts, &items, t, 0),
        ItemType::Glider => add_items(&mut data.gliders, &items, t, 0),
    }
}

} // verus!
