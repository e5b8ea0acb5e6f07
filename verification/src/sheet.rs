//! The coverage sheet (a table with one row per item and course): reading
//! its rows, finding the course a row names, and recording the link on
//! both sides.
use vstd::prelude::*;
use crate::data::MktData;
use crate::deduce::type_list;
use crate::ids::{CourseId, ItemId, ItemType};
use crate::keyed::{entries_map, keys_unique, lemma_entries_map_at, upsert};
use crate::model::{
    holds_pair, Course, CourseAvailability, CourseView, Item, ItemRequirement, ItemView,
};
use crate::text::{has_prefix, same_text, starts_with_text, views};
use crate::update::lemma_pair_set_push;

verus! {

/// The upper-case form of a text, as std's `str::to_uppercase` computes
/// it.
pub uninterp spec fn uppercase(s: Seq<char>) -> Seq<char>;

/// Calls std's `str::to_uppercase`. The contract only names the result: it
/// is the same for the same text, as the Unicode case mapping is fixed.
#[verifier::external_body]
fn to_uppercase(s: &str) -> (r: String)
    ensures
        r@ == uppercase(s@),
{
    s.to_uppercase()
}

/// The ASCII transliteration of a text, as `unidecode::unidecode` computes
/// it.
pub uninterp spec fn ascii_form(s: Seq<char>) -> Seq<char>;

/// Calls `unidecode::unidecode`. The contract names the result, and states
/// what the crate's documentation guarantees: the result is ASCII, and a
/// text that is ASCII already is its own transliteration.
#[verifier::external_body]
fn transliterate(s: &str) -> (r: String)
    ensures
        r@ == ascii_form(s@),
        forall|i: int| 0 <= i < r@.len() ==> (#[trigger] r@[i]) as int <= 127,
        (forall|i: int| 0 <= i < s@.len() ==> (#[trigger] s@[i]) as int <= 127) ==> r@ == s@,
{
    unidecode::unidecode(s)
}

/// `s` with every `R/T` written `RT`, left to right.
pub open spec fn rt_joined(s: Seq<char>) -> Seq<char>
    decreases s.len(),
{
    if s.len() == 0 {
        s
    } else if s.len() >= 3 && s[0] == 'R' && s[1] == '/' && s[2] == 'T' {
        seq!['R', 'T'] + rt_joined(s.subrange(3, s.len() as int))
    } else {
        seq![s[0]] + rt_joined(s.drop_first())
    }
}

/// How the sheet writes a course name: transliterated to ASCII, upper
/// case, `R/T` written `RT`.
pub open spec fn sheet_form(name: Seq<char>) -> Seq<char> {
    rt_joined(uppercase(ascii_form(name)))
}

fn join_rt(s: &str) -> (r: String)
    ensures
        r@ == rt_joined(s@),
{
    let n = s.unicode_len();
    let mut out = String::new();
    let mut i: usize = 0;
    assert(out@ =~= Seq::<char>::empty());
    assert(s@.subrange(0, n as int) =~= s@);
    while i < n
        invariant
            n == s@.len(),
            i <= n,
            out@ + rt_joined(s@.subrange(i as int, n as int)) == rt_joined(s@),
        decreases n - i,
    {
        let ghost t = s@.subrange(i as int, n as int);
        let ghost before = out@;
        if n - i >= 3 && s.get_char(i) == 'R' && s.get_char(i + 1) == '/' && s.get_char(i + 2) == 'T' {
            out.append("RT");
            proof {
                reveal_strlit("RT");
                assert(t.subrange(3, t.len() as int) =~= s@.subrange(i + 3, n as int));
                assert(before + rt_joined(t) =~= out@ + rt_joined(s@.subrange(i + 3, n as int)));
            }
            i = i + 3;
        } else {
            let piece = s.substring_char(i, i + 1);
            out.append(piece);
            proof {
                assert(t.drop_first() =~= s@.subrange(i + 1, n as int));
                assert(piece@ =~= seq![t[0]]);
                assert(before + rt_joined(t) =~= out@ + rt_joined(s@.subrange(i + 1, n as int)));
            }
            i = i + 1;
        }
    }
    assert(rt_joined(s@.subrange(n as int, n as int)) =~= Seq::<char>::empty());
    assert(out@ + Seq::<char>::empty() =~= out@);
    out
}

/// How the sheet writes a course name.
pub fn sheet_name(name: &str) -> (r: String)
    ensures
        r@ == sheet_form(name@),
{
    let a = transliterate(name);
    let u = to_uppercase(a.as_str());
    join_rt(u.as_str())
}

/// The course name and level that a sheet row gives: the first filled of
/// its four course columns (for levels 1, 3, 6 and 8), with the item name
/// of its first column; none when the item name or every course column is
/// empty. Names are in upper case.
pub open spec fn sheet_entry_of(record: Seq<Seq<char>>) -> Option<(Seq<char>, Seq<char>, u8)> {
    let (course, lvl) = if record[1].len() > 0 {
        (record[1], 1u8)
    } else if record[2].len() > 0 {
        (record[2], 3u8)
    } else if record[3].len() > 0 {
        (record[3], 6u8)
    } else if record[4].len() > 0 {
        (record[4], 8u8)
    } else {
        (Seq::<char>::empty(), 0u8)
    };
    if record[0].len() == 0 || course.len() == 0 {
        None
    } else {
        Some((uppercase(record[0]), uppercase(course), lvl))
    }
}

/// The item name, course name (both in upper case) and level of a row of
/// the coverage sheet.
pub fn sheet_entry(record: &Vec<String>) -> (r: Option<(String, String, u8)>)
    requires
        record@.len() >= 5,
    ensures
        match sheet_entry_of(views(record@)) {
            Some((i, c, l)) => r matches Some(x) && x.0@ == i && x.1@ == c && x.2 == l,
            None => r is None,
        },
{
    let ghost v = views(record@);
    assert(v[0] == record@[0]@ && v[1] == record@[1]@ && v[2] == record@[2]@);
    assert(v[3] == record@[3]@ && v[4] == record@[4]@);
    let (course, lvl): (&String, u8) = if record[1].as_str().unicode_len() > 0 {
        (&record[1], 1)
    } else if record[2].as_str().unicode_len() > 0 {
        (&record[2], 3)
    } else if record[3].as_str().unicode_len() > 0 {
        (&record[3], 6)
    } else if record[4].as_str().unicode_len() > 0 {
        (&record[4], 8)
    } else {
        (&record[0], 0)
    };
    let no_course = lvl == 0;
    if record[0].as_str().unicode_len() == 0 || no_course {
        return None;
    }
    Some((to_uppercase(record[0].as_str()), to_uppercase(course.as_str()), lvl))
}

/// Whether `s` ends with `p`.
pub open spec fn has_suffix(s: Seq<char>, p: Seq<char>) -> bool {
    p.len() <= s.len() && s.subrange(s.len() - p.len(), s.len() as int) == p
}

fn ends_with_text(s: &str, p: &str) -> (r: bool)
    ensures
        r == has_suffix(s@, p@),
{
    let n = s.unicode_len();
    let m = p.unicode_len();
    if m > n {
        return false;
    }
    let tail = s.substring_char(n - m, n);
    same_text(tail, p)
}

/// The position of the first course whose sheet form is `name`; failing
/// that, of the first course that is no remix and whose sheet form ends
/// with `name`.
pub open spec fn sheet_course_at(courses: Seq<(String, Course)>, name: Seq<char>) -> Option<int> {
    if exists|i: int| 0 <= i < courses.len() && sheet_form(#[trigger] courses[i].1.name@) == name {
        Some(
            choose|i: int|
                0 <= i < courses.len() && sheet_form(#[trigger] courses[i].1.name@) == name && forall|
                    j: int,
                | 0 <= j < i ==> sheet_form(#[trigger] courses[j].1.name@) != name,
        )
    } else if exists|i: int|
        0 <= i < courses.len() && !has_prefix(courses[i].1.name@, "RMX"@) && has_suffix(
            sheet_form(#[trigger] courses[i].1.name@),
            name,
        ) {
        Some(
            choose|i: int|
                0 <= i < courses.len() && !has_prefix(courses[i].1.name@, "RMX"@) && has_suffix(
                    sheet_form(#[trigger] courses[i].1.name@),
                    name,
                ) && forall|j: int|
                    0 <= j < i ==> has_prefix(courses[j].1.name@, "RMX"@) || !has_suffix(
                        sheet_form(#[trigger] courses[j].1.name@),
                        name,
                    ),
        )
    } else {
        None
    }
}

/// The position of the course that a sheet row names.
pub fn find_sheet_course(courses: &Vec<(CourseId, Course)>, name: &str) -> (r: Option<usize>)
    ensures
        match sheet_course_at(courses@, name@) {
            Some(i) => r matches Some(x) && x as int == i && 0 <= i < courses@.len(),
            None => r is None,
        },
{
    let ghost cs = courses@;
    let mut i: usize = 0;
    while i < courses.len()
        invariant
            i <= courses.len(),
            cs == courses@,
            forall|j: int| 0 <= j < i ==> sheet_form(#[trigger] cs[j].1.name@) != name@,
        decreases courses.len() - i,
    {
        let form = sheet_name(courses[i].1.name.as_str());
        if same_text(form.as_str(), name) {
            proof {
                let w = choose|w: int|
                    0 <= w < cs.len() && sheet_form(#[trigger] cs[w].1.name@) == name@ && forall|j: int|
                        0 <= j < w ==> sheet_form(#[trigger] cs[j].1.name@) != name@;
                assert(sheet_form(cs[i as int].1.name@) == name@);
                if w < i {
                } else if w > i {
                    assert(sheet_form(cs[i as int].1.name@) != name@);
                }
            }
            return Some(i);
        }
        i = i + 1;
    }
    let mut k: usize = 0;
    while k < courses.len()
        invariant
            k <= courses.len(),
            cs == courses@,
            forall|j: int| 0 <= j < cs.len() ==> sheet_form(#[trigger] cs[j].1.name@) != name@,
            forall|j: int|
                0 <= j < k ==> has_prefix(cs[j].1.name@, "RMX"@) || !has_suffix(
                    sheet_form(#[trigger] cs[j].1.name@),
                    name@,
                ),
        decreases courses.len() - k,
    {
        let form = sheet_name(courses[k].1.name.as_str());
        if !starts_with_text(courses[k].1.name.as_str(), "RMX") && ends_with_text(form.as_str(), name) {
            proof {
                let w = choose|w: int|
                    0 <= w < cs.len() && !has_prefix(cs[w].1.name@, "RMX"@) && has_suffix(
                        sheet_form(#[trigger] cs[w].1.name@),
                        name@,
                    ) && forall|j: int|
                        0 <= j < w ==> has_prefix(cs[j].1.name@, "RMX"@) || !has_suffix(
                            sheet_form(#[trigger] cs[j].1.name@),
                            name@,
                        );
                assert(has_suffix(sheet_form(cs[k as int].1.name@), name@));
                if w > k {
                    assert(has_prefix(cs[k as int].1.name@, "RMX"@) || !has_suffix(
                        sheet_form(cs[k as int].1.name@),
                        name@,
                    ));
                }
            }
            return Some(k);
        }
        k = k + 1;
    }
    None
}

/// A course with the pair `p` added to its favored items.
pub open spec fn course_with(v: CourseView, p: (Seq<char>, u8)) -> CourseView {
    CourseView { favorite_items: v.favorite_items.insert(p), ..v }
}

/// An item with the pair `p` added to its favored courses.
pub open spec fn item_with(v: ItemView, p: (Seq<char>, u8)) -> ItemView {
    ItemView { favorite_courses: v.favorite_courses.insert(p), ..v }
}

fn add_course_pair(list: &mut Vec<(CourseId, Course)>, i: usize, item_id: &String, lvl: u8)
    requires
        keys_unique(old(list)@),
        i < old(list)@.len(),
    ensures
        keys_unique(final(list)@),
        entries_map(final(list)@) == entries_map(old(list)@).insert(
            old(list)@[i as int].0@,
            course_with(old(list)@[i as int].1@, (item_id@, lvl)),
        ),
        final(list)@.len() == old(list)@.len(),
        forall|j: int|
            0 <= j < old(list)@.len() ==> (#[trigger] final(list)@[j]).0@ == old(list)@[j].0@ && (j != i
                ==> final(list)@[j] == old(list)@[j]),
        final(list)@[i as int].1@ == course_with(old(list)@[i as int].1@, (item_id@, lvl)),
{
    let mut c = list[i].1.duplicate();
    let r = ItemRequirement::from((item_id.clone(), lvl));
    if !holds_pair(&c.favorite_items, &r) {
        proof {
            lemma_pair_set_push(c.favorite_items@, r);
        }
        c.favorite_items.push(r);
    } else {
        assert(c@.favorite_items.insert(r@) =~= c@.favorite_items);
    }
    let key = list[i].0.clone();
    let ghost before = list@;
    let ghost cv = c@;
    assert(crate::keyed::has_key(before, key@));
    upsert(list, key, c);
    proof {
        assert forall|j: int| 0 <= j < before.len() && j != i implies list@[j] == before[j] by {
            assert(before[j].0@ != before[i as int].0@);
        }
        assert(list@[i as int].1@ == cv);
    }
}

fn add_item_pair(list: &mut Vec<(ItemId, Item)>, i: usize, course_id: &String, lvl: u8)
    requires
        keys_unique(old(list)@),
        i < old(list)@.len(),
    ensures
        keys_unique(final(list)@),
        entries_map(final(list)@) == entries_map(old(list)@).insert(
            old(list)@[i as int].0@,
            item_with(old(list)@[i as int].1@, (course_id@, lvl)),
        ),
        final(list)@.len() == old(list)@.len(),
        forall|j: int|
            0 <= j < old(list)@.len() ==> (#[trigger] final(list)@[j]).0@ == old(list)@[j].0@ && (j != i
                ==> final(list)@[j] == old(list)@[j]),
        final(list)@[i as int].1@ == item_with(old(list)@[i as int].1@, (course_id@, lvl)),
{
    let mut it = list[i].1.duplicate();
    let a = CourseAvailability::from((course_id.clone(), lvl));
    if !holds_pair(&it.favorite_courses, &a) {
        proof {
            lemma_pair_set_push(it.favorite_courses@, a);
        }
        it.favorite_courses.push(a);
    } else {
        assert(it@.favorite_courses.insert(a@) =~= it@.favorite_courses);
    }
    let key = list[i].0.clone();
    let ghost before = list@;
    let ghost iv = it@;
    assert(crate::keyed::has_key(before, key@));
    upsert(list, key, it);
    proof {
        assert forall|j: int| 0 <= j < before.len() && j != i implies list@[j] == before[j] by {
            assert(before[j].0@ != before[i as int].0@);
        }
        assert(list@[i as int].1@ == iv);
    }
}

/// Records a row of the coverage sheet: course `ci` favors item `ii` of
/// type `t` from level `lvl` on, and the item is favored on the course.
pub fn link_sheet_row(data: &mut MktData, ci: usize, t: ItemType, ii: usize, lvl: u8)
    requires
        old(data).wf(),
        ci < old(data).courses@.len(),
        ii < type_list(*old(data), t).len(),
    ensures
        final(data).wf(),
        entries_map(final(data).courses@) == entries_map(old(data).courses@).insert(
            old(data).courses@[ci as int].0@,
            course_with(
                old(data).courses@[ci as int].1@,
                (type_list(*old(data), t)[ii as int].1.id@, lvl),
            ),
        ),
        entries_map(type_list(*final(data), t)) == entries_map(type_list(*old(data), t)).insert(
            type_list(*old(data), t)[ii as int].0@,
            item_with(
                type_list(*old(data), t)[ii as int].1@,
                (old(data).courses@[ci as int].1.id@, lvl),
            ),
        ),
        forall|u: ItemType| u != t ==> #[trigger] type_list(*final(data), u) == type_list(*old(data), u),
        final(data).courses@.len() == old(data).courses@.len(),
        forall|j: int|
            0 <= j < old(data).courses@.len() ==> (#[trigger] final(data).courses@[j]).0@ == old(data).courses@[j].0@
                && (j != ci ==> final(data).courses@[j] == old(data).courses@[j]),
        final(data).courses@[ci as int].1@ == course_with(
            old(data).courses@[ci as int].1@,
            (type_list(*old(data), t)[ii as int].1.id@, lvl),
        ),
        type_list(*final(data), t).len() == type_list(*old(data), t).len(),
        forall|j: int|
            0 <= j < type_list(*old(data), t).len() ==> (#[trigger] type_list(*final(data), t)[j]).0@ == type_list(
                *old(data),
                t,
            )[j].0@ && (j != ii ==> type_list(*final(data), t)[j] == type_list(*old(data), t)[j]),
        type_list(*final(data), t)[ii as int].1@ == item_with(
            type_list(*old(data), t)[ii as int].1@,
            (old(data).courses@[ci as int].1.id@, lvl),
        ),
{
    let course_id = data.courses[ci].1.id.clone();
    let item_id = match t {
        ItemType::Driver => data.drivers[ii].1.id.clone(),
        ItemType::Kart => data.karts[ii].1.id.clone(),
        ItemType::Glider => data.gliders[ii].1.id.clone(),
    };
    add_course_pair(&mut data.courses, ci, &item_id, lvl);
    match t {
        ItemType::Driver => add_item_pair(&mut data.drivers, ii, &course_id, lvl),
        ItemType::Kart => add_item_pair(&mut data.karts, ii, &course_id, lvl),
        ItemType::Glider => add_item_pair(&mut data.gliders, ii, &course_id, lvl),
    }
}

/// Whether entry `b` is entry `a` with no favored item.
pub open spec fn course_cleared(a: (String, Course), b: (String, Course)) -> bool {
    a.0 == b.0 && b.1@ == CourseView { favorite_items: Set::empty(), ..a.1@ }
}

/// Whether entry `b` is entry `a` with no favored course.
pub open spec fn item_cleared(a: (String, Item), b: (String, Item)) -> bool {
    a.0 == b.0 && b.1@ == ItemView { favorite_courses: Set::empty(), ..a.1@ }
}

fn clear_course_favorites(list: &mut Vec<(CourseId, Course)>)
    ensures
        final(list)@.len() == old(list)@.len(),
        forall|i: int| 0 <= i < old(list)@.len() ==> course_cleared(old(list)@[i], #[trigger] final(list)@[i]),
{
    let ghost before = list@;
    let mut i: usize = 0;
    while i < list.len()
        invariant
            list@.len() == before.len(),
            i <= list@.len(),
            forall|j: int| 0 <= j < i ==> course_cleared(before[j], #[trigger] list@[j]),
            forall|j: int| i <= j < list@.len() ==> #[trigger] list@[j] == before[j],
        decreases list@.len() - i,
    {
        let ghost prev = list@;
        let (k, mut c) = list.remove(i);
        c.favorite_items = Vec::new();
        proof {
            crate::model::lemma_pair_set_empty(c.favorite_items@);
        }
        list.insert(i, (k, c));
        proof {
            assert(list@ =~= prev.update(i as int, list@[i as int]));
            assert(prev[i as int] == before[i as int]);
            assert forall|j: int| 0 <= j < i + 1 implies course_cleared(before[j], #[trigger] list@[j]) by {
                if j < i {
                    assert(list@[j] == prev[j]);
                }
            }
        }
        i = i + 1;
    }
}

fn clear_item_favorites(list: &mut Vec<(ItemId, Item)>)
    ensures
        final(list)@.len() == old(list)@.len(),
        forall|i: int| 0 <= i < old(list)@.len() ==> item_cleared(old(list)@[i], #[trigger] final(list)@[i]),
{
    let ghost before = list@;
    let mut i: usize = 0;
    while i < list.len()
        invariant
            list@.len() == before.len(),
            i <= list@.len(),
            forall|j: int| 0 <= j < i ==> item_cleared(before[j], #[trigger] list@[j]),
            forall|j: int| i <= j < list@.len() ==> #[trigger] list@[j] == before[j],
        decreases list@.len() - i,
    {
        let ghost prev = list@;
        let (k, mut it) = list.remove(i);
        let ghost old_it = it@;
        it.favorite_courses = Vec::new();
        proof {
            crate::model::lemma_pair_set_empty(it.favorite_courses@);
            assert(it@ == ItemView { favorite_courses: Set::empty(), ..old_it });
        }
        list.insert(i, (k, it));
        proof {
            assert(list@ =~= prev.update(i as int, list@[i as int]));
            assert(prev[i as int] == before[i as int]);
            assert forall|j: int| 0 <= j < i + 1 implies item_cleared(before[j], #[trigger] list@[j]) by {
                if j < i {
                    assert(list@[j] == prev[j]);
                }
            }
        }
        i = i + 1;
    }
}

/// Forgets every favored item of every course and every favored course of
/// every item, before the coverage sheet is read.
pub fn clear_favorites(data: &mut MktData)
    ensures
        final(data).courses@.len() == old(data).courses@.len(),
        forall|i: int|
            0 <= i < old(data).courses@.len() ==> course_cleared(
                old(data).courses@[i],
                #[trigger] final(data).courses@[i],
            ),
        forall|u: ItemType| #[trigger]
            type_list(*final(data), u).len() == type_list(*old(data), u).len(),
        forall|u: ItemType, i: int|
            0 <= i < type_list(*old(data), u).len() ==> item_cleared(
                type_list(*old(data), u)[i],
                #[trigger] type_list(*final(data), u)[i],
            ),
{
    clear_course_favorites(&mut data.courses);
    clear_item_favorites(&mut data.drivers);
    clear_item_favorites(&mut data.karts);
    clear_item_favorites(&mut data.gliders);
}


/// The first item of a list from index `j` on whose upper-case name is
/// `name`.
pub open spec fn sheet_item_from(s: Seq<(ItemId, Item)>, name: Seq<char>, j: int) -> Option<int>
    decreases s.len() - j,
{
    if j < 0 || j >= s.len() {
        None
    } else if uppercase(s[j].1.name@) == name {
        Some(j)
    } else {
        sheet_item_from(s, name, j + 1)
    }
}

fn find_sheet_item(list: &Vec<(ItemId, Item)>, name: &str) -> (r: Option<usize>)
    ensures
        match sheet_item_from(list@, name@, 0) {
            Some(i) => r matches Some(x) && x as int == i && 0 <= i < list@.len(),
            None => r is None,
        },
{
    let mut j: usize = 0;
    while j < list.len()
        invariant
            j <= list@.len(),
            sheet_item_from(list@, name@, j as int) == sheet_item_from(list@, name@, 0),
        decreases list@.len() - j,
    {
        let up = to_uppercase(list[j].1.name.as_str());
        if same_text(up.as_str(), name) {
            return Some(j);
        }
        j = j + 1;
    }
    None
}

/// The courses of a database by key.
pub open spec fn course_map(d: MktData) -> Map<Seq<char>, CourseView> {
    entries_map(d.courses@)
}

/// The items of type `t` of a database by key.
pub open spec fn type_map(d: MktData, t: ItemType) -> Map<Seq<char>, ItemView> {
    entries_map(type_list(d, t))
}

/// Whether every course and item of the database has its key as id, and no
/// key names items of two types.
pub open spec fn ids_are_keys(d: MktData) -> bool {
    &&& forall|k: Seq<char>| #[trigger] course_map(d).contains_key(k) ==> course_map(d)[k].id == k
    &&& forall|t: ItemType, k: Seq<char>| #[trigger] type_map(d, t).contains_key(k) ==> type_map(d, t)[k].id == k
    &&& forall|t: ItemType, u: ItemType, k: Seq<char>|
        t != u && #[trigger] type_map(d, t).contains_key(k) ==> !#[trigger] type_map(d, u).contains_key(k)
}

/// A level that the coverage sheet gives.
pub open spec fn sheet_level(l: u8) -> bool {
    l == 1 || l == 3 || l == 6 || l == 8
}

/// Whether each favorite link of the database is recorded on both sides:
/// a course favors an item at a level exactly when the item is favored on
/// the course at that level; and every link has a sheet level.
pub open spec fn links_agree(d: MktData) -> bool {
    &&& forall|c: Seq<char>, t: ItemType, i: Seq<char>, l: u8|
        #![trigger course_map(d)[c].favorite_items.contains((i, l)), type_map(d, t).contains_key(i)]
        #![trigger type_map(d, t)[i].favorite_courses.contains((c, l)), course_map(d).contains_key(c)]
        course_map(d).contains_key(c) && type_map(d, t).contains_key(i) ==> (course_map(
            d,
        )[c].favorite_items.contains((i, l)) <==> type_map(d, t)[i].favorite_courses.contains((c, l)))
    &&& forall|c: Seq<char>, p: (Seq<char>, u8)|
        course_map(d).contains_key(c) && #[trigger] course_map(d)[c].favorite_items.contains(p) ==> sheet_level(p.1)
    &&& forall|t: ItemType, i: Seq<char>, p: (Seq<char>, u8)|
        type_map(d, t).contains_key(i) && #[trigger] type_map(d, t)[i].favorite_courses.contains(p) ==> sheet_level(
            p.1,
        )
}

proof fn lemma_sheet_entry_level(v: Seq<Seq<char>>)
    requires
        v.len() >= 5,
        sheet_entry_of(v) matches Some(e),
    ensures
        match sheet_entry_of(v) {
            Some((_, _, l)) => sheet_level(l),
            None => true,
        },
{
}

/// After the favorites are cleared, the keys, ids and everything but the
/// favorites stay, and every link agrees.
proof fn lemma_cleared(a: MktData, b: MktData)
    requires
        a.wf(),
        b.courses@.len() == a.courses@.len(),
        forall|i: int| 0 <= i < a.courses@.len() ==> course_cleared(a.courses@[i], #[trigger] b.courses@[i]),
        forall|u: ItemType| #[trigger] type_list(b, u).len() == type_list(a, u).len(),
        forall|u: ItemType, i: int|
            0 <= i < type_list(a, u).len() ==> item_cleared(type_list(a, u)[i], #[trigger] type_list(b, u)[i]),
    ensures
        b.wf(),
        course_map(b).dom() == course_map(a).dom(),
        forall|t: ItemType| #[trigger] type_map(b, t).dom() == type_map(a, t).dom(),
        ids_are_keys(a) ==> ids_are_keys(b),
        links_agree(b),
{
    assert forall|i: int, j: int|
        0 <= i < b.courses@.len() && 0 <= j < b.courses@.len() && i != j implies #[trigger] b.courses@[i].0@
        != #[trigger] b.courses@[j].0@ by {
        assert(course_cleared(a.courses@[i], b.courses@[i]));
        assert(course_cleared(a.courses@[j], b.courses@[j]));
    }
    assert forall|t: ItemType| keys_unique(#[trigger] type_list(b, t)) by {
        assert forall|i: int, j: int|
            0 <= i < type_list(b, t).len() && 0 <= j < type_list(b, t).len() && i != j implies #[trigger] type_list(
            b,
            t,
        )[i].0@ != #[trigger] type_list(b, t)[j].0@ by {
            assert(item_cleared(type_list(a, t)[i], type_list(b, t)[i]));
            assert(item_cleared(type_list(a, t)[j], type_list(b, t)[j]));
            assert(keys_unique(type_list(a, t)));
        }
    }
    assert(keys_unique(type_list(b, ItemType::Driver)));
    assert(keys_unique(type_list(b, ItemType::Kart)));
    assert(keys_unique(type_list(b, ItemType::Glider)));
    assert forall|k: Seq<char>| #[trigger] course_map(b).contains_key(k) == course_map(a).contains_key(k) by {
        if course_map(b).contains_key(k) {
            let i = crate::keyed::key_index(b.courses@, k);
            assert(course_cleared(a.courses@[i], b.courses@[i]));
            assert(a.courses@[i].0@ == k);
        }
        if course_map(a).contains_key(k) {
            let i = crate::keyed::key_index(a.courses@, k);
            assert(course_cleared(a.courses@[i], b.courses@[i]));
            assert(b.courses@[i].0@ == k);
        }
    }
    assert(course_map(b).dom() =~= course_map(a).dom());
    assert forall|k: Seq<char>| #[trigger] course_map(b).contains_key(k) implies course_map(b)[k] == CourseView {
        favorite_items: Set::empty(),
        ..course_map(a)[k]
    } by {
        let i = crate::keyed::key_index(b.courses@, k);
        assert(course_cleared(a.courses@[i], b.courses@[i]));
        lemma_entries_map_at(a.courses@, i);
        lemma_entries_map_at(b.courses@, i);
    }
    assert forall|t: ItemType, k: Seq<char>| #[trigger] type_map(b, t).contains_key(k) == type_map(a, t).contains_key(k) by {
        if type_map(b, t).contains_key(k) {
            let i = crate::keyed::key_index(type_list(b, t), k);
            assert(item_cleared(type_list(a, t)[i], type_list(b, t)[i]));
            assert(type_list(a, t)[i].0@ == k);
        }
        if type_map(a, t).contains_key(k) {
            let i = crate::keyed::key_index(type_list(a, t), k);
            assert(item_cleared(type_list(a, t)[i], type_list(b, t)[i]));
            assert(type_list(b, t)[i].0@ == k);
        }
    }
    assert forall|t: ItemType| #[trigger] type_map(b, t).dom() == type_map(a, t).dom() by {
        assert(type_map(b, t).dom() =~= type_map(a, t).dom());
    }
    assert forall|t: ItemType, k: Seq<char>| #[trigger] type_map(b, t).contains_key(k) implies type_map(b, t)[k]
        == ItemView { favorite_courses: Set::empty(), ..type_map(a, t)[k] } by {
        let i = crate::keyed::key_index(type_list(b, t), k);
        assert(item_cleared(type_list(a, t)[i], type_list(b, t)[i]));
        assert(keys_unique(type_list(a, t)));
        lemma_entries_map_at(type_list(a, t), i);
        lemma_entries_map_at(type_list(b, t), i);
    }
}

/// Recording one sheet row keeps the keys of every list.
proof fn lemma_linked_doms(a: MktData, b: MktData, ci: int, t0: ItemType, ii: int, lvl: u8)
    requires
        a.wf(),
        0 <= ci < a.courses@.len(),
        0 <= ii < type_list(a, t0).len(),
        entries_map(b.courses@) == entries_map(a.courses@).insert(
            a.courses@[ci].0@,
            course_with(a.courses@[ci].1@, (type_list(a, t0)[ii].1.id@, lvl)),
        ),
        entries_map(type_list(b, t0)) == entries_map(type_list(a, t0)).insert(
            type_list(a, t0)[ii].0@,
            item_with(type_list(a, t0)[ii].1@, (a.courses@[ci].1.id@, lvl)),
        ),
        forall|u: ItemType| u != t0 ==> #[trigger] type_list(b, u) == type_list(a, u),
    ensures
        course_map(b).dom() == course_map(a).dom(),
        forall|t: ItemType| #[trigger] type_map(b, t).dom() == type_map(a, t).dom(),
{
    assert(keys_unique(type_list(a, t0)));
    lemma_entries_map_at(a.courses@, ci);
    lemma_entries_map_at(type_list(a, t0), ii);
    assert(course_map(b).dom() =~= course_map(a).dom());
    assert forall|t: ItemType| #[trigger] type_map(b, t).dom() == type_map(a, t).dom() by {
        if t == t0 {
            assert(type_map(b, t).dom() =~= type_map(a, t).dom());
        } else {
            assert(type_list(b, t) == type_list(a, t));
        }
    }
}

/// Recording one sheet row keeps the ids and keys, and keeps the links in
/// agreement.
proof fn lemma_linked(a: MktData, b: MktData, ci: int, t0: ItemType, ii: int, lvl: u8)
    requires
        a.wf(),
        0 <= ci < a.courses@.len(),
        0 <= ii < type_list(a, t0).len(),
        sheet_level(lvl),
        entries_map(b.courses@) == entries_map(a.courses@).insert(
            a.courses@[ci].0@,
            course_with(a.courses@[ci].1@, (type_list(a, t0)[ii].1.id@, lvl)),
        ),
        entries_map(type_list(b, t0)) == entries_map(type_list(a, t0)).insert(
            type_list(a, t0)[ii].0@,
            item_with(type_list(a, t0)[ii].1@, (a.courses@[ci].1.id@, lvl)),
        ),
        forall|u: ItemType| u != t0 ==> #[trigger] type_list(b, u) == type_list(a, u),
        ids_are_keys(a),
        links_agree(a),
    ensures
        course_map(b).dom() == course_map(a).dom(),
        forall|t: ItemType| #[trigger] type_map(b, t).dom() == type_map(a, t).dom(),
        ids_are_keys(b),
        links_agree(b),
{
    let ck = a.courses@[ci].0@;
    let ik = type_list(a, t0)[ii].0@;
    assert(keys_unique(type_list(a, t0)));
    lemma_entries_map_at(a.courses@, ci);
    lemma_entries_map_at(type_list(a, t0), ii);
    assert(course_map(a)[ck] == a.courses@[ci].1@);
    assert(type_map(a, t0)[ik] == type_list(a, t0)[ii].1@);
    assert(a.courses@[ci].1.id@ == ck);
    assert(type_list(a, t0)[ii].1.id@ == ik);
    lemma_linked_doms(a, b, ci, t0, ii, lvl);
    assert forall|t: ItemType, k: Seq<char>| #[trigger] type_map(b, t).contains_key(k) implies type_map(b, t)[k].id == k by {
        if t != t0 {
            assert(type_list(b, t) == type_list(a, t));
        }
    }
    assert forall|t: ItemType, u: ItemType, k: Seq<char>|
        t != u && #[trigger] type_map(b, t).contains_key(k) implies !#[trigger] type_map(b, u).contains_key(k) by {
        assert(type_map(b, t).dom() == type_map(a, t).dom());
        assert(type_map(b, u).dom() == type_map(a, u).dom());
    }
    assert forall|c: Seq<char>, t: ItemType, i: Seq<char>, l: u8|
        course_map(b).contains_key(c) && type_map(b, t).contains_key(i) implies (#[trigger] course_map(
        b,
    )[c].favorite_items.contains((i, l)) <==> #[trigger] type_map(b, t)[i].favorite_courses.contains((c, l))) by {
        assert(type_map(b, t).dom() == type_map(a, t).dom());
        if t != t0 {
            assert(type_list(b, t) == type_list(a, t));
            assert(i != ik) by {
                if i == ik {
                    assert(type_map(a, t0).contains_key(ik));
                }
            }
        }
        assert(course_map(a)[c].favorite_items.contains((i, l)) <==> type_map(a, t)[i].favorite_courses.contains((c, l)));
    }
    assert forall|t: ItemType, i: Seq<char>, p: (Seq<char>, u8)|
        type_map(b, t).contains_key(i) && #[trigger] type_map(b, t)[i].favorite_courses.contains(p) implies sheet_level(
        p.1,
    ) by {
        assert(type_map(b, t).dom() == type_map(a, t).dom());
        if t != t0 {
            assert(type_list(b, t) == type_list(a, t));
        }
    }
}

/// The item a sheet row names: the first item whose upper-case name is
/// `n`, among the drivers, then the karts, then the gliders.
pub open spec fn sheet_item_of(d: MktData, n: Seq<char>) -> Option<(ItemType, int)> {
    match sheet_item_from(d.drivers@, n, 0) {
        Some(i) => Some((ItemType::Driver, i)),
        None => match sheet_item_from(d.karts@, n, 0) {
            Some(i) => Some((ItemType::Kart, i)),
            None => match sheet_item_from(d.gliders@, n, 0) {
                Some(i) => Some((ItemType::Glider, i)),
                None => None,
            },
        },
    }
}

/// The link a sheet row gives in a database: the position of its course,
/// the type and position of its item, and its level; none when the row,
/// its course or its item is not found.
pub open spec fn sheet_row_link(d: MktData, rec: Seq<Seq<char>>) -> Option<(int, ItemType, int, u8)> {
    match sheet_entry_of(rec) {
        None => None,
        Some((n, cn, l)) => match sheet_course_at(d.courses@, cn) {
            None => None,
            Some(ci) => match sheet_item_of(d, n) {
                None => None,
                Some((t, ii)) => Some((ci, t, ii, l)),
            },
        },
    }
}

/// The fields of each record, as texts.
pub open spec fn record_views(recs: Seq<Vec<String>>) -> Seq<Seq<Seq<char>>> {
    recs.map_values(|r: Vec<String>| views(r@))
}

/// The links that the first `n` sheet rows give, in order.
pub open spec fn sheet_plan(d: MktData, recs: Seq<Seq<Seq<char>>>, n: int) -> Seq<(int, ItemType, int, u8)>
    decreases n,
{
    if n <= 0 {
        Seq::empty()
    } else {
        match sheet_row_link(d, recs[n - 1]) {
            Some(x) => sheet_plan(d, recs, n - 1).push(x),
            None => sheet_plan(d, recs, n - 1),
        }
    }
}

/// The favorites that the links give the course at position `ci`: the id
/// of each linked item with the level.
pub open spec fn planned_course_favs(d: MktData, plan: Seq<(int, ItemType, int, u8)>, ci: int) -> Set<(Seq<char>, u8)> {
    Set::new(
        |p: (Seq<char>, u8)|
            exists|j: int|
                0 <= j < plan.len() && #[trigger] plan[j].0 == ci && p == (
                    type_list(d, plan[j].1)[plan[j].2].1.id@,
                    plan[j].3,
                ),
    )
}

/// The favorites that the links give the item of type `t` at position
/// `ii`: the id of each linked course with the level.
pub open spec fn planned_item_favs(d: MktData, plan: Seq<(int, ItemType, int, u8)>, t: ItemType, ii: int) -> Set<
    (Seq<char>, u8),
> {
    Set::new(
        |p: (Seq<char>, u8)|
            exists|j: int|
                0 <= j < plan.len() && #[trigger] plan[j].1 == t && plan[j].2 == ii && p == (
                    d.courses@[plan[j].0].1.id@,
                    plan[j].3,
                ),
    )
}

/// The courses `now` are those of `d` in place, each with the favorites
/// that the links give it.
pub open spec fn courses_planned(d: MktData, now: Seq<(String, Course)>, plan: Seq<(int, ItemType, int, u8)>) -> bool {
    &&& now.len() == d.courses@.len()
    &&& forall|i: int|
        0 <= i < now.len() ==> (#[trigger] now[i]).0@ == d.courses@[i].0@ && now[i].1@ == CourseView {
            favorite_items: planned_course_favs(d, plan, i),
            ..d.courses@[i].1@
        }
}

/// The items of type `t` in `now` are those of `d` in place, each with the
/// favorites that the links give it.
pub open spec fn items_planned(d: MktData, now: Seq<(String, Item)>, plan: Seq<(int, ItemType, int, u8)>, t: ItemType) -> bool {
    &&& now.len() == type_list(d, t).len()
    &&& forall|i: int|
        0 <= i < now.len() ==> (#[trigger] now[i]).0@ == type_list(d, t)[i].0@ && now[i].1@ == ItemView {
            favorite_courses: planned_item_favs(d, plan, t, i),
            ..type_list(d, t)[i].1@
        }
}

/// Whether the links are in range of the database and have sheet levels.
pub open spec fn plan_fits(d: MktData, plan: Seq<(int, ItemType, int, u8)>) -> bool {
    forall|j: int|
        0 <= j < plan.len() ==> 0 <= (#[trigger] plan[j]).0 < d.courses@.len() && 0 <= plan[j].2 < type_list(
            d,
            plan[j].1,
        ).len() && sheet_level(plan[j].3)
}

proof fn lemma_sheet_item_from_range(s: Seq<(ItemId, Item)>, n: Seq<char>, j: int)
    ensures
        sheet_item_from(s, n, j) matches Some(i) ==> 0 <= i < s.len(),
    decreases s.len() - j,
{
    if 0 <= j < s.len() {
        lemma_sheet_item_from_range(s, n, j + 1);
    }
}

proof fn lemma_planned_step(d: MktData, plan: Seq<(int, ItemType, int, u8)>, k: int)
    requires
        0 <= k < plan.len(),
    ensures
        forall|i: int| #[trigger] planned_course_favs(d, plan.take(k + 1), i) == if i == plan[k].0 {
            planned_course_favs(d, plan.take(k), i).insert((type_list(d, plan[k].1)[plan[k].2].1.id@, plan[k].3))
        } else {
            planned_course_favs(d, plan.take(k), i)
        },
        forall|t: ItemType, i: int| #[trigger] planned_item_favs(d, plan.take(k + 1), t, i) == if t == plan[k].1 && i
            == plan[k].2 {
            planned_item_favs(d, plan.take(k), t, i).insert((d.courses@[plan[k].0].1.id@, plan[k].3))
        } else {
            planned_item_favs(d, plan.take(k), t, i)
        },
{
    let a = plan.take(k);
    let b = plan.take(k + 1);
    assert forall|i: int| #[trigger] planned_course_favs(d, b, i) == if i == plan[k].0 {
        planned_course_favs(d, a, i).insert((type_list(d, plan[k].1)[plan[k].2].1.id@, plan[k].3))
    } else {
        planned_course_favs(d, a, i)
    } by {
        let want = if i == plan[k].0 {
            planned_course_favs(d, a, i).insert((type_list(d, plan[k].1)[plan[k].2].1.id@, plan[k].3))
        } else {
            planned_course_favs(d, a, i)
        };
        assert forall|p: (Seq<char>, u8)| planned_course_favs(d, b, i).contains(p) <==> want.contains(p) by {
            if planned_course_favs(d, b, i).contains(p) {
                let j = choose|j: int|
                    0 <= j < b.len() && #[trigger] b[j].0 == i && p == (type_list(d, b[j].1)[b[j].2].1.id@, b[j].3);
                if j < k {
                    assert(a[j] == b[j]);
                }
            }
            if want.contains(p) {
                if planned_course_favs(d, a, i).contains(p) {
                    let j = choose|j: int|
                        0 <= j < a.len() && #[trigger] a[j].0 == i && p == (type_list(d, a[j].1)[a[j].2].1.id@, a[j].3);
                    assert(b[j] == a[j]);
                } else {
                    assert(b[k] == plan[k]);
                }
            }
        }
        assert(planned_course_favs(d, b, i) =~= want);
    }
    assert forall|t: ItemType, i: int| #[trigger] planned_item_favs(d, b, t, i) == if t == plan[k].1 && i == plan[k].2 {
        planned_item_favs(d, a, t, i).insert((d.courses@[plan[k].0].1.id@, plan[k].3))
    } else {
        planned_item_favs(d, a, t, i)
    } by {
        let want = if t == plan[k].1 && i == plan[k].2 {
            planned_item_favs(d, a, t, i).insert((d.courses@[plan[k].0].1.id@, plan[k].3))
        } else {
            planned_item_favs(d, a, t, i)
        };
        assert forall|p: (Seq<char>, u8)| planned_item_favs(d, b, t, i).contains(p) <==> want.contains(p) by {
            if planned_item_favs(d, b, t, i).contains(p) {
                let j = choose|j: int|
                    0 <= j < b.len() && #[trigger] b[j].1 == t && b[j].2 == i && p == (d.courses@[b[j].0].1.id@, b[j].3);
                if j < k {
                    assert(a[j] == b[j]);
                }
            }
            if want.contains(p) {
                if planned_item_favs(d, a, t, i).contains(p) {
                    let j = choose|j: int|
                        0 <= j < a.len() && #[trigger] a[j].1 == t && a[j].2 == i && p == (d.courses@[a[j].0].1.id@, a[j].3);
                    assert(b[j] == a[j]);
                } else {
                    assert(b[k] == plan[k]);
                }
            }
        }
        assert(planned_item_favs(d, b, t, i) =~= want);
    }
}

/// Records the coverage sheet, one record per row (item name, then the
/// course at level 1, 3, 6 or 8). The course and the item of each row are
/// looked up in the database as it is given (see `sheet_row_link`); then
/// every favorite is cleared, and each row found links its course and its
/// item on both sides. Everything else stays in place. Where every course
/// and item has its key as id and no key names items of two types, every
/// link afterwards agrees on both sides and has a sheet level.
pub fn apply_sheet(data: &mut MktData, records: &Vec<Vec<String>>)
    requires
        old(data).wf(),
        forall|r: int| 0 <= r < records@.len() ==> (#[trigger] records@[r])@.len() >= 5,
    ensures
        final(data).wf(),
        courses_planned(*old(data), final(data).courses@, sheet_plan(*old(data), record_views(records@), records@.len() as int)),
        forall|t: ItemType|
            items_planned(
                *old(data),
                #[trigger] type_list(*final(data), t),
                sheet_plan(*old(data), record_views(records@), records@.len() as int),
                t,
            ),
        ids_are_keys(*old(data)) ==> ids_are_keys(*final(data)) && links_agree(*final(data)),
{
    let ghost d0 = *data;
    let mut plan: Vec<(usize, ItemType, usize, u8)> = Vec::new();
    let mut r: usize = 0;
    while r < records.len()
        invariant
            *data == d0,
            d0.wf(),
            r <= records@.len(),
            forall|r: int| 0 <= r < records@.len() ==> (#[trigger] records@[r])@.len() >= 5,
            plan@.map_values(|x: (usize, ItemType, usize, u8)| (x.0 as int, x.1, x.2 as int, x.3)) == sheet_plan(
                d0,
                record_views(records@),
                r as int,
            ),
            plan_fits(d0, plan@.map_values(|x: (usize, ItemType, usize, u8)| (x.0 as int, x.1, x.2 as int, x.3))),
        decreases records@.len() - r,
    {
        let ghost pv = plan@.map_values(|x: (usize, ItemType, usize, u8)| (x.0 as int, x.1, x.2 as int, x.3));
        let ghost rec = views(records@[r as int]@);
        assert(record_views(records@)[r as int] == rec);
        assert(records@[r as int]@.len() >= 5);
        let mut link: Option<(usize, ItemType, usize, u8)> = None;
        match sheet_entry(&records[r]) {
            Some((item_name, course_name, lvl)) => {
                proof {
                    lemma_sheet_entry_level(rec);
                }
                match find_sheet_course(&data.courses, course_name.as_str()) {
                    Some(ci) => {
                        proof {
                            lemma_sheet_item_from_range(d0.drivers@, item_name@, 0);
                            lemma_sheet_item_from_range(d0.karts@, item_name@, 0);
                            lemma_sheet_item_from_range(d0.gliders@, item_name@, 0);
                        }
                        link = match find_sheet_item(&data.drivers, item_name.as_str()) {
                            Some(i) => Some((ci, ItemType::Driver, i, lvl)),
                            None => match find_sheet_item(&data.karts, item_name.as_str()) {
                                Some(i) => Some((ci, ItemType::Kart, i, lvl)),
                                None => match find_sheet_item(&data.gliders, item_name.as_str()) {
                                    Some(i) => Some((ci, ItemType::Glider, i, lvl)),
                                    None => None,
                                },
                            },
                        };
                    },
                    None => {},
                }
            },
            None => {},
        }
        match link {
            Some(x) => {
                plan.push(x);
                assert(plan@.map_values(|x: (usize, ItemType, usize, u8)| (x.0 as int, x.1, x.2 as int, x.3)) =~= pv.push(
                    (x.0 as int, x.1, x.2 as int, x.3),
                ));
            },
            None => {},
        }
        r = r + 1;
    }
    let ghost pv = plan@.map_values(|x: (usize, ItemType, usize, u8)| (x.0 as int, x.1, x.2 as int, x.3));
    clear_favorites(data);
    proof {
        lemma_cleared(d0, *data);
        assert forall|i: int| 0 <= i < d0.courses@.len() implies planned_course_favs(d0, pv.take(0), i)
            =~= Set::<(Seq<char>, u8)>::empty() by {}
        assert forall|t: ItemType, i: int| 0 <= i < type_list(d0, t).len() implies planned_item_favs(
            d0,
            pv.take(0),
            t,
            i,
        ) =~= Set::<(Seq<char>, u8)>::empty() by {}
        assert forall|i: int| 0 <= i < d0.courses@.len() implies course_cleared(d0.courses@[i], #[trigger] data.courses@[i]) by {}
        assert(courses_planned(d0, data.courses@, pv.take(0)));
        assert forall|t: ItemType| items_planned(d0, #[trigger] type_list(*data, t), pv.take(0), t) by {
            assert forall|i: int| 0 <= i < type_list(d0, t).len() implies item_cleared(
                type_list(d0, t)[i],
                #[trigger] type_list(*data, t)[i],
            ) by {}
        }
    }
    let mut k: usize = 0;
    while k < plan.len()
        invariant
            data.wf(),
            d0.wf(),
            k <= plan@.len(),
            pv == plan@.map_values(|x: (usize, ItemType, usize, u8)| (x.0 as int, x.1, x.2 as int, x.3)),
            plan_fits(d0, pv),
            courses_planned(d0, data.courses@, pv.take(k as int)),
            forall|t: ItemType| items_planned(d0, #[trigger] type_list(*data, t), pv.take(k as int), t),
            ids_are_keys(d0) ==> ids_are_keys(*data) && links_agree(*data),
        decreases plan@.len() - k,
    {
        let (ci, t, ii, lvl) = plan[k];
        assert(pv[k as int] == (ci as int, t, ii as int, lvl));
        assert(plan_fits(d0, pv) ==> sheet_level(lvl));
        assert(items_planned(d0, type_list(*data, t), pv.take(k as int), t));
        let ghost a = *data;
        link_sheet_row(data, ci, t, ii, lvl);
        proof {
            if ids_are_keys(d0) {
                lemma_linked(a, *data, ci as int, t, ii as int, lvl);
            }
            lemma_planned_step(d0, pv, k as int);
            assert(type_list(a, t)[ii as int].1.id@ == type_list(d0, t)[ii as int].1.id@);
            assert(a.courses@[ci as int].1.id@ == d0.courses@[ci as int].1.id@);
            assert forall|i: int| 0 <= i < data.courses@.len() implies (#[trigger] data.courses@[i]).0@
                == d0.courses@[i].0@ && data.courses@[i].1@ == CourseView {
                favorite_items: planned_course_favs(d0, pv.take(k + 1), i),
                ..d0.courses@[i].1@
            } by {
                assert(a.courses@[i].1@ == CourseView {
                    favorite_items: planned_course_favs(d0, pv.take(k as int), i),
                    ..d0.courses@[i].1@
                });
            }
            assert forall|u: ItemType| items_planned(d0, #[trigger] type_list(*data, u), pv.take(k + 1), u) by {
                assert(items_planned(d0, type_list(a, u), pv.take(k as int), u));
                assert forall|i: int| 0 <= i < type_list(*data, u).len() implies (#[trigger] type_list(*data, u)[i]).0@
                    == type_list(d0, u)[i].0@ && type_list(*data, u)[i].1@ == ItemView {
                    favorite_courses: planned_item_favs(d0, pv.take(k + 1), u, i),
                    ..type_list(d0, u)[i].1@
                } by {
                    assert(type_list(a, u)[i].1@ == ItemView {
                        favorite_courses: planned_item_favs(d0, pv.take(k as int), u, i),
                        ..type_list(d0, u)[i].1@
                    });
                    if u != t {
                        assert(type_list(*data, u) == type_list(a, u));
                    }
                }
            }
        }
        k = k + 1;
    }
    assert(pv.take(plan@.len() as int) =~= pv);
}


/// The records that the `csv` crate reads from a CSV text whose first line
/// is the header: the fields of each later record, or `None` where it meets
/// a malformed record.
pub uninterp spec fn csv_records(text: Seq<char>) -> Option<Seq<Seq<Seq<char>>>>;

/// Reads the records of a CSV text with `csv::Reader::from_reader` and
/// `Reader::records`, stopping at the first error. The contract only names
/// the result: CSV parsing depends on the text alone.
#[verifier::external_body]
fn read_csv_records(text: &str) -> (r: Option<Vec<Vec<String>>>)
    ensures
        match r {
            Some(v) => csv_records(text@) == Some(record_views(v@)),
            None => csv_records(text@) is None,
        },
{
    let mut reader = csv::Reader::from_reader(text.as_bytes());
    let mut out: Vec<Vec<String>> = Vec::new();
    for rec in reader.records() {
        match rec {
            Ok(rec) => out.push(rec.iter().map(|f| f.to_string()).collect()),
            Err(_) => return None,
        }
    }
    Some(out)
}

/// Some record has fewer than the five fields of a sheet row.
pub open spec fn has_short_record(recs: Seq<Seq<Seq<char>>>) -> bool {
    exists|i: int| 0 <= i < recs.len() && (#[trigger] recs[i]).len() < 5
}

/// Why the text of a coverage sheet was refused.
#[derive(Debug, Clone, Copy, PartialEq, Eq, Structural)]
pub enum SheetError {
    /// The CSV reader met a malformed record.
    Unreadable,
    /// A record has fewer than the five fields of a row.
    ShortRecord,
}

/// Records the coverage sheet given as CSV text with a header line, as
/// `apply_sheet` does with its records. A text that the CSV reader refuses,
/// or with a record of fewer than five fields, is refused and nothing
/// changes.
pub fn apply_sheet_text(data: &mut MktData, text: &str) -> (r: Result<(), SheetError>)
    requires
        old(data).wf(),
    ensures
        match csv_records(text@) {
            None => r == Err::<(), SheetError>(SheetError::Unreadable) && *final(data) == *old(data),
            Some(recs) => if has_short_record(recs) {
                r == Err::<(), SheetError>(SheetError::ShortRecord) && *final(data) == *old(data)
            } else {
                &&& r is Ok
                &&& final(data).wf()
                &&& courses_planned(*old(data), final(data).courses@, sheet_plan(*old(data), recs, recs.len() as int))
                &&& forall|t: ItemType|
                    items_planned(
                        *old(data),
                        #[trigger] type_list(*final(data), t),
                        sheet_plan(*old(data), recs, recs.len() as int),
                        t,
                    )
                &&& ids_are_keys(*old(data)) ==> ids_are_keys(*final(data)) && links_agree(*final(data))
            },
        },
{
    let records = match read_csv_records(text) {
        Some(v) => v,
        None => {
            return Err(SheetError::Unreadable);
        },
    };
    let ghost recs = record_views(records@);
    let mut i: usize = 0;
    while i < records.len()
        invariant
            i <= records@.len(),
            *data == *old(data),
            recs == record_views(records@),
            csv_records(text@) == Some(recs),
            forall|j: int| 0 <= j < i ==> (#[trigger] records@[j])@.len() >= 5,
        decreases records@.len() - i,
    {
        if records[i].len() < 5 {
            assert(recs[i as int] == views(records@[i as int]@));
            assert(recs[i as int].len() < 5);
            assert(has_short_record(recs));
            return Err(SheetError::ShortRecord);
        }
        i = i + 1;
    }
    assert forall|j: int| 0 <= j < recs.len() implies (#[trigger] recs[j]).len() >= 5 by {
        assert(recs[j] == views(records@[j]@));
        assert(records@[j]@.len() >= 5);
    }
    assert(!has_short_record(recs));
    apply_sheet(data, &records);
    Ok(())
}

} // verus!
