//! Recognition results of item pictures, and the deduction of the ids of
//! unrecognized items from the order in which the game lists items.
use vstd::prelude::*;
use crate::data::MktData;
use crate::ids::{ItemId, ItemLvl, ItemType};
use crate::model::Item;
use crate::text::{same_text, views};

verus! {

pub type ItemPoints = u16;

/// What the importer found out about one item picture.
#[derive(Debug, Clone)]
pub struct OwnedItemResult {
    pub id: Option<ItemId>,
    pub i_type: Option<ItemType>,
    pub lvl: Option<ItemLvl>,
    pub points: Option<ItemPoints>,
    pub hash: String,
    /// Whether the picture itself is kept (pictures of unrecognized items).
    pub has_img: bool,
}

pub struct OwnedItemResultView {
    pub id: Option<Seq<char>>,
    pub i_type: Option<ItemType>,
    pub lvl: Option<ItemLvl>,
    pub points: Option<ItemPoints>,
    pub hash: Seq<char>,
    pub has_img: bool,
}

/// Views of a list of results.
pub open spec fn result_views(s: Seq<OwnedItemResult>) -> Seq<OwnedItemResultView> {
    s.map_values(|r: OwnedItemResult| r@)
}

pub open spec fn opt_view(o: Option<String>) -> Option<Seq<char>> {
    match o {
        Some(s) => Some(s@),
        None => None,
    }
}

impl View for OwnedItemResult {
    type V = OwnedItemResultView;

    open spec fn view(&self) -> OwnedItemResultView {
        OwnedItemResultView {
            id: opt_view(self.id),
            i_type: self.i_type,
            lvl: self.lvl,
            points: self.points,
            hash: self.hash@,
            has_img: self.has_img,
        }
    }
}

/// The sort key of an item in the game's order: its sort number read as an
/// `i32`, or -1 when it has none.
pub open spec fn sort_key(s: Option<u32>) -> int {
    match s {
        Some(x) => (x as i32) as int,
        None => -1,
    }
}

/// Position of the first entry of sorted `s` with a key above `k`.
pub open spec fn first_above(s: Seq<(int, Seq<char>)>, k: int) -> nat
    decreases s.len(),
{
    if s.len() == 0 {
        0
    } else if s[0].0 > k {
        0
    } else {
        1 + first_above(s.drop_first(), k)
    }
}

/// `x` inserted into sorted `s` after every entry whose key is not above
/// its key.
pub open spec fn insert_sorted(s: Seq<(int, Seq<char>)>, x: (int, Seq<char>)) -> Seq<(int, Seq<char>)> {
    let p = first_above(s, x.0) as int;
    s.take(p) + seq![x] + s.skip(p)
}

/// `s` sorted by key, entries with equal keys keeping their order.
pub open spec fn stable_sorted(s: Seq<(int, Seq<char>)>) -> Seq<(int, Seq<char>)>
    decreases s.len(),
{
    if s.len() == 0 {
        s
    } else {
        insert_sorted(stable_sorted(s.drop_last()), s.last())
    }
}

/// The (sort key, id) of each item of a keyed list.
pub open spec fn keyed_ids(s: Seq<(String, Item)>) -> Seq<(int, Seq<char>)> {
    s.map_values(|e: (String, Item)| (sort_key(e.1.sort), e.1.id@))
}

/// The id that ends the list of expected items.
pub open spec fn end_marker() -> Seq<char> {
    "<the_end>"@
}

/// The ids of the items of a type in the game's order, then the end marker.
pub open spec fn expected_ids(s: Seq<(String, Item)>) -> Seq<Seq<char>> {
    stable_sorted(keyed_ids(s)).map_values(|e: (int, Seq<char>)| e.1).push(end_marker())
}

/// The database list of a type.
pub open spec fn type_list(d: MktData, t: ItemType) -> Seq<(String, Item)> {
    match t {
        ItemType::Driver => d.drivers@,
        ItemType::Kart => d.karts@,
        ItemType::Glider => d.gliders@,
    }
}

fn position_above(s: &Vec<(i64, String)>, k: i64) -> (r: usize)
    requires
        forall|i: int| 0 <= i < s@.len() ==> #[trigger] s@[i].0 >= i32::MIN && s@[i].0 <= i32::MAX,
    ensures
        r == first_above(sorted_view(s@), k as int),
        r <= s@.len(),
{
    let mut i: usize = 0;
    assert(sorted_view(s@).skip(0) =~= sorted_view(s@));
    while i < s.len()
        invariant
            i <= s@.len(),
            first_above(sorted_view(s@), k as int) == i + first_above(
                sorted_view(s@).skip(i as int),
                k as int,
            ),
        decreases s@.len() - i,
    {
        let ghost rest = sorted_view(s@).skip(i as int);
        if s[i].0 > k {
            assert(rest[0] == sorted_view(s@)[i as int]);
            return i;
        }
        assert(rest.drop_first() =~= sorted_view(s@).skip(i + 1));
        i = i + 1;
    }
    assert(sorted_view(s@).skip(i as int).len() == 0);
    i
}

/// Views of (key, id) pairs.
pub open spec fn sorted_view(s: Seq<(i64, String)>) -> Seq<(int, Seq<char>)> {
    s.map_values(|e: (i64, String)| (e.0 as int, e.1@))
}

/// The ids of the items of a list in the game's order, then the end marker.
pub fn expected_item_ids(list: &Vec<(ItemId, Item)>) -> (r: Vec<String>)
    ensures
        views(r@) == expected_ids(list@),
{
    let mut sorted: Vec<(i64, String)> = Vec::new();
    let mut i: usize = 0;
    while i < list.len()
        invariant
            i <= list@.len(),
            forall|j: int| 0 <= j < sorted@.len() ==> #[trigger] sorted@[j].0 >= i32::MIN && sorted@[j].0 <= i32::MAX,
            sorted_view(sorted@) == stable_sorted(keyed_ids(list@).take(i as int)),
        decreases list@.len() - i,
    {
        let key: i64 = match list[i].1.sort {
            Some(x) => (#[verifier::truncate] (x as i32)) as i64,
            None => -1,
        };
        let id = list[i].1.id.clone();
        let ghost pre = keyed_ids(list@).take(i as int);
        let ghost post = keyed_ids(list@).take(i + 1);
        assert(post.drop_last() =~= pre);
        assert(post.last() == (key as int, id@));
        let p = position_above(&sorted, key);
        let ghost before = sorted_view(sorted@);
        sorted.insert(p, (key, id));
        assert(sorted_view(sorted@) =~= insert_sorted(before, (key as int, id@)));
        i = i + 1;
    }
    assert(keyed_ids(list@).take(list@.len() as int) =~= keyed_ids(list@));
    let mut out: Vec<String> = Vec::new();
    let mut j: usize = 0;
    while j < sorted.len()
        invariant
            j <= sorted@.len(),
            views(out@) =~= sorted_view(sorted@).take(j as int).map_values(|e: (int, Seq<char>)| e.1),
        decreases sorted@.len() - j,
    {
        let ghost before = views(out@);
        out.push(sorted[j].1.clone());
        assert(views(out@) =~= before.push(sorted@[j as int].1@));
        assert(sorted_view(sorted@).take(j + 1).map_values(|e: (int, Seq<char>)| e.1) =~= sorted_view(
            sorted@,
        ).take(j as int).map_values(|e: (int, Seq<char>)| e.1).push(sorted@[j as int].1@));
        j = j + 1;
    }
    out.push("<the_end>".to_owned());
    assert(sorted_view(sorted@).take(sorted@.len() as int) =~= sorted_view(sorted@));
    assert(views(out@) =~= expected_ids(list@));
    out
}

/// The state of the deduction after some entries.
pub struct DeduceState {
    /// Position in the expected list of the last recognized item.
    pub offset: int,
    pub last_type: Option<ItemType>,
    /// Index of the last recognized item.
    pub last_found: Option<int>,
    /// Indices of unrecognized items waiting for the next recognized one.
    pub tries: Seq<int>,
    /// The expected ids of the current type.
    pub expected: Option<Seq<Seq<char>>>,
    pub ids: Seq<Option<Seq<char>>>,
}

/// Position of the first `x` in `s`, or 0 when absent.
pub open spec fn position_or_zero(s: Seq<Seq<char>>, x: Seq<char>) -> int
    decreases s.len(),
{
    if s.len() == 0 {
        0
    } else if s[0] == x {
        0
    } else if exists|i: int| 0 <= i < s.len() && s[i] == x {
        1 + position_or_zero(s.drop_first(), x)
    } else {
        0
    }
}

/// Gives each waiting index `t` the id that sits `t - last` places after
/// the last recognized item in the expected list, where there is one.
pub open spec fn fill_tries(
    ids: Seq<Option<Seq<char>>>,
    tries: Seq<int>,
    expected: Seq<Seq<char>>,
    last: int,
    offset: int,
) -> Seq<Option<Seq<char>>>
    decreases tries.len(),
{
    if tries.len() == 0 {
        ids
    } else {
        let rest = fill_tries(ids, tries.drop_last(), expected, last, offset);
        let t = tries.last();
        let k = t + offset - last;
        if 0 <= k < expected.len() && 0 <= t < rest.len() {
            rest.update(t, Some(expected[k]))
        } else {
            rest
        }
    }
}

/// The expected ids of a type, from the three precomputed lists.
pub open spec fn expected_of(
    t: ItemType,
    lists: (Seq<Seq<char>>, Seq<Seq<char>>, Seq<Seq<char>>),
) -> Seq<Seq<char>> {
    match t {
        ItemType::Driver => lists.0,
        ItemType::Kart => lists.1,
        ItemType::Glider => lists.2,
    }
}

/// One step of the deduction, on entry `i` with recognized id `id` and type
/// `t`. When the type changes, the expected list changes with it and the
/// waiting items are dropped. A recognized item that is where the expected
/// list puts it, counted from the last recognized item, confirms the ids of
/// the waiting items in between.
pub open spec fn deduce_step(
    st: DeduceState,
    i: int,
    id: Option<Seq<char>>,
    t: Option<ItemType>,
    lists: (Seq<Seq<char>>, Seq<Seq<char>>, Seq<Seq<char>>),
) -> DeduceState {
    let changed = t != st.last_type;
    let expected = if changed {
        match t {
            Some(tt) => Some(expected_of(tt, lists)),
            None => if id != Some(end_marker()) {
                None
            } else {
                st.expected
            },
        }
    } else {
        st.expected
    };
    let tries = if changed {
        Seq::<int>::empty()
    } else {
        st.tries
    };
    match id {
        Some(x) => match expected {
            Some(exp) => {
                let active = st.last_found is Some && tries.len() > 0;
                let last = st.last_found->0;
                let k = i - last + st.offset;
                let ids = if active && 0 <= k < exp.len() && exp[k] == x {
                    fill_tries(st.ids, tries, exp, last, st.offset)
                } else {
                    st.ids
                };
                DeduceState {
                    offset: position_or_zero(exp, x),
                    last_type: t,
                    last_found: Some(i),
                    tries: if active {
                        Seq::<int>::empty()
                    } else {
                        tries
                    },
                    expected,
                    ids,
                }
            },
            None => DeduceState {
                offset: 0,
                last_type: t,
                last_found: None,
                tries,
                expected,
                ids: st.ids,
            },
        },
        None => DeduceState { last_type: t, tries: tries.push(i), expected, ..st },
    }
}

/// The recognized id and type of entry `i` of the results followed by the
/// end entry.
pub open spec fn entry_of(items: Seq<OwnedItemResultView>, i: int) -> (Option<Seq<char>>, Option<ItemType>) {
    if i < items.len() {
        (items[i].id, items[i].i_type)
    } else {
        (Some(end_marker()), None)
    }
}

/// The deduction state after the first `n` entries.
pub open spec fn deduce_run(
    items: Seq<OwnedItemResultView>,
    n: int,
    lists: (Seq<Seq<char>>, Seq<Seq<char>>, Seq<Seq<char>>),
) -> DeduceState
    decreases n,
{
    if n <= 0 {
        DeduceState {
            offset: 0,
            last_type: None,
            last_found: None,
            tries: Seq::<int>::empty(),
            expected: None,
            ids: items.map_values(|r: OwnedItemResultView| r.id),
        }
    } else {
        let (id, t) = entry_of(items, n - 1);
        deduce_step(deduce_run(items, n - 1, lists), n - 1, id, t, lists)
    }
}

/// The expected id lists of drivers, karts and gliders of a database.
pub open spec fn data_lists(d: MktData) -> (Seq<Seq<char>>, Seq<Seq<char>>, Seq<Seq<char>>) {
    (expected_ids(d.drivers@), expected_ids(d.karts@), expected_ids(d.gliders@))
}

/// The ids after the deduction on all results and the end entry.
pub open spec fn deduced_ids(items: Seq<OwnedItemResultView>, d: MktData) -> Seq<Option<Seq<char>>> {
    deduce_run(items, items.len() as int + 1, data_lists(d)).ids
}

fn position_or_zero_exec(s: &Vec<String>, x: &str) -> (r: usize)
    ensures
        r == position_or_zero(views(s@), x@),
{
    let mut i: usize = 0;
    let ghost v = views(s@);
    assert(v.skip(0) =~= v);
    while i < s.len()
        invariant
            v == views(s@),
            i <= s@.len(),
            forall|j: int| 0 <= j < i ==> v[j] != x@,
            (exists|j: int| 0 <= j < v.len() && v[j] == x@) ==> position_or_zero(v, x@) == i
                + position_or_zero(v.skip(i as int), x@),
        decreases s@.len() - i,
    {
        let ghost rest = v.skip(i as int);
        if same_text(s[i].as_str(), x) {
            proof {
                assert(rest[0] == v[i as int]);
                assert(exists|j: int| 0 <= j < v.len() && v[j] == x@) by {
                    assert(v[i as int] == x@);
                }
            }
            return i;
        }
        proof {
            assert(rest.drop_first() =~= v.skip(i + 1));
            if exists|j: int| 0 <= j < v.len() && v[j] == x@ {
                let j = choose|j: int| 0 <= j < v.len() && v[j] == x@;
                assert(j > i);
                assert(rest[j - i] == x@);
            }
        }
        i = i + 1;
    }
    proof {
        if exists|j: int| 0 <= j < v.len() && v[j] == x@ {
            let j = choose|j: int| 0 <= j < v.len() && v[j] == x@;
            assert(v[j] != x@);
        }
        lemma_position_absent(v, x@);
    }
    0
}

proof fn lemma_position_absent(s: Seq<Seq<char>>, x: Seq<char>)
    requires
        !(exists|j: int| 0 <= j < s.len() && s[j] == x),
    ensures
        position_or_zero(s, x) == 0,
{
    if s.len() > 0 {
        assert(s[0] != x);
    }
}

/// Fills in the ids of unrecognized results from their neighbours: when a
/// recognized item sits where the game's item order puts it relative to the
/// previous recognized item of the same screen, the unrecognized items in
/// between get the ids that the order gives them. Only ids change.
pub fn deduce_missing_owned_items(owned_items: &mut Vec<OwnedItemResult>, data: &MktData)
    ensures
        final(owned_items)@.len() == old(owned_items)@.len(),
        forall|i: int|
            0 <= i < old(owned_items)@.len() ==> {
                &&& opt_view((#[trigger] final(owned_items)@[i]).id) == deduced_ids(
                    result_views(old(owned_items)@),
                    *data,
                )[i]
                &&& final(owned_items)@[i].i_type == old(owned_items)@[i].i_type
                &&& final(owned_items)@[i].lvl == old(owned_items)@[i].lvl
                &&& final(owned_items)@[i].points == old(owned_items)@[i].points
                &&& final(owned_items)@[i].hash@ == old(owned_items)@[i].hash@
                &&& final(owned_items)@[i].has_img == old(owned_items)@[i].has_img
            },
{
    let ghost orig = owned_items@;
    let ghost items = result_views(owned_items@);
    let ghost lists = data_lists(*data);
    let drivers = expected_item_ids(&data.drivers);
    let karts = expected_item_ids(&data.karts);
    let gliders = expected_item_ids(&data.gliders);
    let n = owned_items.len();
    let mut offset: usize = 0;
    let mut last_type: Option<ItemType> = None;
    let mut last_found: Option<usize> = None;
    let mut tries: Vec<usize> = Vec::new();
    let mut expected: Option<ItemType> = None;
    let mut i: usize = 0;
    let mut done = false;
    let ghost mut steps: int = 0;
    proof {
        assert(items.map_values(|r: OwnedItemResultView| r.id).len() == n);
    }
    while !done
        invariant
            n == items.len(),
            n == orig.len(),
            items == result_views(orig),
            i <= n,
            done ==> i == n,
            !done ==> steps == i,
            done ==> steps == n + 1,
            owned_items@.len() == n,
            lists == (views(drivers@), views(karts@), views(gliders@)),
            forall|j: int|
                0 <= j < n ==> {
                    &&& (#[trigger] owned_items@[j]).i_type == orig[j].i_type
                    &&& owned_items@[j].lvl == orig[j].lvl
                    &&& owned_items@[j].points == orig[j].points
                    &&& owned_items@[j].hash@ == orig[j].hash@
                    &&& owned_items@[j].has_img == orig[j].has_img
                    &&& (j >= i ==> opt_view(owned_items@[j].id) == opt_view(orig[j].id))
                },
            ({
                let st = deduce_run(items, steps, lists);
                &&& st.offset == offset
                &&& st.last_type == last_type
                &&& st.last_found == match last_found {
                    Some(l) => Some(l as int),
                    None => None::<int>,
                }
                &&& (last_found matches Some(l) ==> l < steps)
                &&& st.tries == tries@.map_values(|t: usize| t as int)
                &&& (forall|k: int| 0 <= k < tries@.len() ==> #[trigger] tries@[k] < steps)
                &&& st.expected == match expected {
                    Some(t) => Some(expected_of(t, lists)),
                    None => None::<Seq<Seq<char>>>,
                }
                &&& st.ids.len() == n
                &&& forall|j: int| 0 <= j < n ==> #[trigger] st.ids[j] == opt_view(owned_items@[j].id)
            }),
        decreases n + 1 - steps,
    {
        let ghost st = deduce_run(items, i as int, lists);
        assert(steps == i);
        let cur_id: Option<String> = if i < n {
            match &owned_items[i].id {
                Some(s) => Some(s.clone()),
                None => None,
            }
        } else {
            Some("<the_end>".to_owned())
        };
        let cur_type: Option<ItemType> = if i < n { owned_items[i].i_type } else { None };
        assert(entry_of(items, i as int) == (opt_view(cur_id), cur_type));
        let is_end = match &cur_id {
            Some(s) => same_text(s.as_str(), "<the_end>"),
            None => false,
        };
        // a change of type brings another expected list and drops the waiting items
        if cur_type != last_type {
            match cur_type {
                Some(t) => {
                    expected = Some(t);
                },
                None => {
                    if !is_end {
                        expected = None;
                    }
                },
            }
            last_type = cur_type;
            tries = Vec::new();
        }
        let ghost tries_now = tries@.map_values(|t: usize| t as int);
        match cur_id {
            Some(x) => {
                match expected {
                    Some(et) => {
                        let exp: &Vec<String> = match et {
                            ItemType::Driver => &drivers,
                            ItemType::Kart => &karts,
                            ItemType::Glider => &gliders,
                        };
                        assert(views(exp@) == expected_of(et, lists));
                        let active = last_found.is_some() && tries.len() > 0;
                        if active {
                            let last = last_found.unwrap();
                            if offset <= exp.len() && i - last < exp.len() - offset
                                && same_text(exp[i - last + offset].as_str(), x.as_str()) {
                                let ghost ids0 = st.ids;
                                let mut q: usize = 0;
                                while q < tries.len()
                                    invariant
                                        q <= tries@.len(),
                                        n == items.len(),
                                        n == orig.len(),
                                        owned_items@.len() == n,
                                        tries_now == tries@.map_values(|t: usize| t as int),
                                        forall|k2: int| 0 <= k2 < tries@.len() ==> #[trigger] tries@[k2] < i,
                                        i <= n,
                                        last < i,
                                        ids0.len() == n,
                                        forall|j: int|
                                            0 <= j < n ==> {
                                                &&& (#[trigger] owned_items@[j]).i_type == orig[j].i_type
                                                &&& owned_items@[j].lvl == orig[j].lvl
                                                &&& owned_items@[j].points == orig[j].points
                                                &&& owned_items@[j].hash@ == orig[j].hash@
                                                &&& owned_items@[j].has_img == orig[j].has_img
                                                &&& (j >= i ==> opt_view(owned_items@[j].id) == opt_view(orig[j].id))
                                            },
                                        forall|j: int|
                                            0 <= j < n ==> #[trigger] fill_tries(
                                                ids0,
                                                tries_now.take(q as int),
                                                views(exp@),
                                                last as int,
                                                offset as int,
                                            )[j] == opt_view(owned_items@[j].id),
                                    decreases tries@.len() - q,
                                {
                                    let t = tries[q];
                                    assert(tries_now.take(q + 1).drop_last() =~= tries_now.take(q as int));
                                    let ghost before = fill_tries(ids0, tries_now.take(q as int), views(exp@), last as int, offset as int);
                                    proof {
                                        lemma_fill_len(ids0, tries_now.take(q as int), views(exp@), last as int, offset as int);
                                    }
                                    let in_range = if t >= last {
                                        offset <= exp.len() && t - last < exp.len() - offset
                                    } else {
                                        last - t <= offset && offset - (last - t) < exp.len()
                                    };
                                    if in_range {
                                        let idx = if t >= last { t - last + offset } else { offset - (last - t) };
                                        assert(idx == t + offset - last);
                                        let v = exp[idx].clone();
                                        let ghost cur = owned_items@;
                                        let mut item = owned_items.remove(t);
                                        item.id = Some(v);
                                        owned_items.insert(t, item);
                                        proof {
                                            assert(owned_items@ =~= cur.update(t as int, item));
                                            assert forall|j: int| 0 <= j < n implies #[trigger] fill_tries(
                                                ids0,
                                                tries_now.take(q + 1),
                                                views(exp@),
                                                last as int,
                                                offset as int,
                                            )[j] == opt_view(owned_items@[j].id) by {
                                                if j != t {
                                                    assert(owned_items@[j] == cur[j]);
                                                }
                                            }
                                        }
                                    } else {
                                        proof {
                                            assert forall|j: int| 0 <= j < n implies #[trigger] fill_tries(
                                                ids0,
                                                tries_now.take(q + 1),
                                                views(exp@),
                                                last as int,
                                                offset as int,
                                            )[j] == opt_view(owned_items@[j].id) by {
                                                assert(fill_tries(ids0, tries_now.take(q + 1), views(exp@), last as int, offset as int) == before);
                                            }
                                        }
                                    }
                                    q = q + 1;
                                }
                                assert(tries_now.take(tries@.len() as int) =~= tries_now);
                            }
                            tries = Vec::new();
                        }
                        offset = position_or_zero_exec(exp, x.as_str());
                        last_found = Some(i);
                    },
                    None => {
                        offset = 0;
                        last_found = None;
                    },
                }
            },
            None => {
                tries.push(i);
            },
        }
        proof {
            let st2 = deduce_run(items, i + 1, lists);
            assert(st2 == deduce_step(st, i as int, opt_view(cur_id), cur_type, lists));
            lemma_step_len(st, i as int, opt_view(cur_id), cur_type, lists);
            assert(st2.ids.len() == n);
            assert(st2.tries =~= tries@.map_values(|t: usize| t as int));
            assert forall|k: int| 0 <= k < tries@.len() implies #[trigger] tries@[k] < i + 1 by {}
            assert forall|j: int| 0 <= j < n implies #[trigger] st2.ids[j] == opt_view(owned_items@[j].id) by {}
        }
        if i == n {
            done = true;
        } else {
            i = i + 1;
        }
        proof {
            steps = steps + 1;
        }
    }
}

proof fn lemma_step_len(
    st: DeduceState,
    i: int,
    id: Option<Seq<char>>,
    t: Option<ItemType>,
    lists: (Seq<Seq<char>>, Seq<Seq<char>>, Seq<Seq<char>>),
)
    ensures
        deduce_step(st, i, id, t, lists).ids.len() == st.ids.len(),
{
    let changed = t != st.last_type;
    let expected = if changed {
        match t {
            Some(tt) => Some(expected_of(tt, lists)),
            None => if id != Some(end_marker()) {
                None
            } else {
                st.expected
            },
        }
    } else {
        st.expected
    };
    let tries = if changed {
        Seq::<int>::empty()
    } else {
        st.tries
    };
    if id is Some && expected is Some {
        lemma_fill_len(st.ids, tries, expected->0, st.last_found->0, st.offset);
    }
}

proof fn lemma_fill_len(
    ids: Seq<Option<Seq<char>>>,
    tries: Seq<int>,
    expected: Seq<Seq<char>>,
    last: int,
    offset: int,
)
    ensures
        fill_tries(ids, tries, expected, last, offset).len() == ids.len(),
    decreases tries.len(),
{
    if tries.len() > 0 {
        lemma_fill_len(ids, tries.drop_last(), expected, last, offset);
    }
}


/// What the deduction keeps through the first `n` entries: the waiting
/// entries are unrecognized entries of the current type seen before `n`;
/// the expected list is that of the current type; recognized ids stay; and
/// an id filled in stands before the end marker in the expected list of its
/// entry's type.
spec fn run_keeps(
    items: Seq<OwnedItemResultView>,
    lists: (Seq<Seq<char>>, Seq<Seq<char>>, Seq<Seq<char>>),
    st: DeduceState,
    n: int,
) -> bool {
    &&& st.ids.len() == items.len()
    &&& forall|q: int|
        0 <= q < st.tries.len() ==> {
            let j = #[trigger] st.tries[q];
            &&& 0 <= j < n
            &&& j < items.len()
            &&& items[j].id is None
            &&& items[j].i_type == st.last_type
        }
    &&& (st.expected is Some ==> st.last_type is Some && st.expected->0 == expected_of(
        st.last_type->0,
        lists,
    ))
    &&& forall|j: int| 0 <= j < items.len() && items[j].id is Some ==> #[trigger] st.ids[j] == items[j].id
    &&& forall|j: int|
        0 <= j < items.len() && items[j].id is None && (#[trigger] st.ids[j]) is Some ==> filled_from(
            items[j].i_type,
            st.ids[j]->0,
            lists,
        )
}

/// `x` stands before the end marker in the expected list of type `t`.
spec fn filled_from(
    t: Option<ItemType>,
    x: Seq<char>,
    lists: (Seq<Seq<char>>, Seq<Seq<char>>, Seq<Seq<char>>),
) -> bool {
    &&& t is Some
    &&& exists|k: int| 0 <= k < expected_of(t->0, lists).len() - 1 && #[trigger] expected_of(t->0, lists)[k] == x
}

proof fn lemma_fill_places(
    ids: Seq<Option<Seq<char>>>,
    tries: Seq<int>,
    exp: Seq<Seq<char>>,
    last: int,
    offset: int,
)
    ensures
        forall|j: int|
            0 <= j < ids.len() ==> #[trigger] fill_tries(ids, tries, exp, last, offset)[j] == ids[j] || (
            tries.contains(j) && 0 <= j + offset - last < exp.len() && fill_tries(
                ids,
                tries,
                exp,
                last,
                offset,
            )[j] == Some(exp[j + offset - last])),
    decreases tries.len(),
{
    if tries.len() > 0 {
        let pre = tries.drop_last();
        lemma_fill_places(ids, pre, exp, last, offset);
        lemma_fill_len(ids, pre, exp, last, offset);
        assert forall|j: int| 0 <= j < ids.len() implies #[trigger] fill_tries(ids, tries, exp, last, offset)[j]
            == ids[j] || (tries.contains(j) && 0 <= j + offset - last < exp.len() && fill_tries(
            ids,
            tries,
            exp,
            last,
            offset,
        )[j] == Some(exp[j + offset - last])) by {
            let rest = fill_tries(ids, pre, exp, last, offset);
            assert(rest[j] == ids[j] || (pre.contains(j) && 0 <= j + offset - last < exp.len() && rest[j]
                == Some(exp[j + offset - last])));
            if pre.contains(j) {
                let q = choose|q: int| 0 <= q < pre.len() && pre[q] == j;
                assert(tries[q] == j);
            }
            if j == tries.last() {
                assert(tries[tries.len() - 1] == j);
            }
        }
    }
}

proof fn lemma_run_keeps(
    items: Seq<OwnedItemResultView>,
    n: int,
    lists: (Seq<Seq<char>>, Seq<Seq<char>>, Seq<Seq<char>>),
)
    requires
        0 <= n <= items.len(),
        forall|j: int| 0 <= j < items.len() ==> items[j].id != Some(end_marker()),
    ensures
        run_keeps(items, lists, deduce_run(items, n, lists), n),
    decreases n,
{
    if n == 0 {
        let st = deduce_run(items, 0, lists);
        assert forall|j: int| 0 <= j < items.len() && items[j].id is Some implies #[trigger] st.ids[j] == items[j].id by {
        }
    } else {
        lemma_run_keeps(items, n - 1, lists);
        let st = deduce_run(items, n - 1, lists);
        let i = n - 1;
        let id = items[i].id;
        let t = items[i].i_type;
        assert(entry_of(items, i) == (id, t));
        lemma_step_len(st, i, id, t, lists);
        let nx = deduce_step(st, i, id, t, lists);
        assert(nx == deduce_run(items, n, lists));
        let changed = t != st.last_type;
        let expected = if changed {
            match t {
                Some(tt) => Some(expected_of(tt, lists)),
                None => if id != Some(end_marker()) {
                    None
                } else {
                    st.expected
                },
            }
        } else {
            st.expected
        };
        let tries = if changed {
            Seq::<int>::empty()
        } else {
            st.tries
        };
        if id is Some && expected is Some {
            let x = id->0;
            let exp = expected->0;
            let active = st.last_found is Some && tries.len() > 0;
            let last = st.last_found->0;
            let k = i - last + st.offset;
            if active && 0 <= k < exp.len() && exp[k] == x {
                lemma_fill_places(st.ids, tries, exp, last, st.offset);
                lemma_fill_len(st.ids, tries, exp, last, st.offset);
                assert(nx.ids == fill_tries(st.ids, tries, exp, last, st.offset));
                assert forall|j: int| 0 <= j < items.len() && items[j].id is Some implies #[trigger] nx.ids[j]
                    == items[j].id by {
                    if tries.contains(j) {
                        let q = choose|q: int| 0 <= q < tries.len() && tries[q] == j;
                        assert(st.tries[q] == j);
                    }
                }
                assert forall|j: int|
                    0 <= j < items.len() && items[j].id is None && (#[trigger] nx.ids[j]) is Some implies filled_from(
                    items[j].i_type,
                    nx.ids[j]->0,
                    lists,
                ) by {
                    if nx.ids[j] != st.ids[j] {
                        let q = choose|q: int| 0 <= q < tries.len() && tries[q] == j;
                        assert(st.tries[q] == j);
                        let kk = j + st.offset - last;
                        assert(kk < k);
                        assert(expected_of(items[j].i_type->0, lists)[kk] == nx.ids[j]->0);
                    }
                }
            }
        }
    }
}

pub proof fn lemma_sorted_members(s: Seq<(int, Seq<char>)>)
    ensures
        stable_sorted(s).len() == s.len(),
        forall|m: int| 0 <= m < stable_sorted(s).len() ==> s.contains(#[trigger] stable_sorted(s)[m]),
    decreases s.len(),
{
    if s.len() > 0 {
        let pre = s.drop_last();
        lemma_sorted_members(pre);
        let ss = stable_sorted(pre);
        lemma_first_above_len(ss, s.last().0);
        let p = first_above(ss, s.last().0) as int;
        let r = stable_sorted(s);
        assert(r == ss.take(p) + seq![s.last()] + ss.skip(p));
        assert forall|m: int| 0 <= m < r.len() implies s.contains(#[trigger] r[m]) by {
            if m < p {
                assert(r[m] == ss[m]);
                let q = choose|q: int| 0 <= q < pre.len() && pre[q] == ss[m];
                assert(s[q] == pre[q]);
            } else if m == p {
                assert(s[s.len() - 1] == r[m]);
            } else {
                assert(r[m] == ss[m - 1]);
                let q = choose|q: int| 0 <= q < pre.len() && pre[q] == ss[m - 1];
                assert(s[q] == pre[q]);
            }
        }
    }
}

pub proof fn lemma_first_above_len(s: Seq<(int, Seq<char>)>, k: int)
    ensures
        first_above(s, k) <= s.len(),
    decreases s.len(),
{
    if s.len() > 0 {
        lemma_first_above_len(s.drop_first(), k);
    }
}

/// Each id that deduction fills in is the id of an item in the database
/// list of the entry's own type (that recognized ids stay is
/// `lemma_deduction_keeps_recognized`). Results whose recognized id is the
/// end marker of the expected lists are left out.
pub proof fn lemma_deduction_fills_from_type(items: Seq<OwnedItemResultView>, d: MktData)
    requires
        forall|j: int| 0 <= j < items.len() ==> items[j].id != Some(end_marker()),
    ensures
        deduced_ids(items, d).len() == items.len(),
        forall|j: int|
            0 <= j < items.len() && items[j].id is None && (#[trigger] deduced_ids(items, d)[j]) is Some ==> {
                &&& items[j].i_type is Some
                &&& exists|k: int|
                    0 <= k < type_list(d, items[j].i_type->0).len() && (#[trigger] type_list(
                        d,
                        items[j].i_type->0,
                    )[k]).1.id@ == deduced_ids(items, d)[j]->0
            },
{
    let lists = data_lists(d);
    let n = items.len() as int;
    lemma_run_keeps(items, n, lists);
    let st = deduce_run(items, n, lists);
    let id = Some(end_marker());
    assert(entry_of(items, n) == (id, None::<ItemType>));
    lemma_step_len(st, n, id, None, lists);
    let fin = deduce_run(items, n + 1, lists);
    assert(fin.ids == st.ids);
    assert forall|j: int|
        0 <= j < items.len() && items[j].id is None && (#[trigger] deduced_ids(items, d)[j]) is Some implies {
        &&& items[j].i_type is Some
        &&& exists|k: int|
            0 <= k < type_list(d, items[j].i_type->0).len() && (#[trigger] type_list(
                d,
                items[j].i_type->0,
            )[k]).1.id@ == deduced_ids(items, d)[j]->0
    } by {
        let tt = items[j].i_type->0;
        let x = st.ids[j]->0;
        assert(filled_from(items[j].i_type, x, lists));
        let e = expected_of(tt, lists);
        let s = type_list(d, tt);
        assert(e == expected_ids(s));
        let kk = choose|kk: int| 0 <= kk < e.len() - 1 && #[trigger] e[kk] == x;
        let sorted = stable_sorted(keyed_ids(s));
        lemma_sorted_members(keyed_ids(s));
        assert(e[kk] == sorted[kk].1);
        assert(keyed_ids(s).contains(sorted[kk]));
        let q = choose|q: int| 0 <= q < keyed_ids(s).len() && keyed_ids(s)[q] == sorted[kk];
        assert(s[q].1.id@ == x);
    }
}

} // verus!
