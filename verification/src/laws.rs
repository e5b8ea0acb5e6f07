//! Properties that hold across the functions of the library.
use vstd::prelude::*;
use crate::ids::{item_type_of_id, item_id_of, name_id, type_prefix, ItemType};
use crate::data::{
    data_has_hashes, data_hashes_for, hashes_added, item_has_hashes, item_hashes_for, MktData, MktItemHashes,
};
use crate::model::Item;
use crate::text::views;
use crate::deduce::{
    data_lists, deduce_run, deduced_ids, end_marker, entry_of, expected_of, fill_tries,
    OwnedItemResultView,
};
use crate::deduce::type_list;
use crate::keyed::{has_key, merged_maps};
use crate::listing::{entry_order, item_less, lemma_item_order_strict, lemma_sort_by, sort_by, SortStat};
use crate::model::{
    course_merged, item_merged, owned_merged, CourseAvailability, CourseView, ItemRequirement,
    ItemView, Mergeable, OwnedItemView,
};
use crate::rows::swapped;
use crate::screenshot::{
    area_overlap, hamming_prefix, hash_bytes, hash_distance, hashes_comparable, part_distance,
    parts_comparable, parts_product, ItemArea,
};
use crate::stats::{
    course_stats_of, covered, first_time, item_stats_of, item_tally, needed, owned_level, CourseStats,
    DataInvCourse, DataInvItem, DataInventory,
};
use crate::export::{
    decimal, digit_char, joined, mkthub_sheet, owned_lines, sheet_heading, sheet_key, sheet_line,
};
use crate::deduce::{first_above, lemma_first_above_len, lemma_sorted_members, stable_sorted};
use crate::update::{cell_links, cell_type, star_level, LinkView};
use crate::text::{has_prefix, split_on};
use crate::update::{course_key, courses_gained, favorites_of, link_gains, Favor};

verus! {

/// The id of an item tells the item's type back.
pub proof fn lemma_item_id_gives_type(name: Seq<char>, t: ItemType)
    ensures
        item_type_of_id(item_id_of(name, t)) == Some(t),
{
    reveal_strlit("d_");
    reveal_strlit("k_");
    reveal_strlit("g_");
    let id = item_id_of(name, t);
    let p = type_prefix(t);
    assert(id.subrange(0, 2) =~= p);
    match t {
        ItemType::Driver => {
            assert(has_prefix(id, "d_"@));
        },
        ItemType::Kart => {
            assert(id[0] == 'k');
            assert(!has_prefix(id, "d_"@)) by {
                assert(id.subrange(0, 2)[0] != "d_"@[0]);
            }
            assert(has_prefix(id, "k_"@));
        },
        ItemType::Glider => {
            assert(id[0] == 'g');
            assert(!has_prefix(id, "d_"@)) by {
                assert(id.subrange(0, 2)[0] != "d_"@[0]);
            }
            assert(!has_prefix(id, "k_"@)) by {
                assert(id.subrange(0, 2)[0] != "k_"@[0]);
            }
            assert(has_prefix(id, "g_"@));
        },
    }
}

/// A course id is never taken for an item id.
pub proof fn lemma_course_id_is_no_item(name: Seq<char>)
    ensures
        item_type_of_id("c_"@ + name_id(name)) is None,
{
    reveal_strlit("c_");
    reveal_strlit("d_");
    reveal_strlit("k_");
    reveal_strlit("g_");
    let id = "c_"@ + name_id(name);
    assert(id[0] == 'c');
    if has_prefix(id, "d_"@) {
        assert(id.subrange(0, 2)[0] == "d_"@[0]);
    }
    if has_prefix(id, "k_"@) {
        assert(id.subrange(0, 2)[0] == "k_"@[0]);
    }
    if has_prefix(id, "g_"@) {
        assert(id.subrange(0, 2)[0] == "g_"@[0]);
    }
}

/// Merging a course into itself changes nothing.
pub proof fn lemma_course_merge_self(v: CourseView)
    ensures
        course_merged(v, v) == v,
{
}

/// Merging an item into itself changes nothing.
pub proof fn lemma_item_merge_self(v: ItemView)
    ensures
        item_merged(v, v) == v,
{
}

/// Merging an owned item into itself changes nothing.
pub proof fn lemma_owned_merge_self(v: OwnedItemView)
    ensures
        owned_merged(v, v) == v,
{
}

/// Merging the same newer course twice is merging it once.
pub proof fn lemma_course_merge_idempotent(a: CourseView, b: CourseView)
    ensures
        course_merged(course_merged(a, b), b) == course_merged(a, b),
{
}

/// Merging the same newer item twice is merging it once.
pub proof fn lemma_item_merge_idempotent(a: ItemView, b: ItemView)
    ensures
        item_merged(item_merged(a, b), b) == item_merged(a, b),
{
}

/// Merging the same newer owned item twice is merging it once.
pub proof fn lemma_owned_merge_idempotent(a: OwnedItemView, b: OwnedItemView)
    ensures
        owned_merged(owned_merged(a, b), b) == owned_merged(a, b),
{
}

/// A merge of keyed records loses no key and adds no other: the keys after
/// the merge are those of either side.
pub proof fn lemma_merge_keeps_keys<V: Mergeable>(a: Map<Seq<char>, V::V>, b: Map<Seq<char>, V::V>)
    ensures
        merged_maps::<V>(a, b).dom() == a.dom().union(b.dom()),
{
    assert(merged_maps::<V>(a, b).dom() =~= a.dom().union(b.dom()));
}

/// Merging nothing into keyed records changes nothing.
pub proof fn lemma_merge_nothing<V: Mergeable>(a: Map<Seq<char>, V::V>)
    ensures
        merged_maps::<V>(a, Map::empty()) == a,
{
    assert(merged_maps::<V>(a, Map::empty()) =~= a);
}

/// Records merged into an empty list are kept as they are.
pub proof fn lemma_merge_into_nothing<V: Mergeable>(b: Map<Seq<char>, V::V>)
    ensures
        merged_maps::<V>(Map::empty(), b) == b,
{
    assert(merged_maps::<V>(Map::empty(), b) =~= b);
}

/// The overlap of two areas does not depend on their order.
pub proof fn lemma_overlap_commutes(a: ItemArea, b: ItemArea)
    ensures
        area_overlap(a, b) == area_overlap(b, a),
{
}

/// Exchanging rows and columns twice gives the area back.
pub proof fn lemma_swap_twice(a: ItemArea)
    ensures
        swapped(swapped(a)) == a,
{
}

proof fn lemma_hamming_prefix_symmetric(a: Seq<u8>, b: Seq<u8>, n: int)
    ensures
        hamming_prefix(a, b, n) == hamming_prefix(b, a, n),
    decreases n,
{
    if n > 0 {
        lemma_hamming_prefix_symmetric(a, b, n - 1);
        let x = a[n - 1];
        let y = b[n - 1];
        assert(x ^ y == y ^ x) by (bit_vector);
    }
}

proof fn lemma_hamming_prefix_self(a: Seq<u8>, n: int)
    ensures
        hamming_prefix(a, a, n) == 0,
    decreases n,
{
    if n > 0 {
        lemma_hamming_prefix_self(a, n - 1);
        let x = a[n - 1];
        assert(x ^ x == 0) by (bit_vector);
    }
}

proof fn lemma_parts_product_symmetric(p1: Seq<Seq<char>>, p2: Seq<Seq<char>>, n: int)
    requires
        p1.len() == p2.len(),
        n <= p1.len(),
    ensures
        parts_product(p1, p2, n) == parts_product(p2, p1, n),
    decreases n,
{
    if n > 0 {
        lemma_parts_product_symmetric(p1, p2, n - 1);
        let x = p1[n - 1];
        let y = p2[n - 1];
        match (hash_bytes(x), hash_bytes(y)) {
            (Some(a), Some(b)) => {
                lemma_hamming_prefix_symmetric(a, b, if a.len() <= b.len() { a.len() as int } else { b.len() as int });
            },
            _ => {},
        }
        assert(part_distance(x, y) == part_distance(y, x));
    }
}

proof fn lemma_parts_product_self(p: Seq<Seq<char>>, n: int)
    requires
        n <= p.len(),
        parts_comparable(p, p),
    ensures
        parts_product(p, p, n) == 1,
    decreases n,
{
    if n > 0 {
        lemma_parts_product_self(p, n - 1);
        let x = p[n - 1];
        assert(part_distance(x, x) is Some);
        let a = hash_bytes(x)->0;
        lemma_hamming_prefix_self(a, a.len() as int);
    }
}

/// The distance of two item hashes does not depend on their order.
pub proof fn lemma_hash_distance_symmetric(h1: Seq<char>, h2: Seq<char>)
    ensures
        hash_distance(h1, h2) == hash_distance(h2, h1),
{
    let p1 = split_on(h1, '|');
    let p2 = split_on(h2, '|');
    if hashes_comparable(h1, h2) {
        assert forall|i: int| 0 <= i < p2.len() implies (#[trigger] part_distance(p2[i], p1[i])) is Some by {
            assert(part_distance(p1[i], p2[i]) is Some);
        }
        lemma_parts_product_symmetric(p1, p2, p1.len() as int);
    } else if hashes_comparable(h2, h1) {
        assert forall|i: int| 0 <= i < p1.len() implies (#[trigger] part_distance(p1[i], p2[i])) is Some by {
            assert(part_distance(p2[i], p1[i]) is Some);
        }
    }
}

/// A valid item hash is at the smallest distance, 1, from itself.
pub proof fn lemma_hash_distance_self(h: Seq<char>)
    requires
        hashes_comparable(h, h),
    ensures
        hash_distance(h, h) == 1,
{
    let p = split_on(h, '|');
    lemma_parts_product_self(p, p.len() as int);
}

proof fn lemma_fill_keeps_known(
    items: Seq<OwnedItemResultView>,
    ids: Seq<Option<Seq<char>>>,
    tries: Seq<int>,
    expected: Seq<Seq<char>>,
    last: int,
    offset: int,
)
    requires
        ids.len() == items.len(),
        forall|j: int| 0 <= j < tries.len() ==> #[trigger] items[tries[j]].id is None,
    ensures
        fill_tries(ids, tries, expected, last, offset).len() == ids.len(),
        forall|i: int|
            0 <= i < items.len() && items[i].id is Some ==> #[trigger] fill_tries(
                ids,
                tries,
                expected,
                last,
                offset,
            )[i] == ids[i],
    decreases tries.len(),
{
    if tries.len() > 0 {
        let rest = tries.drop_last();
        assert forall|j: int| 0 <= j < rest.len() implies #[trigger] items[rest[j]].id is None by {
            assert(rest[j] == tries[j]);
        }
        lemma_fill_keeps_known(items, ids, rest, expected, last, offset);
        assert(items[tries[tries.len() - 1]].id is None);
    }
}

proof fn lemma_run_keeps_known(
    items: Seq<OwnedItemResultView>,
    n: int,
    lists: (Seq<Seq<char>>, Seq<Seq<char>>, Seq<Seq<char>>),
)
    requires
        n <= items.len() + 1,
    ensures
        deduce_run(items, n, lists).ids.len() == items.len(),
        forall|j: int|
            0 <= j < deduce_run(items, n, lists).tries.len() ==> 0 <= #[trigger] deduce_run(
                items,
                n,
                lists,
            ).tries[j] < items.len() && items[deduce_run(items, n, lists).tries[j]].id is None,
        forall|i: int|
            0 <= i < items.len() && items[i].id is Some ==> #[trigger] deduce_run(items, n, lists).ids[i]
                == items[i].id,
    decreases n,
{
    if n > 0 {
        lemma_run_keeps_known(items, n - 1, lists);
        let st = deduce_run(items, n - 1, lists);
        let (id, t) = entry_of(items, n - 1);
        let changed = t != st.last_type;
        let tries = if changed {
            Seq::<int>::empty()
        } else {
            st.tries
        };
        assert forall|j: int| 0 <= j < tries.len() implies #[trigger] items[tries[j]].id is None by {
            assert(tries[j] == st.tries[j]);
        }
        match id {
            Some(x) => {
                let expected = if changed {
                    match t {
                        Some(tt) => Some(expected_of(tt, lists)),
                        None => if id != Some(end_marker()) {
                            None
                        } else {
                            st.expected
                        },
                    }
                } else {
                    st.expected
                };
                match expected {
                    Some(exp) => {
                        lemma_fill_keeps_known(items, st.ids, tries, exp, st.last_found->0, st.offset);
                    },
                    None => {},
                }
            },
            None => {
                assert(n - 1 < items.len());
                let nt = tries.push(n - 1);
                assert forall|j: int| 0 <= j < nt.len() implies 0 <= #[trigger] nt[j] < items.len()
                    && items[nt[j]].id is None by {
                    if j < tries.len() {
                        assert(nt[j] == tries[j]);
                        assert(tries[j] == st.tries[j]);
                    }
                }
            },
        }
    }
}

/// The deduction of unrecognized items never changes the id of a
/// recognized one.
pub proof fn lemma_deduction_keeps_recognized(items: Seq<OwnedItemResultView>, d: MktData)
    ensures
        deduced_ids(items, d).len() == items.len(),
        forall|i: int|
            0 <= i < items.len() && items[i].id is Some ==> #[trigger] deduced_ids(items, d)[i]
                == items[i].id,
{
    lemma_run_keeps_known(items, items.len() as int + 1, data_lists(d));
}

proof fn lemma_covered_within(reqs: Seq<ItemRequirement>, n: int, t: ItemType, items: Seq<(String, DataInvItem)>)
    ensures
        0 <= covered(reqs, n, t, items) <= needed(reqs, n, t),
    decreases n,
{
    if n > 0 {
        lemma_covered_within(reqs, n - 1, t, items);
    }
}

/// A course never has more owned items of a type than it favors.
pub proof fn lemma_course_stats_within(
    reqs: Seq<ItemRequirement>,
    drivers: Seq<(String, DataInvItem)>,
    karts: Seq<(String, DataInvItem)>,
    gliders: Seq<(String, DataInvItem)>,
)
    requires
        reqs.len() <= usize::MAX,
    ensures
        course_stats_of(reqs, drivers, karts, gliders).driver_owned_count <= course_stats_of(
            reqs,
            drivers,
            karts,
            gliders,
        ).driver_count,
        course_stats_of(reqs, drivers, karts, gliders).kart_owned_count <= course_stats_of(
            reqs,
            drivers,
            karts,
            gliders,
        ).kart_count,
        course_stats_of(reqs, drivers, karts, gliders).glider_owned_count <= course_stats_of(
            reqs,
            drivers,
            karts,
            gliders,
        ).glider_count,
{
    let n = reqs.len() as int;
    lemma_covered_within(reqs, n, ItemType::Driver, drivers);
    lemma_covered_within(reqs, n, ItemType::Kart, karts);
    lemma_covered_within(reqs, n, ItemType::Glider, gliders);
    lemma_needed_within(reqs, n, ItemType::Driver);
    lemma_needed_within(reqs, n, ItemType::Kart);
    lemma_needed_within(reqs, n, ItemType::Glider);
}

proof fn lemma_needed_within(reqs: Seq<ItemRequirement>, n: int, t: ItemType)
    requires
        n >= 0,
    ensures
        0 <= needed(reqs, n, t) <= n,
    decreases n,
{
    if n > 0 {
        lemma_needed_within(reqs, n - 1, t);
    }
}

proof fn lemma_tally_within(
    favs: Seq<CourseAvailability>,
    n: int,
    lvl: u8,
    t: ItemType,
    courses: Seq<(String, DataInvCourse)>,
)
    requires
        n >= 0,
    ensures
        0 <= item_tally(favs, n, lvl, t, courses).fav <= item_tally(favs, n, lvl, t, courses).max_fav,
        0 <= item_tally(favs, n, lvl, t, courses).add <= item_tally(favs, n, lvl, t, courses).max_add,
        item_tally(favs, n, lvl, t, courses).max_add <= item_tally(favs, n, lvl, t, courses).max_fav,
        item_tally(favs, n, lvl, t, courses).max_fav <= n,
    decreases n,
{
    if n > 0 {
        lemma_tally_within(favs, n - 1, lvl, t, courses);
    }
}

/// An item is favored on at most as many courses at its owned level as at
/// any level, and adds coverage on no more courses than it could add at
/// most, which are no more than the courses it is favored on.
pub proof fn lemma_item_stats_within(
    favs: Seq<CourseAvailability>,
    lvl: u8,
    t: ItemType,
    courses: Seq<(String, DataInvCourse)>,
)
    requires
        favs.len() <= usize::MAX,
    ensures
        item_stats_of(favs, lvl, t, courses).fav_course_count <= item_stats_of(
            favs,
            lvl,
            t,
            courses,
        ).max_fav_course_count,
        item_stats_of(favs, lvl, t, courses).add_course_count <= item_stats_of(
            favs,
            lvl,
            t,
            courses,
        ).max_add_course_count,
        item_stats_of(favs, lvl, t, courses).max_add_course_count <= item_stats_of(
            favs,
            lvl,
            t,
            courses,
        ).max_fav_course_count,
{
    lemma_tally_within(favs, favs.len() as int, lvl, t, courses);
}

proof fn lemma_favorite_has_link(links: Seq<Favor>, m: int, d: MktData, k: Seq<char>, l: u8)
    requires
        m <= links.len(),
        favorites_of(links, m, d).contains((k, l)),
    ensures
        exists|x: int|
            0 <= x < m && l > 0 && #[trigger] links[x].2 == l && item_id_of(links[x].1, links[x].0) == k,
    decreases m,
{
    if m > 0 {
        let f = links[m - 1];
        if f.2 > 0 && has_key(type_list(d, f.0), item_id_of(f.1, f.0)) && (k, l) == (
            item_id_of(f.1, f.0),
            f.2,
        ) {
            assert(links[m - 1].2 == l);
        } else {
            lemma_favorite_has_link(links, m - 1, d, k, l);
            let x = choose|x: int|
                0 <= x < m - 1 && l > 0 && #[trigger] links[x].2 == l && item_id_of(links[x].1, links[x].0) == k;
            assert(links[x].2 == l);
        }
    }
}

proof fn lemma_link_gains_has(links: Seq<Favor>, m: int, t: ItemType, k: Seq<char>, c: Seq<char>, x: int)
    requires
        0 <= x < m <= links.len(),
        links[x].0 == t,
        item_id_of(links[x].1, t) == k,
        links[x].2 > 0,
    ensures
        link_gains(links, m, t, k, c).contains((c, links[x].2)),
    decreases m,
{
    if x < m - 1 {
        lemma_link_gains_has(links, m - 1, t, k, c, x);
    }
}

proof fn lemma_courses_gained_has(
    e: Seq<(Seq<char>, u32, Seq<Favor>)>,
    n: int,
    t: ItemType,
    k: Seq<char>,
    j: int,
    p: (Seq<char>, u8),
)
    requires
        0 <= j < n,
        link_gains(e[j].2, e[j].2.len() as int, t, k, course_key(e[j].0)).contains(p),
    ensures
        courses_gained(e, n, t, k).contains(p),
    decreases n,
{
    if j < n - 1 {
        lemma_courses_gained_has(e, n - 1, t, k, j, p);
    }
}

/// Coverage is recorded on both sides: when a coverage entry makes its
/// course favor an item at some level, the item is favored on that course
/// at that level too.
pub proof fn lemma_coverage_both_sides(
    e: Seq<(Seq<char>, u32, Seq<Favor>)>,
    d: MktData,
    j: int,
    k: Seq<char>,
    l: u8,
)
    requires
        0 <= j < e.len(),
        favorites_of(e[j].2, e[j].2.len() as int, d).contains((k, l)),
    ensures
        item_type_of_id(k) is Some,
        courses_gained(e, e.len() as int, item_type_of_id(k)->0, k).contains((course_key(e[j].0), l)),
{
    let links = e[j].2;
    lemma_favorite_has_link(links, links.len() as int, d, k, l);
    let x = choose|x: int|
        0 <= x < links.len() && l > 0 && #[trigger] links[x].2 == l && item_id_of(links[x].1, links[x].0) == k;
    let t = links[x].0;
    lemma_item_id_gives_type(links[x].1, t);
    lemma_link_gains_has(links, links.len() as int, t, k, course_key(e[j].0), x);
    lemma_courses_gained_has(e, e.len() as int, t, k, j, (course_key(e[j].0), l));
}


/// Sorting an item list by any statistic keeps every item, as often as it
/// was there, and puts no item after one that sorts after it.
pub proof fn lemma_item_list_sorted(items: Seq<(crate::ids::ItemId, DataInvItem)>, stat: SortStat)
    ensures
        sort_by(items, entry_order(stat)).len() == items.len(),
        sort_by(items, entry_order(stat)).to_multiset() == items.to_multiset(),
        forall|i: int, j: int|
            0 <= i < j < items.len() ==> !item_less(
                stat,
                (#[trigger] sort_by(items, entry_order(stat))[j]).1,
                (#[trigger] sort_by(items, entry_order(stat))[i]).1,
            ),
{
    broadcast use vstd::seq_lib::group_to_multiset_ensures;

    lemma_item_order_strict(stat);
    lemma_sort_by(items, entry_order(stat));
    let r = sort_by(items, entry_order(stat));
    assert(r.to_multiset().len() == items.to_multiset().len());
    assert forall|i: int, j: int| 0 <= i < j < items.len() implies !item_less(
        stat,
        (#[trigger] r[j]).1,
        (#[trigger] r[i]).1,
    ) by {
        assert(!entry_order(stat)(r[j], r[i]));
    }
}


/// Whether some item of `s` has id `k`.
pub open spec fn has_item_id(s: Seq<(String, Item)>, k: Seq<char>) -> bool {
    exists|i: int| 0 <= i < s.len() && #[trigger] s[i].1.id@ == k
}

/// Whether the items of `s` have no hashes and pairwise distinct ids.
pub open spec fn bare_items(s: Seq<(String, Item)>) -> bool {
    &&& forall|i: int| 0 <= i < s.len() ==> (#[trigger] s[i]).1.hashes@.len() == 0
    &&& forall|i: int, j: int| 0 <= i < s.len() && 0 <= j < s.len() && i != j ==> #[trigger] s[i].1.id@ != #[trigger] s[j].1.id@
}

proof fn lemma_bare_part(all: Seq<(String, Item)>, a: int, b: int)
    requires
        bare_items(all),
        0 <= a <= b <= all.len(),
    ensures
        bare_items(all.subrange(a, b)),
{
    let s = all.subrange(a, b);
    assert forall|i: int| 0 <= i < s.len() implies (#[trigger] s[i]).1.hashes@.len() == 0 by {
        assert(all[a + i] == s[i]);
    }
    assert forall|i: int, j: int| 0 <= i < s.len() && 0 <= j < s.len() && i != j implies #[trigger] s[i].1.id@
        != #[trigger] s[j].1.id@ by {
        assert(all[a + i] == s[i]);
        assert(all[a + j] == s[j]);
    }
}

proof fn lemma_list_hashes_back(before: Seq<(String, Item)>, after: Seq<(String, Item)>, h: Map<Seq<char>, Seq<String>>, k: Seq<char>)
    requires
        hashes_added(before, after, h),
        bare_items(before),
    ensures
        item_has_hashes(after, k) <==> (has_item_id(before, k) && h.contains_key(k) && h[k].len() > 0),
        item_hashes_for(after, k) == if has_item_id(before, k) && h.contains_key(k) {
            views(h[k])
        } else {
            Seq::<Seq<char>>::empty()
        },
    decreases before.len(),
{
    let n = before.len();
    if n == 0 {
        assert(after.len() == 0);
    } else {
        let b2 = before.drop_last();
        let a2 = after.drop_last();
        assert forall|i: int| 0 <= i < a2.len() implies #[trigger] a2[i].0@ == b2[i].0@ && a2[i].1@
            == crate::data::item_with_hashes(b2[i].1@, h) by {
            assert(a2[i] == after[i] && b2[i] == before[i]);
        }
        assert forall|i: int, j: int| 0 <= i < b2.len() && 0 <= j < b2.len() && i != j implies #[trigger] b2[i].1.id@
            != #[trigger] b2[j].1.id@ by {
            assert(b2[i] == before[i] && b2[j] == before[j]);
        }
        assert forall|i: int| 0 <= i < b2.len() implies (#[trigger] b2[i]).1.hashes@.len() == 0 by {
            assert(b2[i] == before[i]);
        }
        lemma_list_hashes_back(b2, a2, h, k);
        let last = after[n - 1];
        assert(after.last() == last);
        assert(after[n - 1].0@ == before[n - 1].0@ && after[n - 1].1@ == crate::data::item_with_hashes(before[n - 1].1@, h));
        assert(last.1@ == crate::data::item_with_hashes(before[n - 1].1@, h));
        assert(views(before[n - 1].1.hashes@) =~= Seq::<Seq<char>>::empty());
        assert(last.1.id@ == before[n - 1].1.id@);
        if before[n - 1].1.id@ == k {
            assert(!has_item_id(b2, k)) by {
                if has_item_id(b2, k) {
                    let i = choose|i: int| 0 <= i < b2.len() && #[trigger] b2[i].1.id@ == k;
                    assert(b2[i] == before[i]);
                }
            }
            assert(has_item_id(before, k));
            if h.contains_key(k) {
                assert(views(last.1.hashes@) =~= views(h[k]));
            } else {
                assert(views(last.1.hashes@) =~= Seq::<Seq<char>>::empty());
            }
            assert(item_has_hashes(after, k) <==> last.1.hashes@.len() > 0) by {
                if item_has_hashes(after, k) {
                    let i = choose|i: int| 0 <= i < after.len() && #[trigger] after[i].1.id@ == k && after[i].1.hashes@.len() > 0;
                    if i < n - 1 {
                        assert(a2[i] == after[i]);
                        assert(item_has_hashes(a2, k));
                    }
                }
            }
        } else {
            assert(has_item_id(before, k) <==> has_item_id(b2, k)) by {
                if has_item_id(before, k) {
                    let i = choose|i: int| 0 <= i < before.len() && #[trigger] before[i].1.id@ == k;
                    assert(b2[i] == before[i]);
                }
                if has_item_id(b2, k) {
                    let i = choose|i: int| 0 <= i < b2.len() && #[trigger] b2[i].1.id@ == k;
                    assert(b2[i] == before[i]);
                }
            }
            assert(item_has_hashes(after, k) <==> item_has_hashes(a2, k)) by {
                if item_has_hashes(after, k) {
                    let i = choose|i: int| 0 <= i < after.len() && #[trigger] after[i].1.id@ == k && after[i].1.hashes@.len() > 0;
                    assert(a2[i] == after[i]);
                }
                if item_has_hashes(a2, k) {
                    let i = choose|i: int| 0 <= i < a2.len() && #[trigger] a2[i].1.id@ == k && a2[i].1.hashes@.len() > 0;
                    assert(a2[i] == after[i]);
                }
            }
        }
    }
}

/// Hashes merged into a database whose items have no hashes yet, and whose
/// items have pairwise distinct ids, come back out of it: an id has hashes
/// exactly when the merged hashes hold a non-empty list for it and the
/// database has an item with that id, and its hashes are that list (these
/// are what `MktData::hashes` gives).
pub proof fn lemma_merged_hashes_come_back(before: MktData, after: MktData, h: MktItemHashes, k: Seq<char>)
    requires
        hashes_added(before.drivers@, after.drivers@, h.hash_map()),
        hashes_added(before.karts@, after.karts@, h.hash_map()),
        hashes_added(before.gliders@, after.gliders@, h.hash_map()),
        bare_items(before.drivers@ + before.karts@ + before.gliders@),
    ensures
        data_has_hashes(after, k) <==> ((has_item_id(before.drivers@, k) || has_item_id(before.karts@, k) || has_item_id(
            before.gliders@,
            k,
        )) && h.hash_map().contains_key(k) && h.hash_map()[k].len() > 0),
        data_has_hashes(after, k) ==> data_hashes_for(after, k) == views(h.hash_map()[k]),
{
    let d = before.drivers@;
    let ka = before.karts@;
    let g = before.gliders@;
    let all = d + ka + g;
    assert(d =~= all.subrange(0, d.len() as int));
    assert(ka =~= all.subrange(d.len() as int, (d.len() + ka.len()) as int));
    assert(g =~= all.subrange((d.len() + ka.len()) as int, all.len() as int));
    lemma_bare_part(all, 0, d.len() as int);
    lemma_bare_part(all, d.len() as int, (d.len() + ka.len()) as int);
    lemma_bare_part(all, (d.len() + ka.len()) as int, all.len() as int);
    lemma_list_hashes_back(d, after.drivers@, h.hash_map(), k);
    lemma_list_hashes_back(ka, after.karts@, h.hash_map(), k);
    lemma_list_hashes_back(g, after.gliders@, h.hash_map(), k);
    let hk = h.hash_map().contains_key(k);
    assert(!(has_item_id(d, k) && has_item_id(ka, k))) by {
        if has_item_id(d, k) && has_item_id(ka, k) {
            let i = choose|i: int| 0 <= i < d.len() && #[trigger] d[i].1.id@ == k;
            let j = choose|j: int| 0 <= j < ka.len() && #[trigger] ka[j].1.id@ == k;
            assert(all[i] == d[i] && all[d.len() + j] == ka[j]);
        }
    }
    assert(!(has_item_id(d, k) && has_item_id(g, k))) by {
        if has_item_id(d, k) && has_item_id(g, k) {
            let i = choose|i: int| 0 <= i < d.len() && #[trigger] d[i].1.id@ == k;
            let j = choose|j: int| 0 <= j < g.len() && #[trigger] g[j].1.id@ == k;
            assert(all[i] == d[i] && all[d.len() + ka.len() + j] == g[j]);
        }
    }
    assert(!(has_item_id(ka, k) && has_item_id(g, k))) by {
        if has_item_id(ka, k) && has_item_id(g, k) {
            let i = choose|i: int| 0 <= i < ka.len() && #[trigger] ka[i].1.id@ == k;
            let j = choose|j: int| 0 <= j < g.len() && #[trigger] g[j].1.id@ == k;
            assert(all[d.len() + i] == ka[i] && all[d.len() + ka.len() + j] == g[j]);
        }
    }
    if data_has_hashes(after, k) {
        let e = Seq::<Seq<char>>::empty();
        let v = views(h.hash_map()[k]);
        if has_item_id(d, k) {
            assert(data_hashes_for(after, k) =~= v + e + e);
        } else if has_item_id(ka, k) {
            assert(data_hashes_for(after, k) =~= e + v + e);
        } else {
            assert(data_hashes_for(after, k) =~= e + e + v);
        }
    }
}


/// The favored and the owned count of type `t` in course statistics.
pub open spec fn counts_of(s: CourseStats, t: ItemType) -> (usize, usize) {
    match t {
        ItemType::Driver => (s.driver_count, s.driver_owned_count),
        ItemType::Kart => (s.kart_count, s.kart_owned_count),
        ItemType::Glider => (s.glider_count, s.glider_owned_count),
    }
}

/// The joined list of type `t`.
pub open spec fn list_of(
    drivers: Seq<(String, DataInvItem)>,
    karts: Seq<(String, DataInvItem)>,
    gliders: Seq<(String, DataInvItem)>,
    t: ItemType,
) -> Seq<(String, DataInvItem)> {
    match t {
        ItemType::Driver => drivers,
        ItemType::Kart => karts,
        ItemType::Glider => gliders,
    }
}

proof fn lemma_covered_when_all_reach(reqs: Seq<ItemRequirement>, n: int, t: ItemType, items: Seq<(String, DataInvItem)>)
    requires
        n <= reqs.len(),
        forall|j: int|
            0 <= j < reqs.len() && item_type_of_id(reqs[j].id@) == Some(t) ==> owned_level(items, (#[trigger] reqs[j]).id@)
                >= reqs[j].lvl,
    ensures
        covered(reqs, n, t, items) == needed(reqs, n, t),
    decreases n,
{
    if n > 0 {
        lemma_covered_when_all_reach(reqs, n - 1, t, items);
        assert(item_type_of_id(reqs[n - 1].id@) == Some(t) ==> owned_level(items, reqs[n - 1].id@) >= reqs[n - 1].lvl);
    }
}

proof fn lemma_covered_when_none_reach(reqs: Seq<ItemRequirement>, n: int, t: ItemType, items: Seq<(String, DataInvItem)>)
    requires
        n <= reqs.len(),
        forall|j: int|
            0 <= j < reqs.len() && item_type_of_id(reqs[j].id@) == Some(t) ==> owned_level(items, (#[trigger] reqs[j]).id@)
                < reqs[j].lvl,
    ensures
        covered(reqs, n, t, items) == 0,
    decreases n,
{
    if n > 0 {
        lemma_covered_when_none_reach(reqs, n - 1, t, items);
        assert(item_type_of_id(reqs[n - 1].id@) == Some(t) ==> owned_level(items, reqs[n - 1].id@) < reqs[n - 1].lvl);
    }
}

/// A favored item counts as owned on a course exactly when the player owns
/// it at the course's required level or above, for every item type alike:
/// where every favored item of a type is owned at least at its required
/// level, all of them count as owned; where every one is owned below it,
/// none does.
pub proof fn lemma_owned_from_required_level(
    reqs: Seq<ItemRequirement>,
    drivers: Seq<(String, DataInvItem)>,
    karts: Seq<(String, DataInvItem)>,
    gliders: Seq<(String, DataInvItem)>,
    t: ItemType,
)
    ensures
        (forall|j: int|
            0 <= j < reqs.len() && item_type_of_id(reqs[j].id@) == Some(t) ==> owned_level(
                list_of(drivers, karts, gliders, t),
                (#[trigger] reqs[j]).id@,
            ) >= reqs[j].lvl) ==> counts_of(course_stats_of(reqs, drivers, karts, gliders), t).1 == counts_of(
            course_stats_of(reqs, drivers, karts, gliders),
            t,
        ).0,
        (forall|j: int|
            0 <= j < reqs.len() && item_type_of_id(reqs[j].id@) == Some(t) ==> owned_level(
                list_of(drivers, karts, gliders, t),
                (#[trigger] reqs[j]).id@,
            ) < reqs[j].lvl) ==> counts_of(course_stats_of(reqs, drivers, karts, gliders), t).1 == 0,
{
    let n = reqs.len() as int;
    let items = list_of(drivers, karts, gliders, t);
    if forall|j: int|
        0 <= j < reqs.len() && item_type_of_id(reqs[j].id@) == Some(t) ==> owned_level(items, (#[trigger] reqs[j]).id@)
            >= reqs[j].lvl {
        lemma_covered_when_all_reach(reqs, n, t, items);
    }
    if forall|j: int|
        0 <= j < reqs.len() && item_type_of_id(reqs[j].id@) == Some(t) ==> owned_level(items, (#[trigger] reqs[j]).id@)
            < reqs[j].lvl {
        lemma_covered_when_none_reach(reqs, n, t, items);
    }
}

/// The number of line ends in a text.
pub open spec fn line_ends(s: Seq<char>) -> int
    decreases s.len(),
{
    if s.len() == 0 {
        0
    } else {
        line_ends(s.drop_last()) + if s.last() == '\n' {
            1int
        } else {
            0int
        }
    }
}

/// The number of entries of a list that the player owns.
pub open spec fn owned_count(s: Seq<(String, DataInvItem)>) -> int
    decreases s.len(),
{
    if s.len() == 0 {
        0
    } else {
        owned_count(s.drop_last()) + if s.last().1.inv is Some {
            1int
        } else {
            0int
        }
    }
}

/// No owned entry of a list has a line end in its name.
pub open spec fn names_one_line(s: Seq<(String, DataInvItem)>) -> bool {
    forall|i: int| 0 <= i < s.len() && (#[trigger] s[i]).1.inv is Some ==> line_ends(s[i].1.data.name@) == 0
}

proof fn lemma_line_ends_add(a: Seq<char>, b: Seq<char>)
    ensures
        line_ends(a + b) == line_ends(a) + line_ends(b),
    decreases b.len(),
{
    if b.len() == 0 {
        assert(a + b =~= a);
    } else {
        lemma_line_ends_add(a, b.drop_last());
        assert((a + b).drop_last() =~= a + b.drop_last());
    }
}

proof fn lemma_decimal_one_line(n: nat)
    ensures
        line_ends(decimal(n)) == 0,
    decreases n,
{
    let c = digit_char(n % 10);
    assert(c != '\n');
    if n < 10 {
        assert(seq![digit_char(n)].drop_last() =~= Seq::<char>::empty());
        assert(seq![digit_char(n)].last() == digit_char(n));
        assert(line_ends(Seq::<char>::empty()) == 0);
    } else {
        lemma_decimal_one_line(n / 10);
        assert(decimal(n).drop_last() =~= decimal(n / 10));
        assert(decimal(n).last() == c);
    }
}

proof fn lemma_sheet_line_ends(name: Seq<char>, lvl: u8, points: u16)
    requires
        line_ends(name) == 0,
    ensures
        line_ends(sheet_line(name, lvl, points)) == 1,
{
    lemma_decimal_one_line(lvl as nat);
    lemma_decimal_one_line(points as nat);
    let a = name + seq![','];
    let b = a + decimal(lvl as nat);
    let c = b + seq![',', '0', ','];
    let e = c + decimal(points as nat);
    assert(line_ends(Seq::<char>::empty()) == 0);
    let s1 = seq![','];
    assert(s1.drop_last() =~= Seq::<char>::empty());
    assert(s1.last() == ',');
    assert(line_ends(s1) == 0);
    let s3 = seq![',', '0', ','];
    let s2 = seq![',', '0'];
    assert(s2.drop_last() =~= s1);
    assert(s2.last() == '0');
    assert(line_ends(s2) == 0);
    assert(s3.drop_last() =~= s2);
    assert(s3.last() == ',');
    assert(line_ends(s3) == 0);
    let s4 = seq!['\n'];
    assert(s4.drop_last() =~= Seq::<char>::empty());
    assert(s4.last() == '\n');
    assert(line_ends(s4) == 1);
    lemma_line_ends_add(name, s1);
    lemma_line_ends_add(a, decimal(lvl as nat));
    lemma_line_ends_add(b, s3);
    lemma_line_ends_add(c, decimal(points as nat));
    lemma_line_ends_add(e, s4);
    assert(sheet_line(name, lvl, points) == e + s4);
}

proof fn lemma_owned_lines_count(s: Seq<(String, DataInvItem)>, n: int)
    requires
        0 <= n <= s.len(),
        names_one_line(s),
    ensures
        owned_lines(s, n).len() == owned_count(s.take(n)),
        forall|i: int| 0 <= i < owned_lines(s, n).len() ==> line_ends(#[trigger] owned_lines(s, n)[i].1) == 1,
    decreases n,
{
    if n > 0 {
        lemma_owned_lines_count(s, n - 1);
        assert(s.take(n).drop_last() =~= s.take(n - 1));
        assert(s.take(n).last() == s[n - 1]);
        let e = s[n - 1].1;
        if e.inv is Some {
            lemma_sheet_line_ends(e.data.name@, e.inv->0.lvl, e.inv->0.points);
        }
    } else {
        assert(s.take(0) =~= Seq::<(String, DataInvItem)>::empty());
    }
}

proof fn lemma_joined_line_ends(lines: Seq<Seq<char>>)
    requires
        forall|i: int| 0 <= i < lines.len() ==> line_ends(#[trigger] lines[i]) == 1,
    ensures
        line_ends(joined(lines)) == lines.len(),
    decreases lines.len(),
{
    if lines.len() > 0 {
        lemma_joined_line_ends(lines.drop_last());
        lemma_line_ends_add(joined(lines.drop_last()), lines.last());
    }
}

/// Every owned item of the inventory, driver, kart or glider, has exactly
/// one line in the MKTHub sheet, after the heading line: the sheet has one
/// line end more than there are owned entries (no owned item's name runs
/// over two lines).
pub proof fn lemma_sheet_line_per_owned_item(d: DataInventory)
    requires
        names_one_line(d.drivers@),
        names_one_line(d.karts@),
        names_one_line(d.gliders@),
    ensures
        line_ends(mkthub_sheet(d)) == line_ends(sheet_heading()) + owned_count(d.drivers@) + owned_count(
            d.karts@,
        ) + owned_count(d.gliders@),
{
    let a = owned_lines(d.drivers@, d.drivers@.len() as int);
    let b = owned_lines(d.karts@, d.karts@.len() as int);
    let c = owned_lines(d.gliders@, d.gliders@.len() as int);
    lemma_owned_lines_count(d.drivers@, d.drivers@.len() as int);
    lemma_owned_lines_count(d.karts@, d.karts@.len() as int);
    lemma_owned_lines_count(d.gliders@, d.gliders@.len() as int);
    assert(d.drivers@.take(d.drivers@.len() as int) =~= d.drivers@);
    assert(d.karts@.take(d.karts@.len() as int) =~= d.karts@);
    assert(d.gliders@.take(d.gliders@.len() as int) =~= d.gliders@);
    let all = a + b + c;
    assert forall|i: int| 0 <= i < all.len() implies line_ends(#[trigger] all[i].1) == 1 by {
        if i < a.len() {
            assert(all[i] == a[i]);
        } else if i < a.len() + b.len() {
            assert(all[i] == b[i - a.len()]);
        } else {
            assert(all[i] == c[i - a.len() - b.len()]);
        }
    }
    lemma_sorted_members(all);
    let sorted = stable_sorted(all);
    let lines = sorted.map_values(|e: (int, Seq<char>)| e.1);
    assert forall|i: int| 0 <= i < lines.len() implies line_ends(#[trigger] lines[i]) == 1 by {
        assert(all.contains(sorted[i]));
        let q = choose|q: int| 0 <= q < all.len() && all[q] == sorted[i];
        assert(line_ends(all[q].1) == 1);
    }
    lemma_joined_line_ends(lines);
    lemma_line_ends_add(sheet_heading(), joined(lines));
}

/// A star mark makes a link a favorite: one, two or three stars give a
/// favorite level (3, 6 or 8), and more stars a higher one; any other count
/// gives none.
pub proof fn lemma_star_marks_rank(a: usize, b: usize)
    ensures
        1 <= a <= 3 ==> star_level(a) == 3 || star_level(a) == 6 || star_level(a) == 8,
        1 <= a < b <= 3 ==> 0 < star_level(a) < star_level(b),
        (a == 0 || a > 3) ==> star_level(a) == 0,
{
}

/// Importing owned items takes their level and points: after the merge,
/// every imported item has exactly the imported level and points, whether
/// or not the player had it and whichever of the two changed.
pub proof fn lemma_import_takes_level_and_points(
    old_inv: Map<Seq<char>, OwnedItemView>,
    new_inv: Map<Seq<char>, OwnedItemView>,
    k: Seq<char>,
)
    requires
        new_inv.contains_key(k),
    ensures
        merged_maps::<crate::model::OwnedItem>(old_inv, new_inv)[k].lvl == new_inv[k].lvl,
        merged_maps::<crate::model::OwnedItem>(old_inv, new_inv)[k].points == new_inv[k].points,
{
}


proof fn lemma_counts_prefix(
    reqs: Seq<ItemRequirement>,
    r: ItemRequirement,
    m: int,
    t: ItemType,
    items: Seq<(String, DataInvItem)>,
)
    requires
        0 <= m <= reqs.len(),
    ensures
        needed(reqs.push(r), m, t) == needed(reqs, m, t),
        covered(reqs.push(r), m, t, items) == covered(reqs, m, t, items),
    decreases m,
{
    if m > 0 {
        lemma_counts_prefix(reqs, r, m - 1, t, items);
        let p = reqs.push(r);
        assert(p[m - 1] == reqs[m - 1]);
        assert(first_time(p, m - 1) == first_time(reqs, m - 1)) by {
            assert forall|j: int| 0 <= j < m - 1 implies p[j] == reqs[j] by {}
        }
    }
}

/// Each further favored item of a course, not listed before, adds one to
/// the course's count of its type and nothing to the other types; it adds
/// one to the owned count of its type exactly when the player owns it at
/// the required level or above.
pub proof fn lemma_course_stats_grow(
    reqs: Seq<ItemRequirement>,
    r: ItemRequirement,
    drivers: Seq<(String, DataInvItem)>,
    karts: Seq<(String, DataInvItem)>,
    gliders: Seq<(String, DataInvItem)>,
    t: ItemType,
    u: ItemType,
)
    requires
        reqs.len() < usize::MAX,
        item_type_of_id(r.id@) == Some(t),
        forall|j: int| 0 <= j < reqs.len() ==> (#[trigger] reqs[j])@ != r@,
    ensures
        counts_of(course_stats_of(reqs.push(r), drivers, karts, gliders), t).0 == counts_of(
            course_stats_of(reqs, drivers, karts, gliders),
            t,
        ).0 + 1,
        counts_of(course_stats_of(reqs.push(r), drivers, karts, gliders), t).1 == counts_of(
            course_stats_of(reqs, drivers, karts, gliders),
            t,
        ).1 + if owned_level(list_of(drivers, karts, gliders, t), r.id@) >= r.lvl {
            1int
        } else {
            0int
        },
        u != t ==> counts_of(course_stats_of(reqs.push(r), drivers, karts, gliders), u) == counts_of(
            course_stats_of(reqs, drivers, karts, gliders),
            u,
        ),
{
    let n = reqs.len() as int;
    let p = reqs.push(r);
    assert(p[n] == r);
    assert(first_time(p, n)) by {
        assert forall|j: int| 0 <= j < n implies #[trigger] p[j]@ != p[n]@ by {
            assert(p[j] == reqs[j]);
        }
    }
    assert(p.len() == n + 1);
    let items_t = list_of(drivers, karts, gliders, t);
    let items_u = list_of(drivers, karts, gliders, u);
    lemma_counts_prefix(reqs, r, n, t, items_t);
    lemma_counts_prefix(reqs, r, n, u, items_u);
    lemma_needed_within(reqs, n, t);
    lemma_needed_within(reqs, n, u);
    lemma_covered_within(reqs, n, t, items_t);
    lemma_covered_within(reqs, n, u, items_u);
}

/// Merging a newer owned record: where its level or points differ, the
/// merge is stamped with the newer record's change date and keeps the date
/// the item was first added; where id, level and points are all the same,
/// the older record stays as it was.
pub proof fn lemma_owned_merge_stamps(a: OwnedItemView, b: OwnedItemView)
    ensures
        (a.lvl != b.lvl || a.points != b.points) ==> owned_merged(a, b).last_changed == b.last_changed,
        a.added is Some ==> owned_merged(a, b).added == a.added,
        (a.id == b.id && a.lvl == b.lvl && a.points == b.points) ==> owned_merged(a, b) == a,
{
}


/// `piece` stands in `s` from position `p` on.
pub open spec fn stands_at(s: Seq<char>, p: int, piece: Seq<char>) -> bool {
    0 <= p && p + piece.len() <= s.len() && s.subrange(p, p + piece.len()) == piece
}

/// The list of type `t` of a joined database and inventory.
pub open spec fn inv_list(d: DataInventory, t: ItemType) -> Seq<(String, DataInvItem)> {
    match t {
        ItemType::Driver => d.drivers@,
        ItemType::Kart => d.karts@,
        ItemType::Glider => d.gliders@,
    }
}

proof fn lemma_owned_lines_has(s: Seq<(String, DataInvItem)>, n: int, i: int)
    requires
        0 <= i < n <= s.len(),
        s[i].1.inv is Some,
    ensures
        owned_lines(s, n).contains(
            (
                sheet_key(s[i].1.data.i_type, s[i].1.data.sort),
                sheet_line(s[i].1.data.name@, s[i].1.inv->0.lvl, s[i].1.inv->0.points),
            ),
        ),
    decreases n,
{
    let x = (
        sheet_key(s[i].1.data.i_type, s[i].1.data.sort),
        sheet_line(s[i].1.data.name@, s[i].1.inv->0.lvl, s[i].1.inv->0.points),
    );
    let prev = owned_lines(s, n - 1);
    if i == n - 1 {
        assert(owned_lines(s, n) == prev.push(x));
        assert(owned_lines(s, n)[prev.len() as int] == x);
    } else {
        lemma_owned_lines_has(s, n - 1, i);
        let q = choose|q: int| 0 <= q < prev.len() && prev[q] == x;
        if s[n - 1].1.inv is Some {
            assert(owned_lines(s, n)[q] == prev[q]);
        }
    }
}

proof fn lemma_sorted_keeps(s: Seq<(int, Seq<char>)>, y: (int, Seq<char>))
    requires
        s.contains(y),
    ensures
        stable_sorted(s).contains(y),
    decreases s.len(),
{
    let pre = s.drop_last();
    let ss = stable_sorted(pre);
    lemma_first_above_len(ss, s.last().0);
    let p = first_above(ss, s.last().0) as int;
    let r = stable_sorted(s);
    assert(r == ss.take(p) + seq![s.last()] + ss.skip(p));
    if y == s.last() {
        assert(r[p] == y);
    } else {
        let k = choose|k: int| 0 <= k < s.len() && s[k] == y;
        assert(k < s.len() - 1);
        assert(pre[k] == y);
        lemma_sorted_keeps(pre, y);
        let q = choose|q: int| 0 <= q < ss.len() && ss[q] == y;
        if q < p {
            assert(r[q] == y);
        } else {
            assert(r[q + 1] == y);
        }
    }
}

proof fn lemma_joined_has(lines: Seq<Seq<char>>, k: int)
    requires
        0 <= k < lines.len(),
    ensures
        exists|p: int| stands_at(joined(lines), p, #[trigger] lines[k]),
    decreases lines.len(),
{
    let pre = lines.drop_last();
    let a = joined(pre);
    assert(joined(lines) == a + lines.last());
    if k == lines.len() - 1 {
        assert((a + lines.last()).subrange(a.len() as int, (a.len() + lines[k].len()) as int) =~= lines[k]);
        assert(stands_at(joined(lines), a.len() as int, lines[k]));
    } else {
        lemma_joined_has(pre, k);
        assert(pre[k] == lines[k]);
        let p = choose|p: int| stands_at(a, p, #[trigger] pre[k]);
        assert((a + lines.last()).subrange(p, p + lines[k].len()) =~= a.subrange(p, p + lines[k].len()));
        assert(stands_at(joined(lines), p, lines[k]));
    }
}

/// Every owned item has its line in the MKTHub sheet: its name, level,
/// skill 0 and points, separated by commas and ended by a line end.
pub proof fn lemma_sheet_lists_owned_item(d: DataInventory, t: ItemType, i: int)
    requires
        0 <= i < inv_list(d, t).len(),
        inv_list(d, t)[i].1.inv is Some,
    ensures
        exists|p: int|
            stands_at(
                mkthub_sheet(d),
                p,
                inv_list(d, t)[i].1.data.name@ + seq![','] + decimal(inv_list(d, t)[i].1.inv->0.lvl as nat) + seq![
                    ',',
                    '0',
                    ',',
                ] + decimal(inv_list(d, t)[i].1.inv->0.points as nat) + seq!['\n'],
            ),
{
    let s = inv_list(d, t);
    let e = s[i].1;
    let line = e.data.name@ + seq![','] + decimal(e.inv->0.lvl as nat) + seq![',', '0', ','] + decimal(
        e.inv->0.points as nat,
    ) + seq!['\n'];
    let x = (sheet_key(e.data.i_type, e.data.sort), line);
    assert(sheet_line(e.data.name@, e.inv->0.lvl, e.inv->0.points) == line);
    let a = owned_lines(d.drivers@, d.drivers@.len() as int);
    let b = owned_lines(d.karts@, d.karts@.len() as int);
    let c = owned_lines(d.gliders@, d.gliders@.len() as int);
    let all = a + b + c;
    lemma_owned_lines_has(s, s.len() as int, i);
    match t {
        ItemType::Driver => {
            let q = choose|q: int| 0 <= q < a.len() && a[q] == x;
            assert(all[q] == x);
        },
        ItemType::Kart => {
            let q = choose|q: int| 0 <= q < b.len() && b[q] == x;
            assert(all[a.len() + q] == x);
        },
        ItemType::Glider => {
            let q = choose|q: int| 0 <= q < c.len() && c[q] == x;
            assert(all[a.len() + b.len() + q] == x);
        },
    }
    assert(all.contains(x));
    lemma_sorted_keeps(all, x);
    let sorted = stable_sorted(all);
    let lines = sorted.map_values(|y: (int, Seq<char>)| y.1);
    let k = choose|k: int| 0 <= k < sorted.len() && sorted[k] == x;
    assert(lines[k] == line);
    lemma_joined_has(lines, k);
    let p = choose|p: int| stands_at(joined(lines), p, #[trigger] lines[k]);
    let h = sheet_heading();
    assert(mkthub_sheet(d) == h + joined(lines));
    assert((h + joined(lines)).subrange(h.len() + p, h.len() + p + line.len()) =~= joined(lines).subrange(
        p,
        p + line.len(),
    ));
    assert(stands_at(mkthub_sheet(d), h.len() + p, line));
}


proof fn lemma_cell_links_each(cell: Seq<LinkView>, k: int, m: int)
    requires
        0 <= m <= cell.len(),
        cell_type(k) is Some,
        forall|i: int| 0 <= i < cell.len() ==> (#[trigger] cell[i]).0 is Some,
    ensures
        cell_links(cell, k, m).len() == m,
        forall|j: int|
            0 <= j < m ==> (#[trigger] cell_links(cell, k, m)[j]).2 == match cell[j].1 {
                Some(s) => star_level(s),
                None => crate::update::cell_level(k),
            },
    decreases m,
{
    if m > 0 {
        lemma_cell_links_each(cell, k, m - 1);
        assert(cell[m - 1].0 is Some);
        assert forall|j: int| 0 <= j < m implies (#[trigger] cell_links(cell, k, m)[j]).2 == match cell[j].1 {
            Some(s) => star_level(s),
            None => crate::update::cell_level(k),
        } by {
            if j < m - 1 {
                assert(cell_links(cell, k, m)[j] == cell_links(cell, k, m - 1)[j]);
            }
        }
    }
}

/// In a cell of favored items on a coverage page, a link marked with one,
/// two or three stars becomes a favorite at a favorite level (3, 6 or 8),
/// more stars giving a higher level than fewer.
pub proof fn lemma_starred_links_are_favorites(cell: Seq<LinkView>, k: int, i: int, j: int)
    requires
        cell_type(k) is Some,
        forall|x: int| 0 <= x < cell.len() ==> (#[trigger] cell[x]).0 is Some,
        0 <= i < cell.len(),
        0 <= j < cell.len(),
        cell[i].1 matches Some(s) && 1 <= s <= 3,
    ensures
        cell_links(cell, k, cell.len() as int)[i].2 == 3 || cell_links(cell, k, cell.len() as int)[i].2 == 6
            || cell_links(cell, k, cell.len() as int)[i].2 == 8,
        (cell[j].1 matches Some(s2) && cell[i].1->0 < s2 <= 3) ==> cell_links(cell, k, cell.len() as int)[i].2
            < cell_links(cell, k, cell.len() as int)[j].2,
{
    lemma_cell_links_each(cell, k, cell.len() as int);
}

} // verus!
