//! What the importer does with the recognition results of a set of
//! screenshots: point counts from digits, hash bootstrapping from a full
//! item list, and the inventory and new hashes of an import.
use vstd::prelude::*;
use crate::data::{
    data_has_hashes, data_hashes_for, grouped, pair_has_key, pair_views, pairs_for, type_in_data,
    MktData, MktInventory, MktItemHashes,
};
use crate::deduce::{
    deduce_missing_owned_items, deduced_ids, end_marker, lemma_deduction_fills_from_type, result_views,
    type_list, ItemPoints, OwnedItemResult, OwnedItemResultView,
};
use crate::ids::{item_type_from_id, item_type_of_id, ItemId, ItemLvl, ItemType};
use crate::keyed::entries_map;
use crate::model::{Item, OwnedItem, OwnedItemView};
use crate::screenshot::{
    closest_item, closest_known, dist_hash, hash_distance, known_views, HASH_ITEM_THRESHOLD,
};
use crate::text::views;

verus! {

/// 10 to the `k`.
pub open spec fn pow10(k: nat) -> nat
    decreases k,
{
    if k == 0 {
        1
    } else {
        10 * pow10((k - 1) as nat)
    }
}

/// The point count of the first `n` digits read from an item picture (units
/// first): digit `d` at place `k` counts `d * 10^k` when that is under 2000;
/// `None` when no digit counts.
pub open spec fn digits_points(d: Seq<Option<u16>>, n: int) -> Option<int>
    decreases n,
{
    if n <= 0 {
        None
    } else {
        let rest = digits_points(d, n - 1);
        match d[n - 1] {
            Some(x) => if x * pow10((n - 1) as nat) < 2000 {
                Some(
                    x * pow10((n - 1) as nat) + match rest {
                        Some(v) => v,
                        None => 0,
                    },
                )
            } else {
                rest
            },
            None => rest,
        }
    }
}

proof fn lemma_digits_points_bound(d: Seq<Option<u16>>, n: int)
    ensures
        digits_points(d, n) matches Some(v) ==> 0 <= v < 2000 * n,
    decreases n,
{
    if n > 0 {
        lemma_digits_points_bound(d, n - 1);
    }
}

/// The point count that the digits read from an item picture give (units
/// first); each digit is at most 9.
pub fn points_from_digits(digits: &Vec<Option<u16>>) -> (r: Option<u16>)
    requires
        digits@.len() <= 4,
        forall|i: int| 0 <= i < digits@.len() ==> (#[trigger] digits@[i] matches Some(x) ==> x <= 9),
    ensures
        match digits_points(digits@, digits@.len() as int) {
            Some(v) => r == Some(#[verifier::truncate] (v as u16)),
            None => r is None,
        },
{
    let mut points: Option<u16> = None;
    let mut num: usize = 0;
    while num < digits.len()
        invariant
            digits@.len() <= 4,
            num <= digits@.len(),
            forall|i: int| 0 <= i < digits@.len() ==> (#[trigger] digits@[i] matches Some(x) ==> x <= 9),
            match digits_points(digits@, num as int) {
                Some(v) => points == Some(#[verifier::truncate] (v as u16)),
                None => points is None,
            },
        decreases digits@.len() - num,
    {
        proof {
            lemma_digits_points_bound(digits@, num as int);
        }
        let place: u32 = if num == 0 {
            1
        } else if num == 1 {
            10
        } else if num == 2 {
            100
        } else {
            1000
        };
        assert(place == pow10(num as nat)) by {
            reveal_with_fuel(pow10, 4);
        }
        if let Some(d) = digits[num] {
            let p: u32 = (d as u32) * place;
            if p < 2000 {
                let before: u32 = match points {
                    Some(v) => v as u32,
                    None => 0,
                };
                points = Some((p + before) as u16);
            }
        }
        num = num + 1;
    }
    points
}

/// Lexicographic order of texts by character code.
pub open spec fn text_less(a: Seq<char>, b: Seq<char>) -> bool
    decreases a.len(),
{
    if a.len() == 0 {
        b.len() > 0
    } else if b.len() == 0 {
        false
    } else if a[0] != b[0] {
        (a[0] as u32) < (b[0] as u32)
    } else {
        text_less(a.drop_first(), b.drop_first())
    }
}

/// Whether text `a` sorts before text `b`, as `String`'s order does.
pub fn text_before(a: &str, b: &str) -> (r: bool)
    ensures
        r == text_less(a@, b@),
{
    let n = a.unicode_len();
    let m = b.unicode_len();
    let mut i: usize = 0;
    assert(a@.skip(0) =~= a@);
    assert(b@.skip(0) =~= b@);
    while i < n && i < m
        invariant
            n == a@.len(),
            m == b@.len(),
            i <= n,
            i <= m,
            text_less(a@, b@) == text_less(a@.skip(i as int), b@.skip(i as int)),
        decreases n - i,
    {
        let x = a.get_char(i);
        let y = b.get_char(i);
        assert(a@.skip(i as int)[0] == x);
        assert(b@.skip(i as int)[0] == y);
        if x != y {
            return (x as u32) < (y as u32);
        }
        assert(a@.skip(i as int).drop_first() =~= a@.skip(i + 1));
        assert(b@.skip(i as int).drop_first() =~= b@.skip(i + 1));
        i = i + 1;
    }
    i == n && i < m
}

/// Whether (sort number, id) `a` sorts before `b`: no number before any
/// number, then by number, then by id.
pub open spec fn sort_id_less(a: (Option<u32>, Seq<char>), b: (Option<u32>, Seq<char>)) -> bool {
    match (a.0, b.0) {
        (None, Some(_)) => true,
        (Some(_), None) => false,
        (Some(x), Some(y)) => if x != y {
            x < y
        } else {
            text_less(a.1, b.1)
        },
        (None, None) => text_less(a.1, b.1),
    }
}

/// Position of the first entry of `s` that `x` sorts before.
pub open spec fn first_after(s: Seq<(Option<u32>, Seq<char>)>, x: (Option<u32>, Seq<char>)) -> nat
    decreases s.len(),
{
    if s.len() == 0 {
        0
    } else if sort_id_less(x, s[0]) {
        0
    } else {
        1 + first_after(s.drop_first(), x)
    }
}

/// `s` sorted by (sort number, id).
pub open spec fn sorted_by_id(s: Seq<(Option<u32>, Seq<char>)>) -> Seq<(Option<u32>, Seq<char>)>
    decreases s.len(),
{
    if s.len() == 0 {
        s
    } else {
        let r = sorted_by_id(s.drop_last());
        let p = first_after(r, s.last()) as int;
        r.take(p) + seq![s.last()] + r.skip(p)
    }
}

proof fn lemma_first_after_bound(s: Seq<(Option<u32>, Seq<char>)>, x: (Option<u32>, Seq<char>))
    ensures
        first_after(s, x) <= s.len(),
    decreases s.len(),
{
    if s.len() > 0 {
        lemma_first_after_bound(s.drop_first(), x);
    }
}

proof fn lemma_sorted_len(s: Seq<(Option<u32>, Seq<char>)>)
    ensures
        sorted_by_id(s).len() == s.len(),
    decreases s.len(),
{
    if s.len() > 0 {
        lemma_sorted_len(s.drop_last());
        lemma_first_after_bound(sorted_by_id(s.drop_last()), s.last());
    }
}

/// The (sort number, id) of each item of a list.
pub open spec fn sort_ids(s: Seq<(String, Item)>) -> Seq<(Option<u32>, Seq<char>)> {
    s.map_values(|e: (String, Item)| (e.1.sort, e.1.id@))
}

/// The ids of a list's items in (sort number, id) order.
pub open spec fn bootstrap_ids(s: Seq<(String, Item)>) -> Seq<Seq<char>> {
    sorted_by_id(sort_ids(s)).map_values(|e: (Option<u32>, Seq<char>)| e.1)
}

fn option_u32_less(a: Option<u32>, b: Option<u32>, x: &str, y: &str) -> (r: bool)
    ensures
        r == sort_id_less((a, x@), (b, y@)),
{
    match (a, b) {
        (None, Some(_)) => true,
        (Some(_), None) => false,
        (Some(p), Some(q)) => if p != q {
            p < q
        } else {
            text_before(x, y)
        },
        (None, None) => text_before(x, y),
    }
}

/// The ids of a list's items in (sort number, id) order.
pub fn bootstrap_id_list(list: &Vec<(ItemId, Item)>) -> (r: Vec<String>)
    ensures
        views(r@) == bootstrap_ids(list@),
        r@.len() == list@.len(),
{
    let mut sorted: Vec<(Option<u32>, String)> = Vec::new();
    let mut i: usize = 0;
    while i < list.len()
        invariant
            i <= list@.len(),
            sorted@.map_values(|e: (Option<u32>, String)| (e.0, e.1@)) == sorted_by_id(
                sort_ids(list@).take(i as int),
            ),
        decreases list@.len() - i,
    {
        let sort = list[i].1.sort;
        let id = list[i].1.id.clone();
        let ghost sv = sorted@.map_values(|e: (Option<u32>, String)| (e.0, e.1@));
        let ghost pre = sort_ids(list@).take(i as int);
        let ghost post = sort_ids(list@).take(i + 1);
        assert(post.drop_last() =~= pre);
        assert(post.last() == (sort, id@));
        let mut p: usize = 0;
        assert(sv.skip(0) =~= sv);
        while p < sorted.len() && !option_u32_less(sort, sorted[p].0, id.as_str(), sorted[p].1.as_str())
            invariant
                sv == sorted@.map_values(|e: (Option<u32>, String)| (e.0, e.1@)),
                p <= sorted@.len(),
                first_after(sv, (sort, id@)) == p + first_after(sv.skip(p as int), (sort, id@)),
            decreases sorted@.len() - p,
        {
            assert(sv.skip(p as int)[0] == sv[p as int]);
            assert(sv.skip(p as int).drop_first() =~= sv.skip(p + 1));
            p = p + 1;
        }
        proof {
            if p < sorted@.len() {
                assert(sv.skip(p as int)[0] == sv[p as int]);
            } else {
                assert(sv.skip(p as int).len() == 0);
            }
        }
        sorted.insert(p, (sort, id));
        assert(sorted@.map_values(|e: (Option<u32>, String)| (e.0, e.1@)) =~= sv.take(p as int) + seq![
            (sort, id@),
        ] + sv.skip(p as int));
        i = i + 1;
    }
    assert(sort_ids(list@).take(list@.len() as int) =~= sort_ids(list@));
    proof {
        lemma_sorted_len(sort_ids(list@));
    }
    let mut out: Vec<String> = Vec::new();
    let mut j: usize = 0;
    while j < sorted.len()
        invariant
            j <= sorted@.len(),
            views(out@) =~= sorted@.take(j as int).map_values(|e: (Option<u32>, String)| e.1@),
        decreases sorted@.len() - j,
    {
        let ghost before = views(out@);
        out.push(sorted[j].1.clone());
        assert(views(out@) =~= before.push(sorted@[j as int].1@));
        assert(sorted@.take(j + 1).map_values(|e: (Option<u32>, String)| e.1@) =~= sorted@.take(
            j as int,
        ).map_values(|e: (Option<u32>, String)| e.1@).push(sorted@[j as int].1@));
        j = j + 1;
    }
    assert(sorted@.take(sorted@.len() as int) =~= sorted@);
    assert(views(out@) =~= bootstrap_ids(list@));
    out
}

/// The results of screenshot row `c` (four items to a row; the last row
/// may be shorter).
pub open spec fn row_at(items: Seq<OwnedItemResultView>, c: int) -> Seq<OwnedItemResultView> {
    items.subrange(4 * c, if 4 * c + 4 <= items.len() { 4 * c + 4 } else { items.len() as int })
}

/// The number of rows of `n` results.
pub open spec fn row_count(n: nat) -> int {
    ((n + 3) / 4) as int
}

/// Whether hash `h` is close to one of `seen`.
pub open spec fn hash_seen(h: Seq<char>, seen: Seq<Seq<char>>) -> bool {
    exists|j: int| 0 <= j < seen.len() && hash_distance(h, #[trigger] seen[j]) < HASH_ITEM_THRESHOLD
}

/// Whether every result of a row has a hash close to one of `seen`.
pub open spec fn row_seen(row: Seq<OwnedItemResultView>, seen: Seq<Seq<char>>) -> bool {
    forall|i: int| 0 <= i < row.len() ==> hash_seen(#[trigger] row[i].hash, seen)
}

/// The hashes kept and the results kept after the first `c` rows: a row
/// all of whose items were seen before repeats an earlier row (the
/// screenshots overlap) and is dropped.
pub open spec fn dedupe_rows(items: Seq<OwnedItemResultView>, c: int) -> (
    Seq<Seq<char>>,
    Seq<OwnedItemResultView>,
)
    decreases c,
{
    if c <= 0 {
        (Seq::<Seq<char>>::empty(), Seq::<OwnedItemResultView>::empty())
    } else {
        let (seen, kept) = dedupe_rows(items, c - 1);
        let row = row_at(items, c - 1);
        if row_seen(row, seen) {
            (seen, kept)
        } else {
            (seen + row.map_values(|r: OwnedItemResultView| r.hash), kept + row)
        }
    }
}

/// The results kept once repeated rows are dropped.
pub open spec fn kept_rows(items: Seq<OwnedItemResultView>) -> Seq<OwnedItemResultView> {
    dedupe_rows(items, row_count(items.len())).1
}

fn seen_before(h: &str, seen: &Vec<String>) -> (r: bool)
    ensures
        r == hash_seen(h@, views(seen@)),
{
    let mut j: usize = 0;
    while j < seen.len()
        invariant
            j <= seen@.len(),
            forall|q: int| 0 <= q < j ==> hash_distance(h@, #[trigger] views(seen@)[q]) >= HASH_ITEM_THRESHOLD,
        decreases seen@.len() - j,
    {
        if dist_hash(h, seen[j].as_str()) < HASH_ITEM_THRESHOLD {
            assert(views(seen@)[j as int] == seen@[j as int]@);
            return true;
        }
        assert(views(seen@)[j as int] == seen@[j as int]@);
        j = j + 1;
    }
    false
}

impl OwnedItemResult {
    /// A copy of the result.
    pub fn duplicate(&self) -> (r: Self)
        ensures
            r@ == self@,
    {
        OwnedItemResult {
            id: match &self.id {
                Some(s) => Some(s.clone()),
                None => None,
            },
            i_type: self.i_type,
            lvl: self.lvl,
            points: self.points,
            hash: self.hash.clone(),
            has_img: self.has_img,
        }
    }
}

proof fn lemma_row_count_step(n: int, c: int)
    requires
        0 <= 4 * c < n,
        n <= 4 * c + 4,
    ensures
        row_count(n as nat) == c + 1,
{
}

/// Drops the rows whose items all repeat items of earlier rows.
pub fn drop_repeated_rows(items: &Vec<OwnedItemResult>) -> (r: Vec<OwnedItemResult>)
    ensures
        result_views(r@) == kept_rows(result_views(items@)),
{
    let ghost v = result_views(items@);
    let n = items.len();
    let mut seen: Vec<String> = Vec::new();
    let mut kept: Vec<OwnedItemResult> = Vec::new();
    let mut start: usize = 0;
    let ghost mut c: int = 0;
    while start < n
        invariant
            n == items@.len(),
            v == result_views(items@),
            0 <= c,
            start <= n,
            start < n ==> start == 4 * c,
            start == n ==> c == row_count(n as nat),
            views(seen@) == dedupe_rows(v, c).0,
            result_views(kept@) == dedupe_rows(v, c).1,
        decreases n - start,
    {
        let end: usize = if n - start > 4 { start + 4 } else { n };
        let ghost row = row_at(v, c);
        assert(row =~= v.subrange(start as int, end as int));
        let mut all_seen = true;
        let mut q: usize = start;
        while q < end
            invariant
                start <= q <= end,
                end <= n,
                n == items@.len(),
                v == result_views(items@),
                row =~= v.subrange(start as int, end as int),
                all_seen == (forall|i: int| 0 <= i < q - start ==> hash_seen(#[trigger] row[i].hash, views(seen@))),
            decreases end - q,
        {
            let s = seen_before(items[q].hash.as_str(), &seen);
            assert(row[q - start] == v[q as int]);
            assert(v[q as int] == items@[q as int]@);
            if !s {
                all_seen = false;
            }
            proof {
                let h = row[q - start].hash;
                assert(h == items@[q as int].hash@);
                assert(s == hash_seen(h, views(seen@)));
                if all_seen {
                    assert forall|i: int| 0 <= i < q + 1 - start implies hash_seen(#[trigger] row[i].hash, views(seen@)) by {
                        if i == q - start {
                            assert(row[i].hash == h);
                        }
                    }
                } else if !s {
                    assert(!hash_seen(row[q - start].hash, views(seen@)));
                } else {
                    let w = choose|i: int| 0 <= i < q - start && !hash_seen(#[trigger] row[i].hash, views(seen@));
                    assert(0 <= w < q + 1 - start);
                }
            }
            q = q + 1;
        }
        assert(all_seen == row_seen(row, views(seen@)));
        if !all_seen {
            let mut q2: usize = start;
            let ghost seen0 = views(seen@);
            let ghost kept0 = result_views(kept@);
            while q2 < end
                invariant
                    start <= q2 <= end,
                    end <= n,
                    n == items@.len(),
                    v == result_views(items@),
                    row =~= v.subrange(start as int, end as int),
                    views(seen@) =~= seen0 + row.take(q2 - start).map_values(|r: OwnedItemResultView| r.hash),
                    result_views(kept@) =~= kept0 + row.take(q2 - start),
                decreases end - q2,
            {
                assert(row[q2 - start] == v[q2 as int]);
                let ghost sv0 = views(seen@);
                let ghost kv0 = result_views(kept@);
                seen.push(items[q2].hash.clone());
                kept.push(items[q2].duplicate());
                assert(views(seen@) =~= sv0.push(items@[q2 as int].hash@));
                assert(result_views(kept@) =~= kv0.push(items@[q2 as int]@));
                assert(row.take(q2 + 1 - start) =~= row.take(q2 - start).push(row[q2 - start]));
                q2 = q2 + 1;
            }
            assert(row.take(end - start) =~= row);
        }
        proof {
            if end == n {
                lemma_row_count_step(n as int, c);
            }
            c = c + 1;
        }
        start = end;
    }
    kept
}

#[derive(Debug, Clone, Copy, PartialEq, Eq, Structural)]
pub enum BootstrapError {
    /// The number of items found and the number of items of the type.
    WrongLength(usize, usize),
    MissingId,
}

/// The kept results with the first and last ids of the full item list set,
/// and all of the given type.
pub open spec fn prepared_rows(
    kept: Seq<OwnedItemResultView>,
    ids: Seq<Seq<char>>,
    t: ItemType,
) -> Seq<OwnedItemResultView> {
    Seq::new(
        kept.len(),
        |i: int|
            OwnedItemResultView {
                id: if i == kept.len() - 1 {
                    Some(ids.last())
                } else if i == 0 {
                    Some(ids[0])
                } else {
                    kept[i].id
                },
                i_type: Some(t),
                ..kept[i]
            },
    )
}

/// The (id, hash) pairs of results whose ids are all known.
pub open spec fn id_hash_pairs(
    rows: Seq<OwnedItemResultView>,
    ids: Seq<Option<Seq<char>>>,
) -> Seq<(Seq<char>, Seq<char>)> {
    Seq::new(rows.len(), |i: int| (ids[i]->0, rows[i].hash))
}

/// What a bootstrap of type `t` from `items` gives (see `bootstrap_hashes`).
pub open spec fn bootstrap_outcome(
    items: Seq<OwnedItemResult>,
    t: ItemType,
    d: MktData,
    r: Result<MktItemHashes, BootstrapError>,
) -> bool {
    let kept = kept_rows(result_views(items));
    let ids = bootstrap_ids(type_list(d, t));
    let rows = prepared_rows(kept, ids, t);
    let found = deduced_ids(rows, d);
    &&& kept.len() != ids.len() ==> r == Err::<MktItemHashes, BootstrapError>(
        BootstrapError::WrongLength(kept.len() as usize, ids.len() as usize),
    )
    &&& kept.len() == ids.len() && (exists|i: int| 0 <= i < rows.len() && (#[trigger] found[i]) is None)
        ==> r == Err::<MktItemHashes, BootstrapError>(BootstrapError::MissingId)
    &&& kept.len() == ids.len() && (forall|i: int| 0 <= i < rows.len() ==> (#[trigger] found[i]) is Some)
        ==> match r {
        Ok(h) => {
            &&& h.wf()
            &&& forall|k: Seq<char>| #[trigger] h.hash_map().contains_key(k) <==> pair_has_key(id_hash_pairs(rows, found), k)
            &&& forall|k: Seq<char>| #[trigger] h.hash_map().contains_key(k) ==> views(h.hash_map()[k]) == pairs_for(id_hash_pairs(rows, found), k)
        },
        Err(_) => false,
    }
}

/// Learns the hash of every item of a type from screenshots of the full
/// item list, in the game's order: repeated rows are dropped, the first and
/// last items are the first and last of the list, and the items in between
/// are deduced.
pub fn bootstrap_hashes(items: Vec<OwnedItemResult>, i_type: ItemType, data: &MktData) -> (r: Result<
    MktItemHashes,
    BootstrapError,
>)
    requires
        type_list(*data, i_type).len() > 0,
    ensures
        bootstrap_outcome(items@, i_type, *data, r),
{
    let list = match i_type {
        ItemType::Driver => &data.drivers,
        ItemType::Kart => &data.karts,
        ItemType::Glider => &data.gliders,
    };
    assert(list@ == type_list(*data, i_type));
    let ids = bootstrap_id_list(list);
    let mut kept = drop_repeated_rows(&items);
    let ghost kv = kept_rows(result_views(items@));
    if kept.len() != ids.len() {
        return Err(BootstrapError::WrongLength(kept.len(), ids.len()));
    }
    let n = kept.len();
    let ghost idv = views(ids@);
    assert(idv == bootstrap_ids(type_list(*data, i_type)));
    assert(kv.len() == kept@.len());
    // the first and last items of the list
    let first = ids[0].clone();
    let last_id = ids[n - 1].clone();
    let mut item0 = kept.remove(0);
    item0.id = Some(first);
    kept.insert(0, item0);
    let mut item_last = kept.remove(n - 1);
    item_last.id = Some(last_id);
    kept.insert(n - 1, item_last);
    let mut i: usize = 0;
    while i < n
        invariant
            n == kept@.len(),
            n == kv.len(),
            n == idv.len(),
            n > 0,
            forall|j: int|
                0 <= j < n ==> {
                    &&& (#[trigger] kept@[j])@.id == (if j == n - 1 {
                        Some(idv.last())
                    } else if j == 0 {
                        Some(idv[0])
                    } else {
                        kv[j].id
                    })
                    &&& kept@[j]@.lvl == kv[j].lvl
                    &&& kept@[j]@.points == kv[j].points
                    &&& kept@[j]@.hash == kv[j].hash
                    &&& kept@[j]@.has_img == kv[j].has_img
                    &&& kept@[j]@.i_type == (if j < i {
                        Some(i_type)
                    } else {
                        kv[j].i_type
                    })
                },
        decreases n - i,
    {
        let ghost cur = kept@;
        let mut it = kept.remove(i);
        it.i_type = Some(i_type);
        kept.insert(i, it);
        assert(kept@ =~= cur.update(i as int, it));
        i = i + 1;
    }
    let ghost rows = prepared_rows(kv, idv, i_type);
    assert(result_views(kept@) =~= rows);
    let ghost before_deduce = kept@;
    deduce_missing_owned_items(&mut kept, data);
    assert forall|j: int| 0 <= j < n implies (#[trigger] kept@[j]).hash@ == rows[j].hash by {
        assert(kept@[j].hash@ == before_deduce[j].hash@);
        assert(result_views(before_deduce)[j] == before_deduce[j]@);
    }
    let ghost found = deduced_ids(rows, *data);
    let mut pairs: Vec<(ItemId, String)> = Vec::new();
    let mut q: usize = 0;
    while q < n
        invariant
            n == kept@.len(),
            n == rows.len(),
            n == kv.len(),
            n == idv.len(),
            kv == kept_rows(result_views(items@)),
            idv == bootstrap_ids(type_list(*data, i_type)),
            rows == prepared_rows(kv, idv, i_type),
            found == deduced_ids(rows, *data),
            q <= n,
            forall|j: int| 0 <= j < n ==> crate::deduce::opt_view(#[trigger] kept@[j].id) == found[j],
            forall|j: int| 0 <= j < n ==> (#[trigger] kept@[j]).hash@ == rows[j].hash,
            forall|j: int| 0 <= j < q ==> (#[trigger] found[j]) is Some,
            pair_views(pairs@) =~= id_hash_pairs(rows, found).take(q as int),
        decreases n - q,
    {
        match &kept[q].id {
            Some(id) => {
                let ghost before = pair_views(pairs@);
                pairs.push((id.clone(), kept[q].hash.clone()));
                assert(pair_views(pairs@) =~= before.push(id_hash_pairs(rows, found)[q as int]));
                assert(id_hash_pairs(rows, found).take(q + 1) =~= id_hash_pairs(rows, found).take(q as int).push(id_hash_pairs(rows, found)[q as int]));
            },
            None => {
                assert(found[q as int] is None);
                return Err(BootstrapError::MissingId);
            },
        }
        q = q + 1;
    }
    assert(id_hash_pairs(rows, found).take(n as int) =~= id_hash_pairs(rows, found));
    Ok(MktItemHashes::from_pairs(pairs))
}

impl MktItemHashes {
    /// A copy of the hashes.
    pub fn duplicate(&self) -> (r: Self)
        requires
            self.wf(),
        ensures
            r.wf(),
            r.hashes@.len() == self.hashes@.len(),
            forall|i: int| 0 <= i < self.hashes@.len() ==> (#[trigger] r.hashes@[i]).0@ == self.hashes@[i].0@
                && views(r.hashes@[i].1@) == views(self.hashes@[i].1@),
    {
        let mut out: Vec<(ItemId, Vec<String>)> = Vec::new();
        let mut i: usize = 0;
        while i < self.hashes.len()
            invariant
                self.wf(),
                i <= self.hashes@.len(),
                out@.len() == i,
                forall|j: int| 0 <= j < i ==> (#[trigger] out@[j]).0@ == self.hashes@[j].0@
                    && views(out@[j].1@) == views(self.hashes@[j].1@),
            decreases self.hashes@.len() - i,
        {
            out.push((self.hashes[i].0.clone(), crate::text::copy_texts(&self.hashes[i].1)));
            i = i + 1;
        }
        let r = MktItemHashes { hashes: out };
        assert forall|a: int, b: int|
            0 <= a < r.hashes@.len() && 0 <= b < r.hashes@.len() && a != b implies #[trigger] r.hashes@[a].0@
            != #[trigger] r.hashes@[b].0@ by {
            assert(self.hashes@[a].0@ != self.hashes@[b].0@);
        }
        r
    }
}

/// The hashes a database holds for `k`, empty when it holds none.
pub open spec fn data_hashes_or_none(d: MktData, k: Seq<char>) -> Seq<Seq<char>> {
    if data_has_hashes(d, k) {
        data_hashes_for(d, k)
    } else {
        Seq::<Seq<char>>::empty()
    }
}

/// The hashes an import recognizes items by: those of the database, then
/// the ones learned by earlier imports.
pub fn import_hashes(data: &MktData, hashes: Option<&MktItemHashes>) -> (r: MktItemHashes)
    requires
        hashes matches Some(h) ==> h.wf(),
    ensures
        r.wf(),
        forall|k: Seq<char>| #[trigger] r.hash_map().contains_key(k) <==> (data_has_hashes(*data, k) || (
        hashes matches Some(h) && h.hash_map().contains_key(k))),
        forall|k: Seq<char>|
            #[trigger] r.hash_map().contains_key(k) ==> views(r.hash_map()[k]) == data_hashes_or_none(*data, k)
                + match hashes {
                Some(h) => if h.hash_map().contains_key(k) {
                    views(h.hash_map()[k])
                } else {
                    Seq::<Seq<char>>::empty()
                },
                None => Seq::<Seq<char>>::empty(),
            },
{
    let mut dh = data.hashes();
    match hashes {
        Some(h) => {
            let copy = h.duplicate();
            let ghost before = dh.hash_map();
            proof {
                assert forall|k: Seq<char>| #[trigger] copy.hash_map().contains_key(k) == h.hash_map().contains_key(k)
                    && (copy.hash_map().contains_key(k) ==> views(copy.hash_map()[k]) == views(h.hash_map()[k])) by {
                    if has_key_in(copy.hashes@, k) {
                        let a = choose|a: int| 0 <= a < copy.hashes@.len() && #[trigger] copy.hashes@[a].0@ == k;
                        crate::keyed::lemma_entries_map_at(copy.hashes@, a);
                        crate::keyed::lemma_entries_map_at(h.hashes@, a);
                        assert(h.hashes@[a].0@ == k);
                    }
                    if has_key_in(h.hashes@, k) {
                        let a = choose|a: int| 0 <= a < h.hashes@.len() && #[trigger] h.hashes@[a].0@ == k;
                        assert(copy.hashes@[a].0@ == k);
                    }
                }
            }
            dh.merge(copy);
            proof {
                assert forall|k: Seq<char>| #[trigger] dh.hash_map().contains_key(k) implies views(dh.hash_map()[k]) == data_hashes_or_none(*data, k)
                    + (if h.hash_map().contains_key(k) { views(h.hash_map()[k]) } else { Seq::<Seq<char>>::empty() }) by {
                    if before.contains_key(k) && copy.hash_map().contains_key(k) {
                        assert(views(before[k] + copy.hash_map()[k]) =~= views(before[k]) + views(copy.hash_map()[k]));
                    } else if before.contains_key(k) {
                        assert(views(before[k]) + Seq::<Seq<char>>::empty() =~= views(before[k]));
                    } else {
                        assert(Seq::<Seq<char>>::empty() + views(copy.hash_map()[k]) =~= views(copy.hash_map()[k]));
                    }
                }
            }
        },
        None => {
            proof {
                assert forall|k: Seq<char>| #[trigger] dh.hash_map().contains_key(k) implies views(dh.hash_map()[k]) == data_hashes_or_none(*data, k)
                    + Seq::<Seq<char>>::empty() by {
                    assert(views(dh.hash_map()[k]) + Seq::<Seq<char>>::empty() =~= views(dh.hash_map()[k]));
                }
            }
        },
    }
    dh
}

/// Whether some entry of `s` has key `k`.
pub open spec fn has_key_in(s: Seq<(String, Vec<String>)>, k: Seq<char>) -> bool {
    crate::keyed::has_key(s, k)
}

/// The (id, hash) pairs of the first `n` results that have an id and kept
/// their picture: the hashes an import learns.
pub open spec fn learned_pairs(
    v: Seq<OwnedItemResultView>,
    f: Seq<Option<Seq<char>>>,
    n: int,
) -> Seq<(Seq<char>, Seq<char>)>
    decreases n,
{
    if n <= 0 {
        Seq::<(Seq<char>, Seq<char>)>::empty()
    } else {
        let r = learned_pairs(v, f, n - 1);
        if f[n - 1] is Some && v[n - 1].has_img {
            r.push((f[n - 1]->0, v[n - 1].hash))
        } else {
            r
        }
    }
}

/// The (id, level, points) of the first `n` results whose id, level and
/// points are all known.
pub open spec fn found_items(
    v: Seq<OwnedItemResultView>,
    f: Seq<Option<Seq<char>>>,
    n: int,
) -> Seq<(Seq<char>, u8, u16)>
    decreases n,
{
    if n <= 0 {
        Seq::<(Seq<char>, u8, u16)>::empty()
    } else {
        let r = found_items(v, f, n - 1);
        if f[n - 1] is Some && v[n - 1].lvl is Some && v[n - 1].points is Some {
            r.push((f[n - 1]->0, v[n - 1].lvl->0, v[n - 1].points->0))
        } else {
            r
        }
    }
}

/// The (level, points) of found items whose database type is `t`, by id; a
/// later item of an id replaces an earlier one.
pub open spec fn found_by_type(tr: Seq<(Seq<char>, u8, u16)>, d: MktData, t: ItemType) -> Map<
    Seq<char>,
    (u8, u16),
>
    decreases tr.len(),
{
    if tr.len() == 0 {
        Map::<Seq<char>, (u8, u16)>::empty()
    } else {
        let m = found_by_type(tr.drop_last(), d, t);
        if type_in_data(d, tr.last().0) == Some(t) {
            m.insert(tr.last().0, (tr.last().1, tr.last().2))
        } else {
            m
        }
    }
}

proof fn lemma_learned_from(v: Seq<OwnedItemResultView>, f: Seq<Option<Seq<char>>>, n: int, k: Seq<char>)
    requires
        0 <= n <= v.len(),
        n <= f.len(),
        pair_has_key(learned_pairs(v, f, n), k),
    ensures
        exists|j: int| 0 <= j < n && #[trigger] f[j] == Some(k) && v[j].has_img,
    decreases n,
{
    let r = learned_pairs(v, f, n - 1);
    if f[n - 1] is Some && v[n - 1].has_img {
        let i = choose|i: int| 0 <= i < learned_pairs(v, f, n).len() && #[trigger] learned_pairs(v, f, n)[i].0 == k;
        if i < r.len() {
            assert(r[i].0 == k);
            lemma_learned_from(v, f, n - 1, k);
        } else {
            assert(f[n - 1] == Some(k));
        }
    } else {
        lemma_learned_from(v, f, n - 1, k);
    }
}

/// The hashes that an import learns belong to items of the database: a
/// picture is kept only for an item that was not recognized, and the id
/// that deduction gives such an item names an item of the database.
/// (Results whose recognized id is the end marker of the expected lists are
/// left out.)
pub proof fn lemma_learned_hashes_name_data_items(items: Seq<OwnedItemResultView>, d: MktData, k: Seq<char>)
    requires
        forall|j: int| 0 <= j < items.len() ==> (#[trigger] items[j]).id != Some(end_marker()),
        forall|j: int| 0 <= j < items.len() && (#[trigger] items[j]).has_img ==> items[j].id is None,
        pair_has_key(learned_pairs(items, deduced_ids(items, d), items.len() as int), k),
    ensures
        exists|t: ItemType, q: int| 0 <= q < type_list(d, t).len() && (#[trigger] type_list(d, t)[q]).1.id@ == k,
{
    let f = deduced_ids(items, d);
    lemma_deduction_fills_from_type(items, d);
    lemma_learned_from(items, f, items.len() as int, k);
    let j = choose|j: int| 0 <= j < items.len() && #[trigger] f[j] == Some(k) && items[j].has_img;
    assert(items[j].id is None);
    let t = items[j].i_type->0;
    let q = choose|q: int| 0 <= q < type_list(d, t).len() && (#[trigger] type_list(d, t)[q]).1.id@ == f[j]->0;
    assert(type_list(d, t)[q].1.id@ == k);
}

/// Every record of `m` is stored under its own id and has both dates set,
/// as a record made by `OwnedItem::new` has.
pub open spec fn records_stamped(m: Map<Seq<char>, OwnedItemView>) -> bool {
    forall|k: Seq<char>|
        #[trigger] m.contains_key(k) ==> m[k].id == k && m[k].added is Some && m[k].last_changed is Some
}

proof fn lemma_grouped_found(o: Seq<OwnedItem>, tr: Seq<(Seq<char>, u8, u16)>, d: MktData, t: ItemType)
    requires
        o.len() == tr.len(),
        forall|i: int| 0 <= i < o.len() ==> (#[trigger] o[i]).id@ == tr[i].0 && o[i].lvl == tr[i].1 && o[i].points == tr[i].2,
        forall|i: int| 0 <= i < o.len() ==> (#[trigger] o[i]).added is Some && o[i].last_changed is Some,
    ensures
        grouped(o, d, t).dom() == found_by_type(tr, d, t).dom(),
        forall|k: Seq<char>| #[trigger] grouped(o, d, t).contains_key(k) ==> (grouped(o, d, t)[k].lvl, grouped(o, d, t)[k].points) == found_by_type(tr, d, t)[k],
        records_stamped(grouped(o, d, t)),
    decreases o.len(),
{
    if o.len() > 0 {
        let o2 = o.drop_last();
        let t2 = tr.drop_last();
        assert forall|i: int| 0 <= i < o2.len() implies (#[trigger] o2[i]).id@ == t2[i].0 && o2[i].lvl == t2[i].1 && o2[i].points == t2[i].2 && o2[i].added is Some && o2[i].last_changed is Some by {
            assert(o2[i] == o[i]);
            assert(t2[i] == tr[i]);
        }
        lemma_grouped_found(o2, t2, d, t);
        assert(o.last() == o[o.len() - 1]);
        assert(tr.last() == tr[tr.len() - 1]);
        assert(grouped(o, d, t).dom() =~= found_by_type(tr, d, t).dom());
    }
}

/// The inventory and the new hashes that the recognition results of an
/// import give: unrecognized items are deduced first; the items whose id,
/// level and points are known make the inventory, sorted by database type;
/// the pictures of deduced items give new hashes.
pub fn import_results(items: Vec<OwnedItemResult>, data: &MktData) -> (r: (MktInventory, MktItemHashes))
    requires
        data.wf(),
    ensures
        ({
            let v = result_views(items@);
            let f = deduced_ids(v, *data);
            let tr = found_items(v, f, v.len() as int);
            let lp = learned_pairs(v, f, v.len() as int);
            &&& r.0.wf()
            &&& entries_map(r.0.drivers@).dom() == found_by_type(tr, *data, ItemType::Driver).dom()
            &&& entries_map(r.0.karts@).dom() == found_by_type(tr, *data, ItemType::Kart).dom()
            &&& entries_map(r.0.gliders@).dom() == found_by_type(tr, *data, ItemType::Glider).dom()
            &&& forall|k: Seq<char>| #[trigger] entries_map(r.0.drivers@).contains_key(k) ==> (entries_map(r.0.drivers@)[k].lvl, entries_map(r.0.drivers@)[k].points) == found_by_type(tr, *data, ItemType::Driver)[k]
            &&& forall|k: Seq<char>| #[trigger] entries_map(r.0.karts@).contains_key(k) ==> (entries_map(r.0.karts@)[k].lvl, entries_map(r.0.karts@)[k].points) == found_by_type(tr, *data, ItemType::Kart)[k]
            &&& forall|k: Seq<char>| #[trigger] entries_map(r.0.gliders@).contains_key(k) ==> (entries_map(r.0.gliders@)[k].lvl, entries_map(r.0.gliders@)[k].points) == found_by_type(tr, *data, ItemType::Glider)[k]
            &&& records_stamped(entries_map(r.0.drivers@))
            &&& records_stamped(entries_map(r.0.karts@))
            &&& records_stamped(entries_map(r.0.gliders@))
            &&& r.1.wf()
            &&& forall|k: Seq<char>| #[trigger] r.1.hash_map().contains_key(k) <==> pair_has_key(lp, k)
            &&& forall|k: Seq<char>| #[trigger] r.1.hash_map().contains_key(k) ==> views(r.1.hash_map()[k]) == pairs_for(lp, k)
        }),
{
    let ghost v = result_views(items@);
    let ghost f = deduced_ids(v, *data);
    let mut items = items;
    deduce_missing_owned_items(&mut items, data);
    let n = items.len();
    let mut pairs: Vec<(ItemId, String)> = Vec::new();
    let mut owned: Vec<OwnedItem> = Vec::new();
    let ghost mut tr: Seq<(Seq<char>, u8, u16)> = Seq::empty();
    let mut i: usize = 0;
    while i < n
        invariant
            n == items@.len(),
            n == v.len(),
            i <= n,
            f == deduced_ids(v, *data),
            forall|j: int| 0 <= j < n ==> {
                &&& crate::deduce::opt_view((#[trigger] items@[j]).id) == f[j]
                &&& items@[j].lvl == v[j].lvl
                &&& items@[j].points == v[j].points
                &&& items@[j].hash@ == v[j].hash
                &&& items@[j].has_img == v[j].has_img
            },
            pair_views(pairs@) == learned_pairs(v, f, i as int),
            tr == found_items(v, f, i as int),
            owned@.len() == tr.len(),
            forall|j: int| 0 <= j < owned@.len() ==> (#[trigger] owned@[j]).id@ == tr[j].0 && owned@[j].lvl == tr[j].1 && owned@[j].points == tr[j].2,
            forall|j: int| 0 <= j < owned@.len() ==> (#[trigger] owned@[j]).added is Some && owned@[j].last_changed is Some,
        decreases n - i,
    {
        match &items[i].id {
            Some(id) => {
                if items[i].has_img {
                    let ghost before = pair_views(pairs@);
                    pairs.push((id.clone(), items[i].hash.clone()));
                    assert(pair_views(pairs@) =~= before.push((f[i as int]->0, v[i as int].hash)));
                }
                match (items[i].lvl, items[i].points) {
                    (Some(l), Some(p)) => {
                        owned.push(OwnedItem::new(id.clone(), l, p));
                        proof {
                            tr = tr.push((f[i as int]->0, l, p));
                        }
                    },
                    _ => {},
                }
            },
            None => {},
        }
        i = i + 1;
    }
    let hashes = MktItemHashes::from_pairs(pairs);
    let ghost owned_seq = owned@;
    let found = MktInventory::from_items(owned, data);
    proof {
        lemma_grouped_found(owned_seq, tr, *data, ItemType::Driver);
        lemma_grouped_found(owned_seq, tr, *data, ItemType::Kart);
        lemma_grouped_found(owned_seq, tr, *data, ItemType::Glider);
    }
    let mut inv = MktInventory::new();
    let ghost e1 = entries_map(found.drivers@);
    let ghost e2 = entries_map(found.karts@);
    let ghost e3 = entries_map(found.gliders@);
    proof {
        assert(entries_map(inv.drivers@) =~= Map::<Seq<char>, crate::model::OwnedItemView>::empty());
        assert(entries_map(inv.karts@) =~= Map::<Seq<char>, crate::model::OwnedItemView>::empty());
        assert(entries_map(inv.gliders@) =~= Map::<Seq<char>, crate::model::OwnedItemView>::empty());
    }
    inv.update_inventory(found);
    proof {
        assert(entries_map(inv.drivers@) =~= e1);
        assert(entries_map(inv.karts@) =~= e2);
        assert(entries_map(inv.gliders@) =~= e3);
    }
    (inv, hashes)
}

/// The result of one item picture whose hash is `hash` and whose level and
/// points read `lvl` and `points`: the known item with the closest hash,
/// typed by its id, where one is close enough; else, where the picture looks
/// like an item (`looks_like_item`), an unrecognized result that keeps its
/// picture; else none.
pub fn item_result(
    hash: String,
    known: &Vec<(String, String)>,
    lvl: Option<ItemLvl>,
    points: Option<ItemPoints>,
    looks_like_item: bool,
) -> (r: Option<OwnedItemResult>)
    ensures
        match closest_known(hash@, known_views(known@), known@.len() as int) {
            Some(j) => {
                &&& r matches Some(x)
                &&& x.id matches Some(id) && id@ == known@[j].0@
                &&& x.i_type == item_type_of_id(known@[j].0@)
                &&& x.lvl == lvl
                &&& x.points == points
                &&& x.hash@ == hash@
                &&& !x.has_img
            },
            None => if looks_like_item {
                &&& r matches Some(x)
                &&& x.id is None
                &&& x.i_type is None
                &&& x.lvl == lvl
                &&& x.points == points
                &&& x.hash@ == hash@
                &&& x.has_img
            } else {
                r is None
            },
        },
{
    match closest_item(hash.as_str(), known) {
        Some(id) => {
            let i_type = item_type_from_id(id.as_str());
            Some(OwnedItemResult { id: Some(id), i_type, lvl, points, hash, has_img: false })
        },
        None => {
            if looks_like_item {
                Some(OwnedItemResult { id: None, i_type: None, lvl, points, hash, has_img: true })
            } else {
                None
            }
        },
    }
}

/// The type of the last result among the first `n` that has one.
pub open spec fn last_type(items: Seq<OwnedItemResultView>, n: int) -> Option<ItemType>
    decreases n,
{
    if n <= 0 {
        None
    } else if items[n - 1].i_type is Some {
        items[n - 1].i_type
    } else {
        last_type(items, n - 1)
    }
}

/// Gives the results of one screenshot without a type the type of the last
/// typed one: a screenshot shows items of one type.
pub fn assign_screenshot_type(items: &mut Vec<OwnedItemResult>)
    ensures
        final(items)@.len() == old(items)@.len(),
        forall|i: int|
            0 <= i < old(items)@.len() ==> {
                let o = result_views(old(items)@)[i];
                let n = (#[trigger] result_views(final(items)@)[i]);
                &&& n.i_type == (if o.i_type is Some {
                    o.i_type
                } else {
                    last_type(result_views(old(items)@), old(items)@.len() as int)
                })
                &&& n.id == o.id
                &&& n.lvl == o.lvl
                &&& n.points == o.points
                &&& n.hash == o.hash
                &&& n.has_img == o.has_img
            },
{
    let ghost v = result_views(items@);
    let mut t: Option<ItemType> = None;
    let mut i: usize = 0;
    while i < items.len()
        invariant
            i <= items@.len(),
            v == result_views(items@),
            t == last_type(v, i as int),
        decreases items@.len() - i,
    {
        assert(v[i as int] == items@[i as int]@);
        if items[i].i_type.is_some() {
            t = items[i].i_type;
        }
        i = i + 1;
    }
    let mut j: usize = 0;
    while j < items.len()
        invariant
            j <= items@.len(),
            items@.len() == v.len(),
            t == last_type(v, v.len() as int),
            forall|k: int|
                0 <= k < v.len() ==> {
                    let o = v[k];
                    let n = (#[trigger] result_views(items@)[k]);
                    &&& n.i_type == (if k < j && o.i_type is None {
                        t
                    } else {
                        o.i_type
                    })
                    &&& n.id == o.id
                    &&& n.lvl == o.lvl
                    &&& n.points == o.points
                    &&& n.hash == o.hash
                    &&& n.has_img == o.has_img
                },
        decreases items@.len() - j,
    {
        if items[j].i_type.is_none() {
            let ghost prev = items@;
            let mut r = items.remove(j);
            r.i_type = t;
            items.insert(j, r);
            proof {
                assert(items@ =~= prev.update(j as int, items@[j as int]));
                assert forall|k: int| 0 <= k < v.len() implies {
                    let o = v[k];
                    let n = (#[trigger] result_views(items@)[k]);
                    &&& n.i_type == (if k < j + 1 && o.i_type is None {
                        t
                    } else {
                        o.i_type
                    })
                    &&& n.id == o.id
                    &&& n.lvl == o.lvl
                    &&& n.points == o.points
                    &&& n.hash == o.hash
                    &&& n.has_img == o.has_img
                } by {
                    assert(result_views(items@)[k] == items@[k]@);
                    assert(result_views(prev)[k] == prev[k]@);
                    if k != j {
                        assert(items@[k] == prev[k]);
                    }
                }
            }
        }
        j = j + 1;
    }
}


/// Learns the hashes of every item of a type from the results of
/// screenshots of its full list (see `bootstrap_hashes`). When the
/// database has no item of the type, the results must be empty too: then
/// there is nothing to learn (`None`), else the lengths differ.
pub fn bootstrap_from_results(items: Vec<OwnedItemResult>, i_type: ItemType, data: &MktData) -> (r: Option<
    Result<MktItemHashes, BootstrapError>,
>)
    ensures
        type_list(*data, i_type).len() == 0 ==> r == (if kept_rows(result_views(items@)).len() == 0 {
            None::<Result<MktItemHashes, BootstrapError>>
        } else {
            Some(Err::<MktItemHashes, BootstrapError>(
                BootstrapError::WrongLength(kept_rows(result_views(items@)).len() as usize, 0),
            ))
        }),
        type_list(*data, i_type).len() > 0 ==> (r matches Some(x) && bootstrap_outcome(items@, i_type, *data, x)),
{
    let listed = match i_type {
        ItemType::Driver => data.drivers.len(),
        ItemType::Kart => data.karts.len(),
        ItemType::Glider => data.gliders.len(),
    };
    if listed == 0 {
        let kept = drop_repeated_rows(&items);
        if kept.len() == 0 {
            return None;
        }
        return Some(Err(BootstrapError::WrongLength(kept.len(), 0)));
    }
    Some(bootstrap_hashes(items, i_type, data))
}

} // verus!
