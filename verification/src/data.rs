//! The course and item database, the screenshot hashes of items, and the
//! player's inventory, with the ways newer versions are merged in.
use vstd::prelude::*;
use crate::ids::{ItemHash, ItemId, ItemType, CourseId};
use crate::keyed::{
    entries_map, find_key, has_key, keys_unique, lemma_entries_map_at, merge_entries, merged_maps,
    upsert,
};
use crate::model::{Course, Item, ItemView, Mergeable, OwnedItem, OwnedItemView};
use crate::text::{copy_texts, views};

verus! {

impl Mergeable for Vec<String> {
    open spec fn merge_view(old: Seq<String>, new: Seq<String>) -> Seq<String> {
        old + new
    }

    fn merge(&mut self, new: Vec<String>) {
        let mut new = new;
        self.append(&mut new);
    }
}

/// The hashes of the concatenated lists of entries of `s` with key `k`, in
/// order.
pub open spec fn lists_for(s: Seq<(String, Vec<String>)>, k: Seq<char>) -> Seq<Seq<char>>
    decreases s.len(),
{
    if s.len() == 0 {
        Seq::<Seq<char>>::empty()
    } else if s.last().0@ == k {
        lists_for(s.drop_last(), k) + views(s.last().1@)
    } else {
        lists_for(s.drop_last(), k)
    }
}

/// The hashes of the pairs of `s` with key `k`, in order.
pub open spec fn pairs_for(s: Seq<(Seq<char>, Seq<char>)>, k: Seq<char>) -> Seq<Seq<char>>
    decreases s.len(),
{
    if s.len() == 0 {
        Seq::<Seq<char>>::empty()
    } else if s.last().0 == k {
        pairs_for(s.drop_last(), k).push(s.last().1)
    } else {
        pairs_for(s.drop_last(), k)
    }
}

/// Views of (id, hash) pairs.
pub open spec fn pair_views(s: Seq<(String, String)>) -> Seq<(Seq<char>, Seq<char>)> {
    s.map_values(|e: (String, String)| (e.0@, e.1@))
}

/// Whether some pair of `s` has key `k`.
pub open spec fn pair_has_key(s: Seq<(Seq<char>, Seq<char>)>, k: Seq<char>) -> bool {
    exists|i: int| 0 <= i < s.len() && #[trigger] s[i].0 == k
}

/// Screenshot hashes of items, by item id.
#[derive(Debug)]
pub struct MktItemHashes {
    pub hashes: Vec<(ItemId, Vec<ItemHash>)>,
}

impl MktItemHashes {
    /// No id appears twice.
    pub open spec fn wf(&self) -> bool {
        keys_unique(self.hashes@)
    }

    /// The hash list of each id.
    pub open spec fn hash_map(&self) -> Map<Seq<char>, Seq<String>> {
        entries_map(self.hashes@)
    }

    pub fn new() -> (h: Self)
        ensures
            h.wf(),
            h.hashes@.len() == 0,
            h.hash_map() == Map::<Seq<char>, Seq<String>>::empty(),
    {
        let h = MktItemHashes { hashes: Vec::new() };
        assert(h.hash_map() =~= Map::<Seq<char>, Seq<String>>::empty());
        h
    }

    /// Adds the hashes of `new_hashes`: the lists of an id known to both are
    /// concatenated, old hashes first; the other ids are kept or added.
    pub fn merge(&mut self, new_hashes: MktItemHashes)
        requires
            old(self).wf(),
            new_hashes.wf(),
        ensures
            final(self).wf(),
            final(self).hash_map() == merged_maps::<Vec<String>>(
                old(self).hash_map(),
                new_hashes.hash_map(),
            ),
    {
        merge_entries(&mut self.hashes, new_hashes.hashes);
    }

    /// Collects (id, hash) pairs: each id gets its hashes in order.
    pub fn from_pairs(pairs: Vec<(ItemId, ItemHash)>) -> (h: Self)
        ensures
            h.wf(),
            forall|k: Seq<char>| #[trigger] h.hash_map().contains_key(k) <==> pair_has_key(pair_views(pairs@), k),
            forall|k: Seq<char>|
                #[trigger] h.hash_map().contains_key(k) ==> views(h.hash_map()[k]) == pairs_for(
                    pair_views(pairs@),
                    k,
                ),
    {
        let mut out: Vec<(ItemId, Vec<ItemHash>)> = Vec::new();
        let mut i: usize = 0;
        while i < pairs.len()
            invariant
                i <= pairs@.len(),
                keys_unique(out@),
                forall|k: Seq<char>| #[trigger]
                    has_key(out@, k) <==> pair_has_key(pair_views(pairs@).take(i as int), k),
                forall|k: Seq<char>| #[trigger]
                    has_key(out@, k) ==> views(entries_map(out@)[k]) == pairs_for(
                        pair_views(pairs@).take(i as int),
                        k,
                    ),
            decreases pairs@.len() - i,
        {
            let id = pairs[i].0.clone();
            let hash = pairs[i].1.clone();
            let ghost pre = pair_views(pairs@).take(i as int);
            let ghost post = pair_views(pairs@).take(i + 1);
            assert(post.drop_last() =~= pre);
            assert(post.last() == (pairs@[i as int].0@, pairs@[i as int].1@));
            let ghost before = out@;
            let mut list: Vec<ItemHash> = match find_key(&out, id.as_str()) {
                Some(j) => {
                    proof {
                        lemma_entries_map_at(out@, j as int);
                    }
                    copy_texts(&out[j].1)
                },
                None => Vec::new(),
            };
            let ghost old_list = views(list@);
            list.push(hash);
            assert(views(list@) =~= old_list.push(pairs@[i as int].1@));
            upsert(&mut out, id, list);
            proof {
                assert forall|k: Seq<char>| #[trigger]
                    pair_has_key(post, k) <==> (pair_has_key(pre, k) || k == pairs@[i as int].0@) by {
                    if pair_has_key(post, k) {
                        let a = choose|a: int| 0 <= a < post.len() && #[trigger] post[a].0 == k;
                        if a < i {
                            assert(pre[a] == post[a]);
                        }
                    }
                    if pair_has_key(pre, k) {
                        let a = choose|a: int| 0 <= a < pre.len() && #[trigger] pre[a].0 == k;
                        assert(pre[a] == post[a]);
                    }
                    if k == pairs@[i as int].0@ {
                        assert(post[i as int].0 == k);
                    }
                }
                assert forall|k: Seq<char>| #[trigger] has_key(out@, k) <==> pair_has_key(post, k) by {
                    assert(entries_map(out@).contains_key(k) == has_key(out@, k));
                    assert(entries_map(before).contains_key(k) == has_key(before, k));
                }
                assert forall|k: Seq<char>| #[trigger] has_key(out@, k) implies views(
                    entries_map(out@)[k],
                ) == pairs_for(post, k) by {
                    assert(entries_map(out@).contains_key(k) == has_key(out@, k));
                    if k != pairs@[i as int].0@ {
                        assert(entries_map(before).contains_key(k) == has_key(before, k));
                    } else if !has_key(before, k) {
                        assert(!pair_has_key(pre, k));
                        lemma_pairs_for_absent(pre, k);
                    }
                }
            }
            i = i + 1;
        }
        assert(pair_views(pairs@).take(pairs@.len() as int) =~= pair_views(pairs@));
        MktItemHashes { hashes: out }
    }

    /// Collects (id, hash list) entries: each id gets the concatenation of
    /// its lists in order.
    pub fn from_lists(lists: Vec<(ItemId, Vec<ItemHash>)>) -> (h: Self)
        ensures
            h.wf(),
            forall|k: Seq<char>| #[trigger] h.hash_map().contains_key(k) <==> has_key(lists@, k),
            forall|k: Seq<char>|
                #[trigger] h.hash_map().contains_key(k) ==> views(h.hash_map()[k]) == lists_for(
                    lists@,
                    k,
                ),
    {
        let mut out: Vec<(ItemId, Vec<ItemHash>)> = Vec::new();
        let mut i: usize = 0;
        while i < lists.len()
            invariant
                i <= lists@.len(),
                keys_unique(out@),
                forall|k: Seq<char>| #[trigger]
                    has_key(out@, k) <==> has_key(lists@.subrange(0, i as int), k),
                forall|k: Seq<char>| #[trigger]
                    has_key(out@, k) ==> views(entries_map(out@)[k]) == lists_for(
                        lists@.subrange(0, i as int),
                        k,
                    ),
            decreases lists@.len() - i,
        {
            let id = lists[i].0.clone();
            let more = copy_texts(&lists[i].1);
            let ghost pre = lists@.subrange(0, i as int);
            let ghost post = lists@.subrange(0, i + 1);
            assert(post.drop_last() =~= pre);
            assert(post.last() == lists@[i as int]);
            let ghost before = out@;
            let mut list: Vec<ItemHash> = match find_key(&out, id.as_str()) {
                Some(j) => {
                    proof {
                        lemma_entries_map_at(out@, j as int);
                    }
                    copy_texts(&out[j].1)
                },
                None => Vec::new(),
            };
            let ghost old_list = views(list@);
            let mut more = more;
            let ghost more_views = views(more@);
            list.append(&mut more);
            assert(views(list@) =~= old_list + more_views);
            upsert(&mut out, id, list);
            proof {
                assert forall|k: Seq<char>| #[trigger]
                    has_key(post, k) <==> (has_key(pre, k) || k == lists@[i as int].0@) by {
                    if has_key(post, k) {
                        let a = choose|a: int| 0 <= a < post.len() && #[trigger] post[a].0@ == k;
                        if a < i {
                            assert(pre[a] == post[a]);
                        }
                    }
                    if has_key(pre, k) {
                        let a = choose|a: int| 0 <= a < pre.len() && #[trigger] pre[a].0@ == k;
                        assert(pre[a] == post[a]);
                    }
                    if k == lists@[i as int].0@ {
                        assert(post[i as int].0@ == k);
                    }
                }
                assert forall|k: Seq<char>| #[trigger] has_key(out@, k) <==> has_key(post, k) by {
                    assert(entries_map(out@).contains_key(k) == has_key(out@, k));
                    assert(entries_map(before).contains_key(k) == has_key(before, k));
                }
                assert forall|k: Seq<char>| #[trigger] has_key(out@, k) implies views(
                    entries_map(out@)[k],
                ) == lists_for(post, k) by {
                    assert(entries_map(out@).contains_key(k) == has_key(out@, k));
                    if k != lists@[i as int].0@ {
                        assert(entries_map(before).contains_key(k) == has_key(before, k));
                    } else if !has_key(before, k) {
                        assert(!has_key(pre, k));
                        lemma_lists_for_absent(pre, k);
                        assert(Seq::<Seq<char>>::empty() + more_views =~= more_views);
                    }
                }
            }
            i = i + 1;
        }
        assert(lists@.subrange(0, lists@.len() as int) =~= lists@);
        MktItemHashes { hashes: out }
    }
}

pub proof fn lemma_pairs_for_absent(s: Seq<(Seq<char>, Seq<char>)>, k: Seq<char>)
    requires
        !pair_has_key(s, k),
    ensures
        pairs_for(s, k) == Seq::<Seq<char>>::empty(),
    decreases s.len(),
{
    if s.len() > 0 {
        assert(s.last() == s[s.len() - 1]);
        assert(!pair_has_key(s.drop_last(), k)) by {
            if pair_has_key(s.drop_last(), k) {
                let a = choose|a: int| 0 <= a < s.drop_last().len() && #[trigger] s.drop_last()[a].0 == k;
                assert(s[a] == s.drop_last()[a]);
            }
        }
        lemma_pairs_for_absent(s.drop_last(), k);
    }
}

pub proof fn lemma_lists_for_absent(s: Seq<(String, Vec<String>)>, k: Seq<char>)
    requires
        !has_key(s, k),
    ensures
        lists_for(s, k) == Seq::<Seq<char>>::empty(),
    decreases s.len(),
{
    if s.len() > 0 {
        assert(s.last() == s[s.len() - 1]);
        assert(!has_key(s.drop_last(), k)) by {
            if has_key(s.drop_last(), k) {
                let a = choose|a: int| 0 <= a < s.drop_last().len() && #[trigger] s.drop_last()[a].0@ == k;
                assert(s[a] == s.drop_last()[a]);
            }
        }
        lemma_lists_for_absent(s.drop_last(), k);
    }
}

/// Item `v` with the hashes that `h` holds for its id added at the end.
pub open spec fn item_with_hashes(v: ItemView, h: Map<Seq<char>, Seq<String>>) -> ItemView {
    ItemView {
        hashes: if h.contains_key(v.id) {
            v.hashes + views(h[v.id])
        } else {
            v.hashes
        },
        ..v
    }
}

/// `after` is `before` with the hashes of `h` added to each item.
pub open spec fn hashes_added(
    before: Seq<(String, Item)>,
    after: Seq<(String, Item)>,
    h: Map<Seq<char>, Seq<String>>,
) -> bool {
    &&& after.len() == before.len()
    &&& forall|i: int|
        0 <= i < after.len() ==> #[trigger] after[i].0@ == before[i].0@ && after[i].1@
            == item_with_hashes(before[i].1@, h)
}

/// The hashes of the items of `s` with id `k` and some hashes, in order.
pub open spec fn item_hashes_for(s: Seq<(String, Item)>, k: Seq<char>) -> Seq<Seq<char>>
    decreases s.len(),
{
    if s.len() == 0 {
        Seq::<Seq<char>>::empty()
    } else if s.last().1.id@ == k && s.last().1.hashes@.len() > 0 {
        item_hashes_for(s.drop_last(), k) + views(s.last().1.hashes@)
    } else {
        item_hashes_for(s.drop_last(), k)
    }
}

/// Whether some item of `s` has id `k` and some hashes.
pub open spec fn item_has_hashes(s: Seq<(String, Item)>, k: Seq<char>) -> bool {
    exists|i: int| 0 <= i < s.len() && #[trigger] s[i].1.id@ == k && s[i].1.hashes@.len() > 0
}

fn add_hashes(list: &mut Vec<(ItemId, Item)>, hashes: &MktItemHashes)
    requires
        hashes.wf(),
    ensures
        hashes_added(old(list)@, final(list)@, hashes.hash_map()),
{
    let ghost before = list@;
    let mut i: usize = 0;
    while i < list.len()
        invariant
            hashes.wf(),
            list@.len() == before.len(),
            i <= list@.len(),
            forall|j: int|
                0 <= j < i ==> #[trigger] list@[j].0@ == before[j].0@ && list@[j].1@
                    == item_with_hashes(before[j].1@, hashes.hash_map()),
            forall|j: int| i <= j < list@.len() ==> #[trigger] list@[j] == before[j],
        decreases list@.len() - i,
    {
        match find_key(&hashes.hashes, list[i].1.id.as_str()) {
            Some(j) => {
                proof {
                    lemma_entries_map_at(hashes.hashes@, j as int);
                }
                let mut extra = copy_texts(&hashes.hashes[j].1);
                let ghost cur = list@;
                assert(cur[i as int] == before[i as int]);
                let (key, mut item) = list.remove(i);
                let ghost hv = views(item.hashes@);
                let ghost ev = views(extra@);
                item.hashes.append(&mut extra);
                assert(views(item.hashes@) =~= hv + ev);
                let ghost entry = (key, item);
                list.insert(i, (key, item));
                proof {
                    assert(list@ =~= cur.update(i as int, entry));
                    let want = item_with_hashes(before[i as int].1@, hashes.hash_map());
                    assert(hashes.hash_map().contains_key(before[i as int].1.id@));
                    assert(views(hashes.hash_map()[before[i as int].1.id@]) == ev);
                    assert(list@[i as int].1@.hashes =~= want.hashes);
                    assert(list@[i as int].1@ == want);
                    assert forall|jj: int| 0 <= jj < i + 1 implies #[trigger] list@[jj].0@ == before[jj].0@ && list@[jj].1@
                        == item_with_hashes(before[jj].1@, hashes.hash_map()) by {
                        if jj < i {
                            assert(list@[jj] == cur[jj]);
                            assert(cur[jj].0@ == before[jj].0@);
                        } else {
                            assert(list@[jj].0@ == key@);
                        }
                    }
                    assert forall|jj: int| i + 1 <= jj < list@.len() implies #[trigger] list@[jj] == before[jj] by {
                        assert(list@[jj] == cur[jj]);
                    }
                }
            },
            None => {
                assert(!hashes.hash_map().contains_key(before[i as int].1.id@));
                assert(list@[i as int] == before[i as int]);
                assert(list@[i as int].1@ == item_with_hashes(before[i as int].1@, hashes.hash_map()));
                assert forall|jj: int| 0 <= jj < i + 1 implies #[trigger] list@[jj].0@ == before[jj].0@ && list@[jj].1@
                    == item_with_hashes(before[jj].1@, hashes.hash_map()) by {
                    if jj == i {
                        assert(list@[i as int] == before[i as int]);
                    }
                }
            },
        }
        assert(list@[i as int].0@ == before[i as int].0@);
        assert(list@[i as int].1@ == item_with_hashes(before[i as int].1@, hashes.hash_map()));
        let ghost old_i = i;
        i = i + 1;
        assert forall|jj: int| 0 <= jj < i implies #[trigger] list@[jj].0@ == before[jj].0@ && list@[jj].1@
            == item_with_hashes(before[jj].1@, hashes.hash_map()) by {
            if jj == old_i {
                assert(list@[jj] == list@[old_i as int]);
                assert(list@[jj].0@ == before[jj].0@);
                assert(list@[jj].1@ == item_with_hashes(before[jj].1@, hashes.hash_map()));
            } else {
                assert(jj < old_i);
                assert(list@[jj].0@ == before[jj].0@);
                assert(list@[jj].1@ == item_with_hashes(before[jj].1@, hashes.hash_map()));
            }
        }
    }
}

fn collect_hash_lists(list: &Vec<(ItemId, Item)>, src: &mut Vec<(ItemId, Vec<ItemHash>)>)
    ensures
        forall|k: Seq<char>| #[trigger]
            lists_for(final(src)@, k) == lists_for(old(src)@, k) + item_hashes_for(list@, k),
        forall|k: Seq<char>| #[trigger]
            has_key(final(src)@, k) <==> (has_key(old(src)@, k) || item_has_hashes(list@, k)),
{
    let ghost start = src@;
    let mut i: usize = 0;
    while i < list.len()
        invariant
            i <= list@.len(),
            forall|k: Seq<char>| #[trigger]
                lists_for(src@, k) == lists_for(start, k) + item_hashes_for(
                    list@.subrange(0, i as int),
                    k,
                ),
            forall|k: Seq<char>| #[trigger]
                has_key(src@, k) <==> (has_key(start, k) || item_has_hashes(
                    list@.subrange(0, i as int),
                    k,
                )),
        decreases list@.len() - i,
    {
        let ghost pre = list@.subrange(0, i as int);
        let ghost post = list@.subrange(0, i + 1);
        assert(post.drop_last() =~= pre);
        assert(post.last() == list@[i as int]);
        let ghost before = src@;
        if list[i].1.hashes.len() != 0 {
            let id = list[i].1.id.clone();
            let hs = copy_texts(&list[i].1.hashes);
            src.push((id, hs));
            proof {
                assert(src@.drop_last() =~= before);
                assert(src@.last().0@ == list@[i as int].1.id@);
                assert(views(src@.last().1@) == views(list@[i as int].1.hashes@));
                assert forall|k: Seq<char>| #[trigger] lists_for(src@, k) == lists_for(start, k)
                    + item_hashes_for(post, k) by {
                    assert(lists_for(before, k) == lists_for(start, k) + item_hashes_for(pre, k));
                    if k == list@[i as int].1.id@ {
                        assert(lists_for(src@, k) == lists_for(before, k) + views(list@[i as int].1.hashes@));
                        assert(item_hashes_for(post, k) == item_hashes_for(pre, k) + views(list@[i as int].1.hashes@));
                        assert(lists_for(start, k) + item_hashes_for(pre, k) + views(
                            list@[i as int].1.hashes@,
                        ) =~= lists_for(start, k) + (item_hashes_for(pre, k) + views(
                            list@[i as int].1.hashes@,
                        )));
                    }
                }
            }
        } else {
            assert forall|k: Seq<char>| #[trigger] lists_for(src@, k) == lists_for(start, k)
                + item_hashes_for(post, k) by {
                assert(post.last().1.hashes@.len() == 0);
                assert(item_hashes_for(post, k) == item_hashes_for(pre, k));
            }
        }
        proof {
            assert forall|k: Seq<char>| #[trigger] has_key(src@, k) <==> (has_key(start, k)
                || item_has_hashes(post, k)) by {
                if item_has_hashes(post, k) {
                    let a = choose|a: int|
                        0 <= a < post.len() && #[trigger] post[a].1.id@ == k && post[a].1.hashes@.len() > 0;
                    if a < i {
                        assert(pre[a] == post[a]);
                        assert(item_has_hashes(pre, k));
                    } else {
                        assert(src@[src@.len() - 1].0@ == k);
                    }
                }
                if item_has_hashes(pre, k) {
                    let a = choose|a: int|
                        0 <= a < pre.len() && #[trigger] pre[a].1.id@ == k && pre[a].1.hashes@.len() > 0;
                    assert(pre[a] == post[a]);
                    assert(item_has_hashes(post, k));
                }
                if has_key(src@, k) {
                    let a = choose|a: int| 0 <= a < src@.len() && #[trigger] src@[a].0@ == k;
                    if a < before.len() {
                        assert(src@[a] == before[a]);
                        assert(has_key(before, k));
                    } else {
                        assert(post[i as int] == list@[i as int]);
                        assert(item_has_hashes(post, k));
                    }
                }
                if has_key(before, k) {
                    let a = choose|a: int| 0 <= a < before.len() && #[trigger] before[a].0@ == k;
                    assert(src@[a] == before[a]);
                }
            }
        }
        i = i + 1;
    }
    assert(list@.subrange(0, list@.len() as int) =~= list@);
}

/// The database of courses, drivers, karts and gliders, each keyed by id.
#[derive(Debug)]
pub struct MktData {
    pub courses: Vec<(CourseId, Course)>,
    pub drivers: Vec<(ItemId, Item)>,
    pub karts: Vec<(ItemId, Item)>,
    pub gliders: Vec<(ItemId, Item)>,
}

/// The hashes that a database holds for id `k`: those of its drivers, then
/// karts, then gliders with that id and some hashes.
pub open spec fn data_hashes_for(d: MktData, k: Seq<char>) -> Seq<Seq<char>> {
    item_hashes_for(d.drivers@, k) + item_hashes_for(d.karts@, k) + item_hashes_for(d.gliders@, k)
}

/// Whether some item of the database has id `k` and some hashes.
pub open spec fn data_has_hashes(d: MktData, k: Seq<char>) -> bool {
    item_has_hashes(d.drivers@, k) || item_has_hashes(d.karts@, k) || item_has_hashes(d.gliders@, k)
}

impl MktData {
    /// No list holds an id twice.
    pub open spec fn wf(&self) -> bool {
        &&& keys_unique(self.courses@)
        &&& keys_unique(self.drivers@)
        &&& keys_unique(self.karts@)
        &&& keys_unique(self.gliders@)
    }

    pub fn new() -> (d: Self)
        ensures
            d.wf(),
            d.courses@.len() == 0,
            d.drivers@.len() == 0,
            d.karts@.len() == 0,
            d.gliders@.len() == 0,
    {
        MktData { courses: Vec::new(), drivers: Vec::new(), karts: Vec::new(), gliders: Vec::new() }
    }

    /// Adds the hashes of `hashes` to each item of the database with the
    /// same id.
    pub fn merge_hashes(&mut self, hashes: &MktItemHashes)
        requires
            hashes.wf(),
        ensures
            final(self).courses@ == old(self).courses@,
            hashes_added(old(self).drivers@, final(self).drivers@, hashes.hash_map()),
            hashes_added(old(self).karts@, final(self).karts@, hashes.hash_map()),
            hashes_added(old(self).gliders@, final(self).gliders@, hashes.hash_map()),
    {
        add_hashes(&mut self.drivers, hashes);
        add_hashes(&mut self.karts, hashes);
        add_hashes(&mut self.gliders, hashes);
    }

    /// The hashes of all items that have some, by id.
    pub fn hashes(&self) -> (h: MktItemHashes)
        ensures
            h.wf(),
            forall|k: Seq<char>| #[trigger] h.hash_map().contains_key(k) <==> data_has_hashes(*self, k),
            forall|k: Seq<char>|
                #[trigger] h.hash_map().contains_key(k) ==> views(h.hash_map()[k]) == data_hashes_for(
                    *self,
                    k,
                ),
    {
        let mut src: Vec<(ItemId, Vec<ItemHash>)> = Vec::new();
        collect_hash_lists(&self.drivers, &mut src);
        collect_hash_lists(&self.karts, &mut src);
        collect_hash_lists(&self.gliders, &mut src);
        proof {
            assert forall|k: Seq<char>| #[trigger] lists_for(src@, k) == data_hashes_for(*self, k) by {
                assert(lists_for(Seq::<(String, Vec<String>)>::empty(), k) =~= Seq::<Seq<char>>::empty());
                assert(Seq::<Seq<char>>::empty() + item_hashes_for(self.drivers@, k) =~= item_hashes_for(self.drivers@, k));
            }
        }
        MktItemHashes::from_lists(src)
    }

    /// Merges `new_data` into the database: a course or item known to both
    /// is merged record by record, the others are kept or added.
    pub fn merge(&mut self, new_data: MktData)
        requires
            old(self).wf(),
            new_data.wf(),
        ensures
            final(self).wf(),
            entries_map(final(self).courses@) == merged_maps::<Course>(
                entries_map(old(self).courses@),
                entries_map(new_data.courses@),
            ),
            entries_map(final(self).drivers@) == merged_maps::<Item>(
                entries_map(old(self).drivers@),
                entries_map(new_data.drivers@),
            ),
            entries_map(final(self).karts@) == merged_maps::<Item>(
                entries_map(old(self).karts@),
                entries_map(new_data.karts@),
            ),
            entries_map(final(self).gliders@) == merged_maps::<Item>(
                entries_map(old(self).gliders@),
                entries_map(new_data.gliders@),
            ),
    {
        let MktData { courses, drivers, karts, gliders } = new_data;
        merge_entries(&mut self.courses, courses);
        merge_entries(&mut self.drivers, drivers);
        merge_entries(&mut self.karts, karts);
        merge_entries(&mut self.gliders, gliders);
    }
}

/// The type of the item that the database holds under key `id`: drivers
/// are looked at first, then karts, then gliders.
pub open spec fn type_in_data(d: MktData, id: Seq<char>) -> Option<ItemType> {
    if has_key(d.drivers@, id) {
        Some(entries_map(d.drivers@)[id].i_type)
    } else if has_key(d.karts@, id) {
        Some(entries_map(d.karts@)[id].i_type)
    } else if has_key(d.gliders@, id) {
        Some(entries_map(d.gliders@)[id].i_type)
    } else {
        None
    }
}

/// The owned items of `items` whose database type is `t`, by id; a later
/// record of an id replaces an earlier one.
pub open spec fn grouped(items: Seq<OwnedItem>, d: MktData, t: ItemType) -> Map<
    Seq<char>,
    OwnedItemView,
>
    decreases items.len(),
{
    if items.len() == 0 {
        Map::<Seq<char>, OwnedItemView>::empty()
    } else {
        let m = grouped(items.drop_last(), d, t);
        if type_in_data(d, items.last().id@) == Some(t) {
            m.insert(items.last().id@, items.last()@)
        } else {
            m
        }
    }
}

fn type_in_list(list: &Vec<(ItemId, Item)>, id: &str) -> (r: Option<ItemType>)
    requires
        keys_unique(list@),
    ensures
        r == (if has_key(list@, id@) {
            Some(entries_map(list@)[id@].i_type)
        } else {
            None::<ItemType>
        }),
{
    match find_key(list, id) {
        Some(j) => {
            proof {
                lemma_entries_map_at(list@, j as int);
            }
            Some(list[j].1.i_type)
        },
        None => None,
    }
}

/// The type of the item that the database holds under key `id`.
pub fn item_type_in(data: &MktData, id: &str) -> (r: Option<ItemType>)
    requires
        data.wf(),
    ensures
        r == type_in_data(*data, id@),
{
    match type_in_list(&data.drivers, id) {
        Some(t) => Some(t),
        None => match type_in_list(&data.karts, id) {
            Some(t) => Some(t),
            None => type_in_list(&data.gliders, id),
        },
    }
}

/// The player's drivers, karts and gliders, each keyed by id.
#[derive(Debug)]
pub struct MktInventory {
    pub drivers: Vec<(ItemId, OwnedItem)>,
    pub karts: Vec<(ItemId, OwnedItem)>,
    pub gliders: Vec<(ItemId, OwnedItem)>,
}

impl MktInventory {
    /// No list holds an id twice.
    pub open spec fn wf(&self) -> bool {
        &&& keys_unique(self.drivers@)
        &&& keys_unique(self.karts@)
        &&& keys_unique(self.gliders@)
    }

    pub fn new() -> (inv: Self)
        ensures
            inv.wf(),
            inv.drivers@.len() == 0,
            inv.karts@.len() == 0,
            inv.gliders@.len() == 0,
    {
        MktInventory { drivers: Vec::new(), karts: Vec::new(), gliders: Vec::new() }
    }

    /// Sorts owned items by the type that the database gives their id; items
    /// the database does not know are dropped.
    pub fn from_items(items: Vec<OwnedItem>, data: &MktData) -> (inv: Self)
        requires
            data.wf(),
        ensures
            inv.wf(),
            entries_map(inv.drivers@) == grouped(items@, *data, ItemType::Driver),
            entries_map(inv.karts@) == grouped(items@, *data, ItemType::Kart),
            entries_map(inv.gliders@) == grouped(items@, *data, ItemType::Glider),
    {
        let ghost all = items@;
        let mut rest = items;
        let mut inv = MktInventory::new();
        let ghost mut i: int = 0;
        assert(entries_map(inv.drivers@) =~= Map::<Seq<char>, OwnedItemView>::empty());
        assert(entries_map(inv.karts@) =~= Map::<Seq<char>, OwnedItemView>::empty());
        assert(entries_map(inv.gliders@) =~= Map::<Seq<char>, OwnedItemView>::empty());
        assert(all.subrange(0, 0) =~= Seq::<OwnedItem>::empty());
        while rest.len() > 0
            invariant
                data.wf(),
                inv.wf(),
                0 <= i <= all.len(),
                rest@ =~= all.subrange(i, all.len() as int),
                entries_map(inv.drivers@) == grouped(all.subrange(0, i), *data, ItemType::Driver),
                entries_map(inv.karts@) == grouped(all.subrange(0, i), *data, ItemType::Kart),
                entries_map(inv.gliders@) == grouped(all.subrange(0, i), *data, ItemType::Glider),
            decreases rest@.len(),
        {
            let item = rest.remove(0);
            assert(item == all[i]);
            let ghost post = all.subrange(0, i + 1);
            assert(post.drop_last() =~= all.subrange(0, i));
            assert(post.last() == item);
            let t = item_type_in(data, item.id.as_str());
            let key = item.id.clone();
            match t {
                Some(ItemType::Driver) => upsert(&mut inv.drivers, key, item),
                Some(ItemType::Kart) => upsert(&mut inv.karts, key, item),
                Some(ItemType::Glider) => upsert(&mut inv.gliders, key, item),
                None => {},
            }
            proof {
                i = i + 1;
            }
        }
        assert(all.subrange(0, all.len() as int) =~= all);
        inv
    }

    /// Merges `new_inv` into the inventory: an item owned in both is merged
    /// record by record, the others are kept or added.
    pub fn update_inventory(&mut self, new_inv: MktInventory)
        requires
            old(self).wf(),
            new_inv.wf(),
        ensures
            final(self).wf(),
            entries_map(final(self).drivers@) == merged_maps::<OwnedItem>(
                entries_map(old(self).drivers@),
                entries_map(new_inv.drivers@),
            ),
            entries_map(final(self).karts@) == merged_maps::<OwnedItem>(
                entries_map(old(self).karts@),
                entries_map(new_inv.karts@),
            ),
            entries_map(final(self).gliders@) == merged_maps::<OwnedItem>(
                entries_map(old(self).gliders@),
                entries_map(new_inv.gliders@),
            ),
    {
        let MktInventory { drivers, karts, gliders } = new_inv;
        merge_entries(&mut self.drivers, drivers);
        merge_entries(&mut self.karts, karts);
        merge_entries(&mut self.gliders, gliders);
    }
}

/// The (id, hash) pairs of the first `n` entries, entry after entry.
pub open spec fn hash_pairs_of(s: Seq<(String, Vec<String>)>, n: int) -> Seq<(Seq<char>, Seq<char>)>
    decreases n,
{
    if n <= 0 {
        Seq::empty()
    } else {
        hash_pairs_of(s, n - 1) + views(s[n - 1].1@).map_values(|h: Seq<char>| (s[n - 1].0@, h))
    }
}

impl MktItemHashes {
    /// Every (id, hash) pair, id after id.
    pub fn pairs(&self) -> (r: Vec<(ItemId, ItemHash)>)
        ensures
            r@.map_values(|p: (String, String)| (p.0@, p.1@)) == hash_pairs_of(
                self.hashes@,
                self.hashes@.len() as int,
            ),
    {
        let mut out: Vec<(ItemId, ItemHash)> = Vec::new();
        let mut i: usize = 0;
        assert(out@.map_values(|p: (String, String)| (p.0@, p.1@)) =~= hash_pairs_of(self.hashes@, 0));
        while i < self.hashes.len()
            invariant
                i <= self.hashes.len(),
                out@.map_values(|p: (String, String)| (p.0@, p.1@)) == hash_pairs_of(
                    self.hashes@,
                    i as int,
                ),
            decreases self.hashes.len() - i,
        {
            let id = &self.hashes[i].0;
            let list = &self.hashes[i].1;
            let ghost base = out@.map_values(|p: (String, String)| (p.0@, p.1@));
            let ghost want = views(list@).map_values(|h: Seq<char>| (id@, h));
            let mut j: usize = 0;
            while j < list.len()
                invariant
                    j <= list.len(),
                    want == views(list@).map_values(|h: Seq<char>| (id@, h)),
                    out@.map_values(|p: (String, String)| (p.0@, p.1@)) == base + want.subrange(
                        0,
                        j as int,
                    ),
                decreases list.len() - j,
            {
                let ghost before = out@.map_values(|p: (String, String)| (p.0@, p.1@));
                out.push((id.clone(), list[j].clone()));
                assert(out@.map_values(|p: (String, String)| (p.0@, p.1@)) =~= before.push(
                    (id@, list@[j as int]@),
                ));
                assert(want.subrange(0, j + 1) =~= want.subrange(0, j as int).push(want[j as int]));
                j = j + 1;
            }
            assert(want.subrange(0, want.len() as int) =~= want);
            i = i + 1;
        }
        out
    }
}

} // verus!
