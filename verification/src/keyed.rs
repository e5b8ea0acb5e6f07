//! Lists of records keyed by text, read as maps, and the merge of a newer
//! keyed list into an older one.
use vstd::prelude::*;
use crate::model::Mergeable;
use crate::text::same_text;

verus! {

/// Whether some entry of `s` has key `k`.
pub open spec fn has_key<V>(s: Seq<(String, V)>, k: Seq<char>) -> bool {
    exists|i: int| 0 <= i < s.len() && #[trigger] s[i].0@ == k
}

/// Whether no two entries of `s` share a key.
pub open spec fn keys_unique<V>(s: Seq<(String, V)>) -> bool {
    forall|i: int, j: int|
        0 <= i < s.len() && 0 <= j < s.len() && i != j ==> #[trigger] s[i].0@ != #[trigger] s[j].0@
}

/// The position of an entry with key `k`.
pub open spec fn key_index<V>(s: Seq<(String, V)>, k: Seq<char>) -> int {
    choose|i: int| 0 <= i < s.len() && #[trigger] s[i].0@ == k
}

/// The map from each key of `s` to the view of its record.
pub open spec fn entries_map<V: View>(s: Seq<(String, V)>) -> Map<Seq<char>, V::V> {
    Map::new(|k: Seq<char>| has_key(s, k), |k: Seq<char>| s[key_index(s, k)].1@)
}

/// The merge of map `new` into map `old`: keys of both are merged, the
/// others kept as they are.
pub open spec fn merged_maps<V: Mergeable>(old: Map<Seq<char>, V::V>, new: Map<Seq<char>, V::V>) -> Map<
    Seq<char>,
    V::V,
> {
    Map::new(
        |k: Seq<char>| old.contains_key(k) || new.contains_key(k),
        |k: Seq<char>|
            if old.contains_key(k) && new.contains_key(k) {
                V::merge_view(old[k], new[k])
            } else if old.contains_key(k) {
                old[k]
            } else {
                new[k]
            },
    )
}

pub proof fn lemma_entries_map_at<V: View>(s: Seq<(String, V)>, i: int)
    requires
        keys_unique(s),
        0 <= i < s.len(),
    ensures
        entries_map(s).contains_key(s[i].0@),
        entries_map(s)[s[i].0@] == s[i].1@,
{
    assert(has_key(s, s[i].0@));
    let j = key_index(s, s[i].0@);
    assert(s[j].0@ == s[i].0@);
}

/// The position of the entry with key `k`, if there is one.
pub fn find_key<V>(s: &Vec<(String, V)>, k: &str) -> (r: Option<usize>)
    ensures
        match r {
            Some(i) => i < s@.len() && s@[i as int].0@ == k@,
            None => !has_key(s@, k@),
        },
{
    let mut i: usize = 0;
    while i < s.len()
        invariant
            i <= s@.len(),
            forall|j: int| 0 <= j < i ==> s@[j].0@ != k@,
        decreases s@.len() - i,
    {
        if same_text(s[i].0.as_str(), k) {
            return Some(i);
        }
        i = i + 1;
    }
    None
}

proof fn lemma_has_key_remove<V: View>(s: Seq<(String, V)>, j: int, k: Seq<char>)
    requires
        keys_unique(s),
        0 <= j < s.len(),
    ensures
        keys_unique(s.remove(j)),
        has_key(s.remove(j), k) <==> (has_key(s, k) && k != s[j].0@),
        has_key(s.remove(j), k) ==> entries_map(s.remove(j))[k] == entries_map(s)[k],
{
    let t = s.remove(j);
    assert forall|a: int, b: int|
        0 <= a < t.len() && 0 <= b < t.len() && a != b implies #[trigger] t[a].0@
        != #[trigger] t[b].0@ by {
        let a2 = if a < j { a } else { a + 1 };
        let b2 = if b < j { b } else { b + 1 };
        assert(t[a] == s[a2]);
        assert(t[b] == s[b2]);
    }
    if has_key(t, k) {
        let a = choose|a: int| 0 <= a < t.len() && #[trigger] t[a].0@ == k;
        let a2 = if a < j { a } else { a + 1 };
        assert(t[a] == s[a2]);
        assert(s[a2].0@ == k);
        lemma_entries_map_at(t, a);
        lemma_entries_map_at(s, a2);
    }
    if has_key(s, k) && k != s[j].0@ {
        let a = choose|a: int| 0 <= a < s.len() && #[trigger] s[a].0@ == k;
        assert(a != j);
        let a2 = if a < j { a } else { a - 1 };
        assert(t[a2] == s[a]);
    }
}

proof fn lemma_prefix_has_key<V>(s: Seq<(String, V)>, i: int, k: Seq<char>)
    requires
        0 <= i < s.len(),
    ensures
        has_key(s.subrange(0, i + 1), k) <==> (has_key(s.subrange(0, i), k) || k == s[i].0@),
{
    let p = s.subrange(0, i + 1);
    let q = s.subrange(0, i);
    if has_key(p, k) {
        let a = choose|a: int| 0 <= a < p.len() && #[trigger] p[a].0@ == k;
        if a < i {
            assert(q[a] == p[a]);
        } else {
            assert(p[a] == s[i]);
        }
    }
    if has_key(q, k) {
        let a = choose|a: int| 0 <= a < q.len() && #[trigger] q[a].0@ == k;
        assert(p[a] == q[a]);
    }
    if k == s[i].0@ {
        assert(p[i] == s[i]);
    }
}

/// Merges the keyed list `new` into `base`: a record whose key is in both is
/// merged into the old record, the others are kept; the old records keep
/// their order and the records only in `new` follow in their order.
pub fn merge_entries<V: Mergeable>(base: &mut Vec<(String, V)>, new: Vec<(String, V)>)
    requires
        keys_unique(old(base)@),
        keys_unique(new@),
    ensures
        keys_unique(final(base)@),
        entries_map(final(base)@) == merged_maps::<V>(entries_map(old(base)@), entries_map(new@)),
        final(base)@.len() >= old(base)@.len(),
        forall|i: int| 0 <= i < old(base)@.len() ==> #[trigger] final(base)@[i].0@ == old(base)@[i].0@,
{
    let ghost ob = base@;
    let ghost nw = new@;
    let mut olds: Vec<(String, V)> = Vec::new();
    std::mem::swap(&mut olds, base);
    let mut rest = new;
    let mut out: Vec<(String, V)> = Vec::new();
    let ghost mut i: int = 0;
    assert(olds@ =~= ob.subrange(0, ob.len() as int));
    while olds.len() > 0
        invariant
            keys_unique(ob),
            keys_unique(nw),
            0 <= i <= ob.len(),
            olds@ =~= ob.subrange(i, ob.len() as int),
            out@.len() == i,
            forall|j: int|
                0 <= j < i ==> #[trigger] out@[j].0@ == ob[j].0@ && out@[j].1@ == (if has_key(
                    nw,
                    ob[j].0@,
                ) {
                    V::merge_view(ob[j].1@, entries_map(nw)[ob[j].0@])
                } else {
                    ob[j].1@
                }),
            keys_unique(rest@),
            forall|k: Seq<char>|
                #[trigger] has_key(rest@, k) <==> (has_key(nw, k) && !has_key(
                    ob.subrange(0, i),
                    k,
                )),
            forall|k: Seq<char>|
                #[trigger] has_key(rest@, k) ==> entries_map(rest@)[k] == entries_map(nw)[k],
        decreases olds@.len(),
    {
        let (k, mut v) = olds.remove(0);
        assert(k@ == ob[i].0@);
        let ghost old_v = v@;
        let ghost rest_before = rest@;
        proof {
            assert forall|kk: Seq<char>| #[trigger]
                has_key(ob.subrange(0, i + 1), kk) <==> (has_key(ob.subrange(0, i), kk) || kk
                    == ob[i].0@) by {
                lemma_prefix_has_key(ob, i, kk);
            }
            if has_key(ob.subrange(0, i), k@) {
                let a = choose|a: int| 0 <= a < i && #[trigger] ob.subrange(0, i)[a].0@ == k@;
                assert(ob.subrange(0, i)[a] == ob[a]);
            }
        }
        match find_key(&rest, k.as_str()) {
            Some(j) => {
                proof {
                    lemma_entries_map_at(rest@, j as int);
                    assert(has_key(rest@, k@));
                    assert forall|kk: Seq<char>| true implies (#[trigger] has_key(
                        rest@.remove(j as int),
                        kk,
                    ) <==> (has_key(rest@, kk) && kk != k@)) && (has_key(
                        rest@.remove(j as int),
                        kk,
                    ) ==> entries_map(rest@.remove(j as int))[kk] == entries_map(rest@)[kk]) by {
                        lemma_has_key_remove(rest@, j as int, kk);
                    }
                    lemma_has_key_remove(rest@, j as int, k@);
                }
                let (_, nv) = rest.remove(j);
                v.merge(nv);
            },
            None => {},
        }
        out.push((k, v));
        proof {
            i = i + 1;
            assert(olds@ =~= ob.subrange(i, ob.len() as int));
        }
    }
    let ghost out_seq = out@;
    let ghost rest_seq = rest@;
    out.append(&mut rest);
    proof {
        let r = out@;
        assert(r =~= out_seq + rest_seq);
        assert(ob.subrange(0, ob.len() as int) =~= ob);
        // keys of the old part are those of `ob`, keys of the rest are not in `ob`
        assert forall|a: int, b: int|
            0 <= a < r.len() && 0 <= b < r.len() && a != b implies #[trigger] r[a].0@
            != #[trigger] r[b].0@ by {
            if a < out_seq.len() && b < out_seq.len() {
                assert(r[a] == out_seq[a] && r[b] == out_seq[b]);
            } else if a >= out_seq.len() && b >= out_seq.len() {
                assert(r[a] == rest_seq[a - out_seq.len()]);
                assert(r[b] == rest_seq[b - out_seq.len()]);
            } else if a < out_seq.len() {
                assert(r[a] == out_seq[a]);
                assert(r[b] == rest_seq[b - out_seq.len()]);
                assert(has_key(rest_seq, r[b].0@));
                assert(has_key(ob, ob[a].0@));
            } else {
                assert(r[b] == out_seq[b]);
                assert(r[a] == rest_seq[a - out_seq.len()]);
                assert(has_key(rest_seq, r[a].0@));
                assert(has_key(ob, ob[b].0@));
            }
        }
        let want = merged_maps::<V>(entries_map(ob), entries_map(nw));
        assert forall|k: Seq<char>| #[trigger] entries_map(r).contains_key(k) <==> want.contains_key(k) by {
            if has_key(r, k) {
                let a = choose|a: int| 0 <= a < r.len() && #[trigger] r[a].0@ == k;
                if a < out_seq.len() {
                    assert(r[a] == out_seq[a]);
                    assert(has_key(ob, k));
                } else {
                    assert(r[a] == rest_seq[a - out_seq.len()]);
                    assert(has_key(rest_seq, k));
                }
            }
            if has_key(ob, k) {
                let a = choose|a: int| 0 <= a < ob.len() && #[trigger] ob[a].0@ == k;
                assert(r[a] == out_seq[a]);
                assert(out_seq[a].0@ == ob[a].0@);
                assert(r[a].0@ == k);
                assert(has_key(r, k));
            } else if has_key(nw, k) {
                assert(has_key(rest_seq, k));
                let a = choose|a: int| 0 <= a < rest_seq.len() && #[trigger] rest_seq[a].0@ == k;
                assert(r[a + out_seq.len()] == rest_seq[a]);
                assert(r[a + out_seq.len()].0@ == k);
                assert(has_key(r, k));
            }
        }
        assert forall|k: Seq<char>| #[trigger] entries_map(r).contains_key(k) implies entries_map(
            r,
        )[k] == want[k] by {
            let a = choose|a: int| 0 <= a < r.len() && #[trigger] r[a].0@ == k;
            lemma_entries_map_at(r, a);
            if a < out_seq.len() {
                assert(r[a] == out_seq[a]);
                lemma_entries_map_at(ob, a);
                if has_key(nw, k) {
                    let b = choose|b: int| 0 <= b < nw.len() && #[trigger] nw[b].0@ == k;
                    lemma_entries_map_at(nw, b);
                }
            } else {
                assert(r[a] == rest_seq[a - out_seq.len()]);
                assert(has_key(rest_seq, k));
                lemma_entries_map_at(rest_seq, a - out_seq.len());
                let b = choose|b: int| 0 <= b < nw.len() && #[trigger] nw[b].0@ == k;
                lemma_entries_map_at(nw, b);
            }
        }
        assert(entries_map(r) =~= want);
    }
    *base = out;
}

/// Sets the record of key `k` to `v`, replacing the record of an entry with
/// that key or adding an entry at the end.
pub fn upsert<V: View>(s: &mut Vec<(String, V)>, k: String, v: V)
    requires
        keys_unique(old(s)@),
    ensures
        keys_unique(final(s)@),
        entries_map(final(s)@) == entries_map(old(s)@).insert(k@, v@),
        has_key(old(s)@, k@) ==> final(s)@.len() == old(s)@.len(),
        has_key(old(s)@, k@) ==> forall|i: int|
            0 <= i < old(s)@.len() ==> (#[trigger] final(s)@[i]).0@ == old(s)@[i].0@ && (old(s)@[i].0@ != k@
                ==> final(s)@[i] == old(s)@[i]) && (old(s)@[i].0@ == k@ ==> final(s)@[i].1 == v),
{
    let ghost before = s@;
    let ghost kv = k@;
    let ghost vv = v@;
    let ghost v0 = v;
    match find_key(s, k.as_str()) {
        Some(j) => {
            s.set(j, (k, v));
            proof {
                let after = s@;
                assert forall|a: int, b: int|
                    0 <= a < after.len() && 0 <= b < after.len() && a != b implies #[trigger] after[a].0@
                    != #[trigger] after[b].0@ by {
                    if a != j && b != j {
                        assert(after[a] == before[a] && after[b] == before[b]);
                    } else if a == j {
                        assert(after[b] == before[b]);
                        assert(before[a].0@ == kv);
                    } else {
                        assert(after[a] == before[a]);
                        assert(before[b].0@ == kv);
                    }
                }
                assert forall|kk: Seq<char>| #[trigger] has_key(after, kk) <==> has_key(before, kk) by {
                    if has_key(after, kk) {
                        let a = choose|a: int| 0 <= a < after.len() && #[trigger] after[a].0@ == kk;
                        if a == j {
                            assert(before[j as int].0@ == kk);
                        } else {
                            assert(before[a] == after[a]);
                        }
                    }
                    if has_key(before, kk) {
                        let a = choose|a: int| 0 <= a < before.len() && #[trigger] before[a].0@ == kk;
                        if a == j {
                            assert(after[j as int].0@ == kk);
                        } else {
                            assert(before[a] == after[a]);
                        }
                    }
                }
                let want = entries_map(before).insert(kv, vv);
                assert forall|kk: Seq<char>| #[trigger] entries_map(after).contains_key(kk) implies entries_map(after)[kk] == want[kk] by {
                    let a = choose|a: int| 0 <= a < after.len() && #[trigger] after[a].0@ == kk;
                    lemma_entries_map_at(after, a);
                    if a != j {
                        assert(before[a] == after[a]);
                        lemma_entries_map_at(before, a);
                    }
                }
                lemma_entries_map_at(before, j as int);
                assert(entries_map(after) =~= want);
                assert forall|i: int| 0 <= i < before.len() implies (#[trigger] after[i]).0@ == before[i].0@ && (
                before[i].0@ != kv ==> after[i] == before[i]) && (before[i].0@ == kv ==> after[i].1 == v0) by {
                    if i != j {
                        assert(after[i] == before[i]);
                        if before[i].0@ == kv {
                            assert(before[j as int].0@ == kv);
                        }
                    }
                }
            }
        },
        None => {
            s.push((k, v));
            proof {
                let after = s@;
                assert(after =~= before.push(after.last()));
                assert forall|a: int, b: int|
                    0 <= a < after.len() && 0 <= b < after.len() && a != b implies #[trigger] after[a].0@
                    != #[trigger] after[b].0@ by {
                    if a < before.len() && b < before.len() {
                        assert(after[a] == before[a] && after[b] == before[b]);
                    } else if a < before.len() {
                        assert(after[a] == before[a]);
                    } else {
                        assert(after[b] == before[b]);
                    }
                }
                let want = entries_map(before).insert(kv, vv);
                assert forall|kk: Seq<char>| #[trigger] has_key(after, kk) <==> (has_key(before, kk) || kk == kv) by {
                    if has_key(after, kk) {
                        let a = choose|a: int| 0 <= a < after.len() && #[trigger] after[a].0@ == kk;
                        if a < before.len() {
                            assert(before[a] == after[a]);
                        }
                    }
                    if has_key(before, kk) {
                        let a = choose|a: int| 0 <= a < before.len() && #[trigger] before[a].0@ == kk;
                        assert(before[a] == after[a]);
                    }
                    if kk == kv {
                        assert(after[before.len() as int].0@ == kk);
                    }
                }
                assert forall|kk: Seq<char>| #[trigger] entries_map(after).contains_key(kk) implies entries_map(after)[kk] == want[kk] by {
                    let a = choose|a: int| 0 <= a < after.len() && #[trigger] after[a].0@ == kk;
                    lemma_entries_map_at(after, a);
                    if a < before.len() {
                        assert(before[a] == after[a]);
                        lemma_entries_map_at(before, a);
                    }
                }
                assert(entries_map(after) =~= want);
            }
        },
    }
}

/// Removes the entry with key `k`, if there is one, and gives back its
/// record.
pub fn take_key<V: View>(s: &mut Vec<(String, V)>, k: &str) -> (r: Option<V>)
    requires
        keys_unique(old(s)@),
    ensures
        keys_unique(final(s)@),
        entries_map(final(s)@) == entries_map(old(s)@).remove(k@),
        match r {
            Some(v) => has_key(old(s)@, k@) && v@ == entries_map(old(s)@)[k@],
            None => !has_key(old(s)@, k@),
        },
{
    let ghost before = s@;
    match find_key(s, k) {
        Some(j) => {
            proof {
                lemma_entries_map_at(before, j as int);
                assert forall|kk: Seq<char>| true implies (#[trigger] has_key(
                    before.remove(j as int),
                    kk,
                ) <==> (has_key(before, kk) && kk != k@)) && (has_key(before.remove(j as int), kk)
                    ==> entries_map(before.remove(j as int))[kk] == entries_map(before)[kk]) by {
                    lemma_has_key_remove(before, j as int, kk);
                }
                lemma_has_key_remove(before, j as int, k@);
                assert(entries_map(before.remove(j as int)) =~= entries_map(before).remove(k@));
            }
            let (_, v) = s.remove(j);
            Some(v)
        },
        None => {
            assert(entries_map(before) =~= entries_map(before).remove(k@));
            None
        },
    }
}

} // verus!
