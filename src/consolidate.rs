use crate::fileinfo::{Fileinfo, FileinfoView};
use std::collections::HashMap;
use vstd::multiset::Multiset;
use vstd::prelude::*;

verus! {

/// The abstract values of a sequence of records.
pub open spec fn views(s: Seq<Fileinfo>) -> Seq<FileinfoView> {
    s.map_values(|f: Fileinfo| f@)
}

/// The first position in `acc` of a record with key `k`.
pub open spec fn find_key(acc: Seq<FileinfoView>, k: (u128, u128)) -> Option<int>
    decreases acc.len(),
{
    if acc.len() == 0 {
        None
    } else {
        match find_key(acc.drop_last(), k) {
            Some(i) => Some(i),
            None => if acc.last().key() == Some(k) {
                Some(acc.len() - 1)
            } else {
                None
            },
        }
    }
}

/// One step of consolidation: a record without paths is dropped; a record
/// whose key is already held by an earlier survivor gives that survivor its
/// paths; any other record survives as it is.
pub open spec fn merge_into(acc: Seq<FileinfoView>, r: FileinfoView) -> Seq<FileinfoView> {
    if r.paths.len() == 0 {
        acc
    } else {
        match r.key() {
            Some(k) => match find_key(acc, k) {
                Some(i) => acc.update(i, acc[i].with_paths(acc[i].paths + r.paths)),
                None => acc.push(r),
            },
            None => acc.push(r),
        }
    }
}

/// Consolidation of a sequence of records, taken in order: the first record
/// seen with a key is the survivor for that key.
pub open spec fn consolidate(s: Seq<FileinfoView>) -> Seq<FileinfoView>
    decreases s.len(),
{
    if s.len() == 0 {
        Seq::empty()
    } else {
        merge_into(consolidate(s.drop_last()), s.last())
    }
}

proof fn lemma_find_key(acc: Seq<FileinfoView>, k: (u128, u128))
    ensures
        match find_key(acc, k) {
            Some(j) => 0 <= j < acc.len() && acc[j].key() == Some(k) && forall|i: int|
                0 <= i < j ==> acc[i].key() != Some(k),
            None => forall|i: int| 0 <= i < acc.len() ==> acc[i].key() != Some(k),
        },
    decreases acc.len(),
{
    if acc.len() > 0 {
        let pre = acc.drop_last();
        lemma_find_key(pre, k);
        assert(forall|i: int| 0 <= i < pre.len() ==> pre[i] == acc[i]);
    }
}

fn key_of(f: &Fileinfo) -> (r: Option<(u128, u128)>)
    ensures
        r == f@.key(),
{
    match (f.get_partial_hash(), f.get_full_hash()) {
        (Some(p), Some(q)) => Some((p, q)),
        _ => None,
    }
}

/// The full hash of a record that has a key.
pub open spec fn keyed_full(v: FileinfoView) -> Option<u128> {
    match v.key() {
        Some(k) => Some(k.1),
        None => None,
    }
}

/// `a` is the first position in `acc` of a record with a key whose full
/// hash is `h`.
pub open spec fn first_with_full(acc: Seq<FileinfoView>, h: u128, a: int) -> bool {
    &&& 0 <= a < acc.len()
    &&& keyed_full(acc[a]) == Some(h)
    &&& forall|b: int| 0 <= b < a ==> keyed_full(#[trigger] acc[b]) != Some(h)
}

/// Some record of `acc` has a key whose full hash is `h`.
pub open spec fn has_full(acc: Seq<FileinfoView>, h: u128) -> bool {
    exists|a: int| 0 <= a < acc.len() && #[trigger] keyed_full(acc[a]) == Some(h)
}

/// Index of the survivors by the full hash of their key.
spec fn indexes(index: Map<u128, usize>, acc: Seq<FileinfoView>) -> bool {
    &&& forall|h: u128| #[trigger] index.contains_key(h) <==> has_full(acc, h)
    &&& forall|h: u128| #[trigger] index.contains_key(h) ==> first_with_full(acc, h, index[h] as int)
}

fn find_survivor(out: &Vec<Fileinfo>, k: (u128, u128)) -> (r: Option<usize>)
    ensures
        r is Some <==> find_key(views(out@), k) is Some,
        r is Some ==> find_key(views(out@), k) == Some(r->0 as int),
{
    let ghost acc = views(out@);
    let mut j: usize = 0;
    while j < out.len()
        invariant
            j <= out.len(),
            acc == views(out@),
            forall|m: int| 0 <= m < j ==> out@[m]@.key() != Some(k),
        decreases out.len() - j,
    {
        if key_of(&out[j]) == Some(k) {
            proof {
                lemma_find_key(acc, k);
                assert(acc[j as int] == out@[j as int]@);
            }
            return Some(j);
        }
        j = j + 1;
    }
    proof {
        lemma_find_key(acc, k);
    }
    None
}

proof fn lemma_indexes_keep(index: Map<u128, usize>, acc: Seq<FileinfoView>, acc2: Seq<FileinfoView>)
    requires
        indexes(index, acc),
        acc.len() <= acc2.len(),
        forall|a: int| 0 <= a < acc.len() ==> keyed_full(#[trigger] acc2[a]) == keyed_full(acc[a]),
        forall|a: int| acc.len() <= a < acc2.len() ==> keyed_full(#[trigger] acc2[a]) is None,
    ensures
        indexes(index, acc2),
{
    assert forall|h: u128| #[trigger] index.contains_key(h) <==> has_full(acc2, h) by {
        if has_full(acc2, h) {
            let a = choose|a: int| 0 <= a < acc2.len() && #[trigger] keyed_full(acc2[a]) == Some(h);
            assert(keyed_full(acc[a]) == Some(h));
        }
        if has_full(acc, h) {
            let a = choose|a: int| 0 <= a < acc.len() && #[trigger] keyed_full(acc[a]) == Some(h);
            assert(keyed_full(acc2[a]) == Some(h));
        }
    }
    assert forall|h: u128| #[trigger] index.contains_key(h) implies first_with_full(
        acc2,
        h,
        index[h] as int,
    ) by {
        assert(first_with_full(acc, h, index[h] as int));
        assert forall|b: int| 0 <= b < index[h] implies keyed_full(#[trigger] acc2[b]) != Some(h) by {
            assert(keyed_full(acc[b]) != Some(h));
        }
    }
}

/// Merges every record into the first earlier record that has the same pair
/// of hashes, both present; records lacking either hash stay on their own.
/// Records without paths are dropped. Survivors are found by their full
/// hash, so a bucket is settled in about linear time.
pub fn dedupe(files: Vec<Fileinfo>) -> (r: Vec<Fileinfo>)
    ensures
        views(r@) == consolidate(views(files@)),
{
    let ghost input = files@;
    let mut out: Vec<Fileinfo> = Vec::new();
    let mut index: HashMap<u128, usize> = HashMap::new();
    for f in it: files.into_iter()
        invariant
            it.seq() == input,
            views(out@) == consolidate(views(input.take(it.index() as int))),
            indexes(index@, views(out@)),
    {
        let ghost acc = views(out@);
        let ghost i = it.index() as int;
        proof {
            assert(input.take(i + 1) =~= input.take(i).push(f));
            assert(views(input.take(i + 1)) =~= views(input.take(i)).push(f@));
            assert(views(input.take(i + 1)).drop_last() =~= views(input.take(i)));
        }
        let mut f = f;
        if f.get_paths().len() == 0 {
            proof {
                assert(merge_into(acc, f@) == acc);
            }
        } else {
            match key_of(&f) {
                None => {
                    out.push(f);
                    proof {
                        assert(views(out@) =~= acc.push(f@));
                        lemma_indexes_keep(index@, acc, views(out@));
                    }
                },
                Some(k) => {
                    let h = k.1;
                    let target = match index.get(&h) {
                        Some(a) => {
                            let a = *a;
                            if key_of(&out[a]) == Some(k) {
                                proof {
                                    lemma_find_key(acc, k);
                                    assert(first_with_full(acc, h, a as int));
                                    assert(acc[a as int] == out@[a as int]@);
                                    match find_key(acc, k) {
                                        Some(j) => {
                                            if j < a {
                                                assert(keyed_full(acc[j]) == Some(h));
                                            }
                                        },
                                        None => {},
                                    }
                                }
                                Some(a)
                            } else {
                                find_survivor(&out, k)
                            }
                        },
                        None => {
                            proof {
                                lemma_find_key(acc, k);
                                match find_key(acc, k) {
                                    Some(j) => {
                                        assert(keyed_full(acc[j]) == Some(h));
                                        assert(has_full(acc, h));
                                    },
                                    None => {},
                                }
                            }
                            None
                        },
                    };
                    proof {
                        lemma_find_key(acc, k);
                        match find_key(acc, k) {
                            Some(j) => assert(target is Some && target->0 as int == j),
                            None => assert(target is None),
                        }
                    }
                    match target {
                        Some(j) => {
                            proof {
                                assert(find_key(acc, k) == Some(j as int));
                            }
                            let ghost before = out@;
                            let ghost fv = f@;
                            out[j].take_paths_of(&mut f);
                            proof {
                                assert(out@.len() == before.len());
                                assert(forall|m: int|
                                    0 <= m < out@.len() && m != j ==> out@[m] == before[m]);
                                assert(views(out@) =~= acc.update(
                                    j as int,
                                    acc[j as int].with_paths(acc[j as int].paths + fv.paths),
                                ));
                                lemma_indexes_keep(index@, acc, views(out@));
                            }
                        },
                        None => {
                            let n = out.len();
                            out.push(f);
                            proof {
                                assert(views(out@) =~= acc.push(f@));
                            }
                            if !index.contains_key(&h) {
                                index.insert(h, n);
                                proof {
                                    let acc2 = views(out@);
                                    assert(keyed_full(acc2[n as int]) == Some(h));
                                    assert forall|g: u128| #[trigger] index@.contains_key(g)
                                        <==> has_full(acc2, g) by {
                                        if has_full(acc2, g) && g != h {
                                            let a = choose|a: int|
                                                0 <= a < acc2.len() && #[trigger] keyed_full(
                                                    acc2[a],
                                                ) == Some(g);
                                            assert(keyed_full(acc[a]) == Some(g));
                                        }
                                        if g != h && has_full(acc, g) {
                                            let a = choose|a: int|
                                                0 <= a < acc.len() && #[trigger] keyed_full(
                                                    acc[a],
                                                ) == Some(g);
                                            assert(keyed_full(acc2[a]) == Some(g));
                                        }
                                        if g == h {
                                            assert(has_full(acc2, g));
                                        }
                                    }
                                    assert forall|g: u128| #[trigger] index@.contains_key(
                                        g,
                                    ) implies first_with_full(acc2, g, index@[g] as int) by {
                                        if g == h {
                                            assert forall|b: int| 0 <= b < n implies keyed_full(
                                                #[trigger] acc2[b],
                                            ) != Some(h) by {
                                                assert(acc2[b] == acc[b]);
                                                if keyed_full(acc[b]) == Some(h) {
                                                    assert(has_full(acc, h));
                                                }
                                            }
                                        } else {
                                            assert(first_with_full(acc, g, index@[g] as int));
                                            assert forall|b: int|
                                                0 <= b < index@[g] implies keyed_full(
                                                #[trigger] acc2[b],
                                            ) != Some(g) by {
                                                assert(acc2[b] == acc[b]);
                                            }
                                        }
                                    }
                                }
                            } else {
                                proof {
                                    let acc2 = views(out@);
                                    assert(has_full(acc, h));
                                    assert forall|g: u128| #[trigger] index@.contains_key(g)
                                        <==> has_full(acc2, g) by {
                                        if has_full(acc2, g) {
                                            let a = choose|a: int|
                                                0 <= a < acc2.len() && #[trigger] keyed_full(
                                                    acc2[a],
                                                ) == Some(g);
                                            if a < acc.len() {
                                                assert(keyed_full(acc[a]) == Some(g));
                                            }
                                        }
                                        if has_full(acc, g) {
                                            let a = choose|a: int|
                                                0 <= a < acc.len() && #[trigger] keyed_full(
                                                    acc[a],
                                                ) == Some(g);
                                            assert(keyed_full(acc2[a]) == Some(g));
                                        }
                                    }
                                    assert forall|g: u128| #[trigger] index@.contains_key(
                                        g,
                                    ) implies first_with_full(acc2, g, index@[g] as int) by {
                                        assert(first_with_full(acc, g, index@[g] as int));
                                        assert forall|b: int|
                                            0 <= b < index@[g] implies keyed_full(
                                            #[trigger] acc2[b],
                                        ) != Some(g) by {
                                            assert(acc2[b] == acc[b]);
                                        }
                                    }
                                }
                            }
                        },
                    }
                },
            }
        }
    }
    proof {
        assert(input.take(input.len() as int) =~= input);
    }
    out
}

/// Every path held by a sequence of records, counted with multiplicity.
pub open spec fn all_paths(s: Seq<FileinfoView>) -> Multiset<String>
    decreases s.len(),
{
    if s.len() == 0 {
        Multiset::empty()
    } else {
        all_paths(s.drop_last()).add(s.last().paths.to_multiset())
    }
}

/// The paths of `r` all stand in one record of `out`: the one with its key
/// where it has one, else a record equal to `r`.
pub open spec fn covered(out: Seq<FileinfoView>, r: FileinfoView) -> bool {
    match r.key() {
        Some(k) => exists|a: int|
            0 <= a < out.len() && #[trigger] out[a].key() == Some(k) && forall|x: String|
                r.paths.contains(x) ==> out[a].paths.contains(x),
        None => exists|a: int| 0 <= a < out.len() && #[trigger] out[a] == r,
    }
}

/// Path `x` of record `o` comes from a record of `s` with the same key, or
/// `o` is itself a record of `s` without a key.
pub open spec fn sourced(s: Seq<FileinfoView>, o: FileinfoView, x: String) -> bool {
    exists|i: int|
        0 <= i < s.len() && #[trigger] s[i].paths.contains(x) && match o.key() {
            Some(k) => s[i].key() == Some(k),
            None => o == s[i],
        }
}

/// Record `o` is a non-empty record of `s` with other paths.
pub open spec fn originates(s: Seq<FileinfoView>, o: FileinfoView) -> bool {
    exists|i: int|
        0 <= i < s.len() && s[i].paths.len() > 0 && #[trigger] s[i].with_paths(o.paths) == o
}

proof fn lemma_all_paths_update(acc: Seq<FileinfoView>, i: int, q: Seq<String>)
    requires
        0 <= i < acc.len(),
    ensures
        all_paths(acc.update(i, acc[i].with_paths(acc[i].paths + q))) == all_paths(acc).add(
            q.to_multiset(),
        ),
    decreases acc.len(),
{
    let u = acc.update(i, acc[i].with_paths(acc[i].paths + q));
    if i == acc.len() - 1 {
        assert(u.drop_last() =~= acc.drop_last());
        vstd::seq_lib::lemma_multiset_commutative(acc[i].paths, q);
        assert(all_paths(u) =~= all_paths(acc).add(q.to_multiset()));
    } else {
        lemma_all_paths_update(acc.drop_last(), i, q);
        assert(u.drop_last() =~= acc.drop_last().update(
            i,
            acc.drop_last()[i].with_paths(acc.drop_last()[i].paths + q),
        ));
        assert(all_paths(u) =~= all_paths(acc).add(q.to_multiset()));
    }
}

/// Consolidation keeps every path, each as many times as it came.
proof fn lemma_consolidate_paths(s: Seq<FileinfoView>)
    ensures
        all_paths(consolidate(s)) == all_paths(s),
    decreases s.len(),
{
    if s.len() > 0 {
        let pre = s.drop_last();
        let r = s.last();
        let acc = consolidate(pre);
        lemma_consolidate_paths(pre);
        if r.paths.len() == 0 {
            vstd::seq_lib::to_multiset_len(r.paths);
            vstd::multiset::lemma_multiset_empty_len(r.paths.to_multiset());
            assert(r.paths.to_multiset() =~= Multiset::empty());
            assert(all_paths(s) =~= all_paths(pre));
        } else {
            match r.key() {
                Some(k) => match find_key(acc, k) {
                    Some(j) => {
                        lemma_find_key(acc, k);
                        lemma_all_paths_update(acc, j, r.paths);
                    },
                    None => {
                        assert(acc.push(r).drop_last() =~= acc);
                    },
                },
                None => {
                    assert(acc.push(r).drop_last() =~= acc);
                },
            }
        }
    }
}

/// Consolidation yields no record without paths.
proof fn lemma_consolidate_nonempty(s: Seq<FileinfoView>)
    ensures
        forall|a: int|
            0 <= a < consolidate(s).len() ==> #[trigger] consolidate(s)[a].paths.len() > 0,
    decreases s.len(),
{
    if s.len() > 0 {
        let pre = s.drop_last();
        let r = s.last();
        let acc = consolidate(pre);
        lemma_consolidate_nonempty(pre);
        if r.paths.len() > 0 {
            if let Some(k) = r.key() {
                if let Some(j) = find_key(acc, k) {
                    lemma_find_key(acc, k);
                }
            }
        }
        assert forall|a: int| 0 <= a < consolidate(s).len() implies #[trigger] consolidate(
            s,
        )[a].paths.len() > 0 by {
            if a < acc.len() {
                assert(acc[a].paths.len() > 0);
            }
        }
    }
}

/// Two records that survive consolidation never share a key.
proof fn lemma_consolidate_keys_distinct(s: Seq<FileinfoView>)
    ensures
        forall|a: int, b: int|
            0 <= a < consolidate(s).len() && 0 <= b < consolidate(s).len() && a != b
                && (#[trigger] consolidate(s)[a]).key() is Some ==> consolidate(s)[a].key()
                != (#[trigger] consolidate(s)[b]).key(),
    decreases s.len(),
{
    if s.len() > 0 {
        let pre = s.drop_last();
        let r = s.last();
        let acc = consolidate(pre);
        let out = consolidate(s);
        lemma_consolidate_keys_distinct(pre);
        if r.paths.len() > 0 {
            if let Some(k) = r.key() {
                lemma_find_key(acc, k);
                if let Some(j) = find_key(acc, k) {
                    assert(forall|a: int| 0 <= a < out.len() ==> out[a].key() == acc[a].key());
                }
            }
        }
        assert forall|a: int, b: int|
            0 <= a < out.len() && 0 <= b < out.len() && a != b && (
            #[trigger] out[a]).key() is Some implies out[a].key() != (#[trigger] out[b]).key() by {
            if a < acc.len() && b < acc.len() {
                assert(acc[a].key() != acc[b].key());
            }
        }
    }
}

/// Every record of non-empty paths is covered by the result of
/// consolidation.
proof fn lemma_consolidate_covers(s: Seq<FileinfoView>)
    ensures
        forall|i: int|
            0 <= i < s.len() && s[i].paths.len() > 0 ==> covered(consolidate(s), #[trigger] s[i]),
    decreases s.len(),
{
    if s.len() > 0 {
        let pre = s.drop_last();
        let r = s.last();
        let acc = consolidate(pre);
        let out = consolidate(s);
        lemma_consolidate_covers(pre);
        assert forall|i: int| 0 <= i < s.len() && s[i].paths.len() > 0 implies covered(
            out,
            #[trigger] s[i],
        ) by {
            if i < pre.len() {
                assert(s[i] == pre[i]);
                assert(covered(acc, pre[i]));
                match s[i].key() {
                    Some(k) => {
                        let a = choose|a: int|
                            0 <= a < acc.len() && #[trigger] acc[a].key() == Some(k) && forall|
                                x: String,
                            | s[i].paths.contains(x) ==> acc[a].paths.contains(x);
                        if r.paths.len() > 0 && r.key() is Some {
                            lemma_find_key(acc, r.key()->0);
                        }
                        assert(out[a].key() == Some(k));
                        assert forall|x: String| s[i].paths.contains(x) implies out[
                            a
                        ].paths.contains(x) by {
                            assert(acc[a].paths.contains(x));
                            if out[a] != acc[a] {
                                let idx = acc[a].paths.index_of(x);
                                assert(out[a].paths[idx] == x);
                            }
                        }
                    },
                    None => {
                        let a = choose|a: int| 0 <= a < acc.len() && #[trigger] acc[a] == s[i];
                        if r.paths.len() > 0 && r.key() is Some {
                            lemma_find_key(acc, r.key()->0);
                        }
                        assert(out[a] == s[i]);
                    },
                }
            } else {
                assert(s[i] == r);
                match r.key() {
                    Some(k) => {
                        lemma_find_key(acc, k);
                        match find_key(acc, k) {
                            Some(j) => {
                                assert forall|x: String| r.paths.contains(x) implies out[
                                    j
                                ].paths.contains(x) by {
                                    let idx = r.paths.index_of(x);
                                    assert(out[j].paths[acc[j].paths.len() + idx] == x);
                                }
                                assert(out[j].key() == Some(k));
                            },
                            None => {
                                assert(out[acc.len() as int] == r);
                            },
                        }
                    },
                    None => {
                        assert(out[acc.len() as int] == r);
                    },
                }
            }
        }
    }
}

proof fn lemma_contains_concat(p: Seq<String>, q: Seq<String>, x: String)
    ensures
        (p + q).contains(x) <==> p.contains(x) || q.contains(x),
{
    if (p + q).contains(x) {
        let idx = (p + q).index_of(x);
        if idx < p.len() {
            assert(p[idx] == x);
        } else {
            assert(q[idx - p.len()] == x);
        }
    }
    if p.contains(x) {
        let idx = p.index_of(x);
        assert((p + q)[idx] == x);
    }
    if q.contains(x) {
        let idx = q.index_of(x);
        assert((p + q)[p.len() + idx] == x);
    }
}

/// Every path of a record after consolidation comes from a record of the
/// input with the same key.
proof fn lemma_consolidate_sourced(s: Seq<FileinfoView>)
    ensures
        forall|a: int, x: String|
            0 <= a < consolidate(s).len() && #[trigger] consolidate(s)[a].paths.contains(x)
                ==> sourced(s, consolidate(s)[a], x),
    decreases s.len(),
{
    if s.len() > 0 {
        let pre = s.drop_last();
        let r = s.last();
        let acc = consolidate(pre);
        let out = consolidate(s);
        lemma_consolidate_sourced(pre);
        if r.paths.len() > 0 && r.key() is Some {
            lemma_find_key(acc, r.key()->0);
        }
        assert forall|a: int, x: String|
            0 <= a < out.len() && #[trigger] out[a].paths.contains(x) implies sourced(
            s,
            out[a],
            x,
        ) by {
            if a < acc.len() && out[a] == acc[a] {
                assert(sourced(pre, acc[a], x));
                let i = choose|i: int|
                    0 <= i < pre.len() && #[trigger] pre[i].paths.contains(x) && match acc[a].key() {
                        Some(k) => pre[i].key() == Some(k),
                        None => acc[a] == pre[i],
                    };
                assert(s[i] == pre[i]);
            } else if a < acc.len() {
                let k = r.key()->0;
                lemma_find_key(acc, k);
                assert(out[a] == acc[a].with_paths(acc[a].paths + r.paths));
                lemma_contains_concat(acc[a].paths, r.paths, x);
                if acc[a].paths.contains(x) {
                    assert(sourced(pre, acc[a], x));
                    let i = choose|i: int|
                        0 <= i < pre.len() && #[trigger] pre[i].paths.contains(x) && match acc[
                            a
                        ].key() {
                            Some(k) => pre[i].key() == Some(k),
                            None => acc[a] == pre[i],
                        };
                    assert(s[i] == pre[i]);
                } else {
                    assert(s[s.len() - 1] == r);
                }
            } else {
                assert(out[a] == r);
                assert(s[s.len() - 1] == r);
            }
        }
    }
}

/// Every record after consolidation is a non-empty input record whose paths
/// may have grown.
pub(crate) proof fn lemma_consolidate_origin(s: Seq<FileinfoView>)
    ensures
        forall|a: int| 0 <= a < consolidate(s).len() ==> originates(s, #[trigger] consolidate(s)[a]),
    decreases s.len(),
{
    if s.len() > 0 {
        let pre = s.drop_last();
        let r = s.last();
        let acc = consolidate(pre);
        let out = consolidate(s);
        lemma_consolidate_origin(pre);
        if r.paths.len() > 0 && r.key() is Some {
            lemma_find_key(acc, r.key()->0);
        }
        assert forall|a: int| 0 <= a < out.len() implies originates(s, #[trigger] out[a]) by {
            if a < acc.len() {
                assert(originates(pre, acc[a]));
                let i = choose|i: int|
                    0 <= i < pre.len() && pre[i].paths.len() > 0 && #[trigger] pre[i].with_paths(
                        acc[a].paths,
                    ) == acc[a];
                assert(s[i] == pre[i]);
                assert(s[i].with_paths(out[a].paths) == out[a]);
            } else {
                assert(s[s.len() - 1] == r);
                assert(r.with_paths(r.paths) == r);
            }
        }
    }
}

/// Record `o` holds every path of record `r`.
pub open spec fn holds_paths_of(o: FileinfoView, r: FileinfoView) -> bool {
    forall|x: String| r.paths.contains(x) ==> o.paths.contains(x)
}

/// Every path held by a record of `s` with key `k`.
pub open spec fn key_class(s: Seq<FileinfoView>, k: (u128, u128)) -> Set<String> {
    Set::new(
        |x: String|
            exists|i: int| 0 <= i < s.len() && s[i].key() == Some(k) && #[trigger] s[i].paths.contains(x),
    )
}

/// The paths that record `r` of `s` is expected to share a group with.
pub open spec fn group_of(s: Seq<FileinfoView>, r: FileinfoView) -> Set<String> {
    match r.key() {
        Some(k) => key_class(s, k),
        None => r.paths.to_set(),
    }
}

/// The groups that a sequence of records describes: for each record, its
/// length and the set of its paths.
pub open spec fn groups(out: Seq<FileinfoView>) -> Set<(u64, Set<String>)> {
    Set::new(
        |g: (u64, Set<String>)|
            exists|a: int| 0 <= a < out.len() && g == (out[a].length, #[trigger] out[a].paths.to_set()),
    )
}

/// The groups that consolidation of `s` is expected to give.
pub open spec fn expected_groups(s: Seq<FileinfoView>) -> Set<(u64, Set<String>)> {
    Set::new(
        |g: (u64, Set<String>)|
            exists|i: int|
                0 <= i < s.len() && s[i].paths.len() > 0 && g == (s[i].length, group_of(
                    s,
                    #[trigger] s[i],
                )),
    )
}

/// All records of `s` have one length, as in a bucket.
pub open spec fn same_length(s: Seq<FileinfoView>) -> bool {
    forall|i: int, j: int| 0 <= i < s.len() && 0 <= j < s.len() ==> #[trigger] s[i].length == #[trigger] s[j].length
}

proof fn lemma_consolidate_all(s: Seq<FileinfoView>)
    ensures
        forall|a: int|
            0 <= a < consolidate(s).len() ==> #[trigger] consolidate(s)[a].paths.len() > 0,
        forall|a: int, b: int|
            0 <= a < consolidate(s).len() && 0 <= b < consolidate(s).len() && a != b
                && (#[trigger] consolidate(s)[a]).key() is Some ==> consolidate(s)[a].key()
                != (#[trigger] consolidate(s)[b]).key(),
        forall|i: int|
            0 <= i < s.len() && s[i].paths.len() > 0 ==> covered(consolidate(s), #[trigger] s[i]),
        forall|a: int, x: String|
            0 <= a < consolidate(s).len() && #[trigger] consolidate(s)[a].paths.contains(x)
                ==> sourced(s, consolidate(s)[a], x),
        forall|a: int| 0 <= a < consolidate(s).len() ==> originates(s, #[trigger] consolidate(s)[a]),
        all_paths(consolidate(s)) == all_paths(s),
{
    lemma_consolidate_nonempty(s);
    lemma_consolidate_keys_distinct(s);
    lemma_consolidate_covers(s);
    lemma_consolidate_sourced(s);
    lemma_consolidate_origin(s);
    lemma_consolidate_paths(s);
}

proof fn lemma_keyed_record_is_class(s: Seq<FileinfoView>, a: int, k: (u128, u128))
    requires
        0 <= a < consolidate(s).len(),
        consolidate(s)[a].key() == Some(k),
    ensures
        consolidate(s)[a].paths.to_set() == key_class(s, k),
{
    let out = consolidate(s);
    lemma_consolidate_all(s);
    assert forall|x: String| out[a].paths.to_set().contains(x) implies key_class(s, k).contains(
        x,
    ) by {
        assert(out[a].paths.contains(x));
        assert(sourced(s, out[a], x));
    }
    assert forall|x: String| key_class(s, k).contains(x) implies out[a].paths.to_set().contains(
        x,
    ) by {
        let i = choose|i: int|
            0 <= i < s.len() && s[i].key() == Some(k) && #[trigger] s[i].paths.contains(x);
        assert(s[i].paths.len() > 0);
        assert(covered(out, s[i]));
        let b = choose|b: int|
            0 <= b < out.len() && #[trigger] out[b].key() == Some(k) && forall|y: String|
                s[i].paths.contains(y) ==> out[b].paths.contains(y);
        if b != a {
            assert(out[a].key() != out[b].key());
        }
    }
    assert(out[a].paths.to_set() =~= key_class(s, k));
}

/// The groups that consolidation yields are those that the input describes.
proof fn lemma_consolidate_groups(s: Seq<FileinfoView>)
    requires
        same_length(s),
    ensures
        groups(consolidate(s)) == expected_groups(s),
{
    let out = consolidate(s);
    lemma_consolidate_all(s);
    assert forall|g: (u64, Set<String>)| groups(out).contains(g) implies expected_groups(
        s,
    ).contains(g) by {
        let a = choose|a: int|
            0 <= a < out.len() && g == (out[a].length, #[trigger] out[a].paths.to_set());
        assert(originates(s, out[a]));
        let i = choose|i: int|
            0 <= i < s.len() && s[i].paths.len() > 0 && #[trigger] s[i].with_paths(out[a].paths)
                == out[a];
        match out[a].key() {
            Some(k) => {
                lemma_keyed_record_is_class(s, a, k);
                assert(s[i].key() == Some(k));
                assert(g == (s[i].length, group_of(s, s[i])));
            },
            None => {
                let x = out[a].paths[0];
                assert(out[a].paths.contains(x));
                assert(sourced(s, out[a], x));
                let i2 = choose|i2: int|
                    0 <= i2 < s.len() && #[trigger] s[i2].paths.contains(x) && out[a] == s[i2];
                assert(g == (s[i2].length, group_of(s, s[i2])));
            },
        }
    }
    assert forall|g: (u64, Set<String>)| expected_groups(s).contains(g) implies groups(
        out,
    ).contains(g) by {
        let i = choose|i: int|
            0 <= i < s.len() && s[i].paths.len() > 0 && g == (s[i].length, group_of(
                s,
                #[trigger] s[i],
            ));
        assert(covered(out, s[i]));
        match s[i].key() {
            Some(k) => {
                let a = choose|a: int|
                    0 <= a < out.len() && #[trigger] out[a].key() == Some(k) && forall|x: String|
                        s[i].paths.contains(x) ==> out[a].paths.contains(x);
                lemma_keyed_record_is_class(s, a, k);
                assert(originates(s, out[a]));
                let i3 = choose|i3: int|
                    0 <= i3 < s.len() && s[i3].paths.len() > 0 && #[trigger] s[i3].with_paths(
                        out[a].paths,
                    ) == out[a];
                assert(s[i3].length == s[i].length);
                assert(g == (out[a].length, out[a].paths.to_set()));
            },
            None => {
                let a = choose|a: int| 0 <= a < out.len() && #[trigger] out[a] == s[i];
                assert(g == (out[a].length, out[a].paths.to_set()));
            },
        }
    }
    assert(groups(out) =~= expected_groups(s));
}

/// Consolidation loses no path and adds none: the paths of the result,
/// counted with multiplicity, are those of the input, and no resulting
/// record is empty. So where the input holds each path once, each path
/// stands in exactly one resulting record.
pub proof fn law_consolidation_partitions_paths(s: Seq<FileinfoView>)
    ensures
        all_paths(consolidate(s)) == all_paths(s),
        forall|a: int|
            0 <= a < consolidate(s).len() ==> #[trigger] consolidate(s)[a].paths.len() > 0,
{
    lemma_consolidate_all(s);
}

/// Merging is complete: no two records left by consolidation carry the same
/// pair of hashes.
pub proof fn law_survivors_have_distinct_hashes(s: Seq<FileinfoView>)
    ensures
        forall|a: int, b: int|
            0 <= a < consolidate(s).len() && 0 <= b < consolidate(s).len() && a != b
                && (#[trigger] consolidate(s)[a]).key() is Some ==> consolidate(s)[a].key()
                != (#[trigger] consolidate(s)[b]).key(),
{
    lemma_consolidate_keys_distinct(s);
}

/// Two non-empty records that carry the same pair of hashes end up in one
/// record, which holds the paths of both.
pub proof fn law_equal_hashes_share_a_record(s: Seq<FileinfoView>, i: int, j: int)
    requires
        0 <= i < s.len(),
        0 <= j < s.len(),
        s[i].paths.len() > 0,
        s[j].paths.len() > 0,
        s[i].key() is Some,
        s[i].key() == s[j].key(),
    ensures
        exists|a: int|
            0 <= a < consolidate(s).len() && holds_paths_of(#[trigger] consolidate(s)[a], s[i])
                && holds_paths_of(consolidate(s)[a], s[j]),
{
    let out = consolidate(s);
    let k = s[i].key()->0;
    lemma_consolidate_all(s);
    assert(covered(out, s[i]));
    assert(covered(out, s[j]));
    let a = choose|a: int|
        0 <= a < out.len() && #[trigger] out[a].key() == Some(k) && forall|x: String|
            s[i].paths.contains(x) ==> out[a].paths.contains(x);
    let b = choose|b: int|
        0 <= b < out.len() && #[trigger] out[b].key() == Some(k) && forall|x: String|
            s[j].paths.contains(x) ==> out[b].paths.contains(x);
    if a != b {
        assert(out[a].key() != out[b].key());
    }
    assert(holds_paths_of(out[a], s[i]) && holds_paths_of(out[a], s[j]));
}

/// Two paths in one resulting record come from input records that carry
/// the same pair of hashes, or from one input record that carries neither
/// pair and was kept as it was.
pub proof fn law_record_members_share_hashes(s: Seq<FileinfoView>, a: int, x: String, y: String)
    requires
        0 <= a < consolidate(s).len(),
        consolidate(s)[a].paths.contains(x),
        consolidate(s)[a].paths.contains(y),
    ensures
        exists|i: int, j: int|
            0 <= i < s.len() && 0 <= j < s.len() && #[trigger] s[i].paths.contains(x)
                && #[trigger] s[j].paths.contains(y) && (s[i].key() is Some ==> s[i].key()
                == s[j].key()) && (s[i].key() is None ==> s[i] == s[j]),
{
    let out = consolidate(s);
    lemma_consolidate_all(s);
    assert(sourced(s, out[a], x));
    assert(sourced(s, out[a], y));
    let i = choose|i: int|
        0 <= i < s.len() && #[trigger] s[i].paths.contains(x) && match out[a].key() {
            Some(k) => s[i].key() == Some(k),
            None => out[a] == s[i],
        };
    let j = choose|j: int|
        0 <= j < s.len() && #[trigger] s[j].paths.contains(y) && match out[a].key() {
            Some(k) => s[j].key() == Some(k),
            None => out[a] == s[j],
        };
    if out[a].key() is None {
        assert(s[i].key() is None);
    }
}

/// The order in which records arrive does not change the groups that
/// consolidation makes: two inputs that hold the same records, all of one
/// length, give the same set of (length, set of paths) groups.
pub proof fn law_groups_independent_of_order(s1: Seq<FileinfoView>, s2: Seq<FileinfoView>)
    requires
        same_length(s1),
        forall|r: FileinfoView| s1.contains(r) <==> s2.contains(r),
    ensures
        groups(consolidate(s1)) == groups(consolidate(s2)),
{
    assert forall|i: int, j: int| 0 <= i < s2.len() && 0 <= j < s2.len() implies #[trigger] s2[
        i
    ].length == #[trigger] s2[j].length by {
        assert(s1.contains(s2[i]));
        assert(s1.contains(s2[j]));
    }
    lemma_consolidate_groups(s1);
    lemma_consolidate_groups(s2);
    assert forall|k: (u128, u128)| #[trigger] key_class(s1, k) == key_class(s2, k) by {
        assert forall|x: String| key_class(s1, k).contains(x) implies key_class(s2, k).contains(
            x,
        ) by {
            let i = choose|i: int|
                0 <= i < s1.len() && s1[i].key() == Some(k) && #[trigger] s1[i].paths.contains(x);
            assert(s2.contains(s1[i]));
        }
        assert forall|x: String| key_class(s2, k).contains(x) implies key_class(s1, k).contains(
            x,
        ) by {
            let i = choose|i: int|
                0 <= i < s2.len() && s2[i].key() == Some(k) && #[trigger] s2[i].paths.contains(x);
            assert(s1.contains(s2[i]));
        }
        assert(key_class(s1, k) =~= key_class(s2, k));
    }
    assert forall|g: (u64, Set<String>)| expected_groups(s1).contains(g) implies expected_groups(
        s2,
    ).contains(g) by {
        let i = choose|i: int|
            0 <= i < s1.len() && s1[i].paths.len() > 0 && g == (s1[i].length, group_of(
                s1,
                #[trigger] s1[i],
            ));
        assert(s2.contains(s1[i]));
        let j = choose|j: int| 0 <= j < s2.len() && s2[j] == s1[i];
        assert(group_of(s1, s1[i]) == group_of(s2, s2[j]));
    }
    assert forall|g: (u64, Set<String>)| expected_groups(s2).contains(g) implies expected_groups(
        s1,
    ).contains(g) by {
        let i = choose|i: int|
            0 <= i < s2.len() && s2[i].paths.len() > 0 && g == (s2[i].length, group_of(
                s2,
                #[trigger] s2[i],
            ));
        assert(s1.contains(s2[i]));
        let j = choose|j: int| 0 <= j < s1.len() && s1[j] == s2[i];
        assert(group_of(s2, s2[i]) == group_of(s1, s1[j]));
    }
    assert(expected_groups(s1) =~= expected_groups(s2));
}

} // verus!
