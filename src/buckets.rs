use crate::consolidate::{all_paths, views};
use vstd::multiset::Multiset;
use crate::fileinfo::{Fileinfo, FileinfoView};
use nohash_hasher::IntMap;
use vstd::prelude::*;

verus! {

/// nohash_hasher's `NoHashHasher`, declared so that `IntMap` can be named;
/// nothing inside it is read.
#[verifier::external_type_specification]
#[verifier::external_body]
#[verifier::reject_recursive_types(T)]
pub struct ExNoHashHasher<T>(nohash_hasher::NoHashHasher<T>);

/// std's `BuildHasherDefault`, the hasher builder of an `IntMap`; nothing
/// inside it is read.
#[verifier::external_type_specification]
#[verifier::external_body]
#[verifier::reject_recursive_types(H)]
pub struct ExBuildHasherDefault<H>(std::hash::BuildHasherDefault<H>);

/// Relies on `HashMap::get` of an `IntMap` keyed by `u64`: `u64` hashes to
/// itself under `NoHashHasher` and compares by value, so the map behaves as
/// a map from integers.
#[verifier::external_body]
fn int_map_get(m: &IntMap<u64, usize>, k: u64) -> (r: Option<usize>)
    ensures
        r == (if m@.contains_key(k) {
            Some(m@[k])
        } else {
            None
        }),
{
    m.get(&k).copied()
}

/// Relies on `HashMap::insert` of an `IntMap` keyed by `u64`: afterwards
/// the key maps to the value, and no other entry changes.
#[verifier::external_body]
fn int_map_insert(m: &mut IntMap<u64, usize>, k: u64, v: usize)
    ensures
        final(m)@ == old(m)@.insert(k, v),
{
    m.insert(k, v);
}

/// The distinct lengths of `s`, in the order of their first occurrence.
pub open spec fn lengths_in_order(s: Seq<FileinfoView>) -> Seq<u64>
    decreases s.len(),
{
    if s.len() == 0 {
        Seq::empty()
    } else {
        let pre = lengths_in_order(s.drop_last());
        if pre.contains(s.last().length) {
            pre
        } else {
            pre.push(s.last().length)
        }
    }
}

/// The records of `s` of length `length`, in order.
pub open spec fn with_length(s: Seq<FileinfoView>, length: u64) -> Seq<FileinfoView>
    decreases s.len(),
{
    if s.len() == 0 {
        Seq::empty()
    } else {
        let pre = with_length(s.drop_last(), length);
        if s.last().length == length {
            pre.push(s.last())
        } else {
            pre
        }
    }
}

/// Splits records into buckets of one length each: one bucket per distinct
/// length, in the order in which the lengths first occur, each holding the
/// records of its length in their order.
pub fn group_by_length(files: Vec<Fileinfo>) -> (r: Vec<(u64, Vec<Fileinfo>)>)
    ensures
        r.len() == lengths_in_order(views(files@)).len(),
        forall|b: int|
            0 <= b < r.len() ==> #[trigger] r[b].0 == lengths_in_order(views(files@))[b] && views(
                r[b].1@,
            ) == with_length(views(files@), r[b].0),
{
    let ghost input = files@;
    let mut index: IntMap<u64, usize> = IntMap::default();
    let mut buckets: Vec<(u64, Vec<Fileinfo>)> = Vec::new();
    for f in it: files.into_iter()
        invariant
            it.seq() == input,
            it.index() <= input.len(),
            buckets.len() == lengths_in_order(views(input.take(it.index() as int))).len(),
            forall|b: int|
                0 <= b < buckets.len() ==> #[trigger] buckets[b].0 == lengths_in_order(
                    views(input.take(it.index() as int)),
                )[b] && views(buckets[b].1@) == with_length(
                    views(input.take(it.index() as int)),
                    buckets[b].0,
                ),
            forall|b: int|
                0 <= b < buckets.len() ==> index@.contains_key(#[trigger] buckets[b].0)
                    && index@[buckets[b].0] == b,
            forall|l: u64|
                #[trigger] index@.contains_key(l) ==> index@[l] < buckets.len()
                    && buckets[index@[l] as int].0 == l,
    {
        let ghost i = it.index() as int;
        let ghost pre = views(input.take(i));
        let ghost post = views(input.take(i + 1));
        proof {
            assert(input.take(i + 1) =~= input.take(i).push(f));
            assert(post =~= pre.push(f@));
            assert(post.drop_last() =~= pre);
        }
        let length = f.get_length();
        match int_map_get(&index, length) {
            Some(b) => {
                proof {
                    assert(lengths_in_order(pre)[b as int] == length);
                    assert(lengths_in_order(pre).contains(length));
                    assert(lengths_in_order(post) == lengths_in_order(pre));
                }
                let ghost old_buckets = buckets@;
                buckets[b].1.push(f);
                proof {
                    assert forall|c: int| 0 <= c < buckets.len() implies #[trigger] buckets[c].0
                        == lengths_in_order(post)[c] && views(buckets[c].1@) == with_length(
                        post,
                        buckets[c].0,
                    ) by {
                        if c == b {
                            assert(views(buckets[c].1@) =~= views(old_buckets[c].1@).push(f@));
                        } else {
                            assert(buckets[c] == old_buckets[c]);
                            assert(buckets[c].0 != length);
                        }
                    }
                }
            },
            None => {
                proof {
                    if lengths_in_order(pre).contains(length) {
                        let c = choose|c: int|
                            0 <= c < lengths_in_order(pre).len() && lengths_in_order(pre)[c]
                                == length;
                        assert(buckets[c].0 == length);
                    }
                    assert(lengths_in_order(post) == lengths_in_order(pre).push(length));
                }
                let b = buckets.len();
                let mut v: Vec<Fileinfo> = Vec::new();
                v.push(f);
                let ghost old_buckets = buckets@;
                buckets.push((length, v));
                int_map_insert(&mut index, length, b);
                proof {
                    assert forall|c: int| 0 <= c < buckets.len() implies #[trigger] buckets[c].0
                        == lengths_in_order(post)[c] && views(buckets[c].1@) == with_length(
                        post,
                        buckets[c].0,
                    ) by {
                        if c == b {
                            lemma_with_length_absent(pre, length);
                            assert(views(buckets[c].1@) =~= seq![f@]);
                            assert(with_length(post, length) =~= seq![f@]);
                        } else {
                            assert(buckets[c] == old_buckets[c]);
                            assert(buckets[c].0 != length);
                        }
                    }
                }
            },
        }
    }
    proof {
        assert(input.take(input.len() as int) =~= input);
    }
    buckets
}

pub(crate) proof fn lemma_with_length_absent(s: Seq<FileinfoView>, length: u64)
    requires
        !lengths_in_order(s).contains(length),
    ensures
        with_length(s, length) == Seq::<FileinfoView>::empty(),
    decreases s.len(),
{
    if s.len() > 0 {
        let pre = lengths_in_order(s.drop_last());
        if pre.contains(length) {
            let c = choose|c: int| 0 <= c < pre.len() && pre[c] == length;
            assert(lengths_in_order(s)[c] == length);
        }
        lemma_with_length_absent(s.drop_last(), length);
        if s.last().length == length {
            assert(lengths_in_order(s).contains(length) || pre.contains(length)) by {
                if !pre.contains(length) {
                    assert(lengths_in_order(s)[pre.len() as int] == length);
                }
            }
            if pre.contains(length) {
                let c = choose|c: int| 0 <= c < pre.len() && pre[c] == length;
                assert(lengths_in_order(s)[c] == length);
            }
        }
    }
}

/// The paths of the records of each length of `ls`, put together.
pub open spec fn paths_by_length(s: Seq<FileinfoView>, ls: Seq<u64>) -> Multiset<String>
    decreases ls.len(),
{
    if ls.len() == 0 {
        Multiset::empty()
    } else {
        paths_by_length(s, ls.drop_last()).add(all_paths(with_length(s, ls.last())))
    }
}

proof fn lemma_lengths_in_order_distinct(s: Seq<FileinfoView>)
    ensures
        lengths_in_order(s).no_duplicates(),
    decreases s.len(),
{
    if s.len() > 0 {
        lemma_lengths_in_order_distinct(s.drop_last());
    }
}

proof fn lemma_with_length_push(s: Seq<FileinfoView>, r: FileinfoView, length: u64)
    ensures
        with_length(s.push(r), length) == (if r.length == length {
            with_length(s, length).push(r)
        } else {
            with_length(s, length)
        }),
{
    assert(s.push(r).drop_last() =~= s);
}

proof fn lemma_paths_by_length_push(s: Seq<FileinfoView>, r: FileinfoView, ls: Seq<u64>)
    requires
        ls.no_duplicates(),
    ensures
        paths_by_length(s.push(r), ls) == (if ls.contains(r.length) {
            paths_by_length(s, ls).add(r.paths.to_multiset())
        } else {
            paths_by_length(s, ls)
        }),
    decreases ls.len(),
{
    if ls.len() > 0 {
        let pre = ls.drop_last();
        let l = ls.last();
        assert(pre.no_duplicates());
        lemma_paths_by_length_push(s, r, pre);
        lemma_with_length_push(s, r, l);
        let w = with_length(s, l);
        assert(w.push(r).drop_last() =~= w);
        if ls.contains(r.length) {
            if r.length == l {
                if pre.contains(r.length) {
                    let k = choose|k: int| 0 <= k < pre.len() && pre[k] == r.length;
                    assert(ls[k] == ls[ls.len() - 1]);
                }
            } else {
                let k = choose|k: int| 0 <= k < ls.len() && ls[k] == r.length;
                assert(pre[k] == r.length);
            }
        } else {
            if pre.contains(r.length) {
                let k = choose|k: int| 0 <= k < pre.len() && pre[k] == r.length;
                assert(ls[k] == r.length);
            }
            assert(l != r.length);
        }
        assert(paths_by_length(s.push(r), ls) =~= (if ls.contains(r.length) {
            paths_by_length(s, ls).add(r.paths.to_multiset())
        } else {
            paths_by_length(s, ls)
        }));
    }
}

/// Splitting records by length loses no path: the buckets of the distinct
/// lengths hold, together, every path of the records, each as many times
/// as it came.
pub proof fn law_buckets_keep_paths(s: Seq<FileinfoView>)
    ensures
        paths_by_length(s, lengths_in_order(s)) == all_paths(s),
    decreases s.len(),
{
    if s.len() > 0 {
        let pre = s.drop_last();
        let r = s.last();
        assert(pre.push(r) =~= s);
        law_buckets_keep_paths(pre);
        let lp = lengths_in_order(pre);
        lemma_lengths_in_order_distinct(pre);
        lemma_paths_by_length_push(pre, r, lp);
        if lp.contains(r.length) {
            assert(lengths_in_order(s) == lp);
        } else {
            assert(lengths_in_order(s) == lp.push(r.length));
            assert(lp.push(r.length).drop_last() =~= lp);
            lemma_with_length_absent(pre, r.length);
            lemma_with_length_push(pre, r, r.length);
            let single = seq![r];
            assert(Seq::<FileinfoView>::empty().push(r) =~= single);
            assert(single.drop_last() =~= Seq::<FileinfoView>::empty());
            assert(all_paths(single.drop_last()) == Multiset::<String>::empty());
            assert(all_paths(single) == Multiset::<String>::empty().add(r.paths.to_multiset()));
            assert(all_paths(single) =~= r.paths.to_multiset());
        }
    }
}

} // verus!
