use crate::buckets::{lengths_in_order, paths_by_length, with_length, law_buckets_keep_paths};
use crate::consolidate::{
    all_paths, consolidate, lemma_consolidate_origin, originates, groups, holds_paths_of, law_groups_independent_of_order, same_length,
};
use crate::differentiate::{
    bucket_outcome, hashing_needed, partial_recurs, staged, hashes_read_from, law_bucket_keeps_paths, law_identical_files_share_a_record,
    law_shared_record_means_equal_hashes,
};
use crate::fileinfo::FileinfoView;
use crate::hashing::{full_digest, partial_digest};
use crate::walk::ignored;
use vstd::multiset::Multiset;
use vstd::prelude::*;

verus! {

/// The hashes of the records of a bucket, each read from its first path.
pub open spec fn hashes_of(w: Seq<FileinfoView>, h: spec_fn(String) -> Option<u128>) -> Seq<
    Option<u128>,
> {
    Seq::new(w.len(), |i: int| h(w[i].paths[0]))
}

/// The records that the buckets of the lengths `ls` settle into, one bucket
/// after another, where reading the first path of a record gives the hashes
/// `partial_of` and `full_of`.
pub open spec fn run_buckets(
    s: Seq<FileinfoView>,
    ls: Seq<u64>,
    partial_of: spec_fn(String) -> Option<u128>,
    full_of: spec_fn(String) -> Option<u128>,
) -> Seq<FileinfoView>
    decreases ls.len(),
{
    if ls.len() == 0 {
        Seq::empty()
    } else {
        let w = with_length(s, ls.last());
        run_buckets(s, ls.drop_last(), partial_of, full_of) + bucket_outcome(
            ls.last(),
            w,
            hashes_of(w, partial_of),
            hashes_of(w, full_of),
        )
    }
}

/// What a whole run makes of the discovered records `s`: they are split by
/// length, and each bucket is settled with the hashes read from its files.
pub open spec fn run_outcome(
    s: Seq<FileinfoView>,
    partial_of: spec_fn(String) -> Option<u128>,
    full_of: spec_fn(String) -> Option<u128>,
) -> Seq<FileinfoView> {
    run_buckets(s, lengths_in_order(s), partial_of, full_of)
}

proof fn lemma_all_paths_concat(a: Seq<FileinfoView>, b: Seq<FileinfoView>)
    ensures
        all_paths(a + b) == all_paths(a).add(all_paths(b)),
    decreases b.len(),
{
    if b.len() == 0 {
        assert(a + b =~= a);
        assert(all_paths(a).add(all_paths(b)) =~= all_paths(a));
    } else {
        lemma_all_paths_concat(a, b.drop_last());
        assert((a + b).drop_last() =~= a + b.drop_last());
        assert((a + b).last() == b.last());
        assert(all_paths(a + b) =~= all_paths(a).add(all_paths(b)));
    }
}

proof fn lemma_with_length_nonempty(s: Seq<FileinfoView>, length: u64)
    requires
        forall|i: int| 0 <= i < s.len() ==> (#[trigger] s[i]).paths.len() > 0,
    ensures
        forall|k: int|
            0 <= k < with_length(s, length).len() ==> (#[trigger] with_length(s, length)[k]).paths.len()
                > 0,
    decreases s.len(),
{
    if s.len() > 0 {
        let pre = s.drop_last();
        assert(forall|i: int| 0 <= i < pre.len() ==> pre[i] == s[i]);
        lemma_with_length_nonempty(pre, length);
        assert(s.last() == s[s.len() - 1]);
    }
}

proof fn lemma_run_buckets_paths(
    s: Seq<FileinfoView>,
    ls: Seq<u64>,
    partial_of: spec_fn(String) -> Option<u128>,
    full_of: spec_fn(String) -> Option<u128>,
)
    requires
        forall|i: int| 0 <= i < s.len() ==> (#[trigger] s[i]).paths.len() > 0,
    ensures
        all_paths(run_buckets(s, ls, partial_of, full_of)) == paths_by_length(s, ls),
        forall|a: int|
            0 <= a < run_buckets(s, ls, partial_of, full_of).len() ==> (#[trigger] run_buckets(
                s,
                ls,
                partial_of,
                full_of,
            )[a]).paths.len() > 0,
    decreases ls.len(),
{
    if ls.len() > 0 {
        let pre = run_buckets(s, ls.drop_last(), partial_of, full_of);
        let l = ls.last();
        let w = with_length(s, l);
        let out = bucket_outcome(l, w, hashes_of(w, partial_of), hashes_of(w, full_of));
        lemma_run_buckets_paths(s, ls.drop_last(), partial_of, full_of);
        lemma_with_length_nonempty(s, l);
        law_bucket_keeps_paths(l, w, hashes_of(w, partial_of), hashes_of(w, full_of));
        lemma_all_paths_concat(pre, out);
        let r = run_buckets(s, ls, partial_of, full_of);
        assert(r == pre + out);
        assert forall|a: int| 0 <= a < r.len() implies (#[trigger] r[a]).paths.len() > 0 by {
            if a < pre.len() {
                assert(r[a] == pre[a]);
            } else {
                assert(r[a] == out[a - pre.len()]);
            }
        }
    }
}

/// A run loses no discovered path and invents none: the paths of the
/// records it yields, counted with multiplicity, are exactly those of the
/// discovered records, and no yielded record is empty. So where each file
/// was discovered once, each stands in exactly one yielded record.
pub proof fn law_run_partitions_paths(
    s: Seq<FileinfoView>,
    partial_of: spec_fn(String) -> Option<u128>,
    full_of: spec_fn(String) -> Option<u128>,
)
    requires
        forall|i: int| 0 <= i < s.len() ==> (#[trigger] s[i]).paths.len() > 0,
    ensures
        all_paths(run_outcome(s, partial_of, full_of)) == all_paths(s),
        forall|a: int|
            0 <= a < run_outcome(s, partial_of, full_of).len() ==> (#[trigger] run_outcome(
                s,
                partial_of,
                full_of,
            )[a]).paths.len() > 0,
{
    lemma_run_buckets_paths(s, lengths_in_order(s), partial_of, full_of);
    law_buckets_keep_paths(s);
}

proof fn lemma_with_length_prefix(s: Seq<FileinfoView>, length: u64, m: int, n: int)
    requires
        0 <= m <= n <= s.len(),
    ensures
        with_length(s.take(m), length).len() <= with_length(s.take(n), length).len(),
        forall|k: int|
            0 <= k < with_length(s.take(m), length).len() ==> #[trigger] with_length(
                s.take(n),
                length,
            )[k] == with_length(s.take(m), length)[k],
    decreases n - m,
{
    if m < n {
        lemma_with_length_prefix(s, length, m, n - 1);
        assert(s.take(n).drop_last() =~= s.take(n - 1));
        assert(s.take(n).last() == s[n - 1]);
    }
}

/// Where record `i` of `s` stands in the bucket of its length.
pub open spec fn bucket_position(s: Seq<FileinfoView>, i: int) -> int {
    with_length(s.take(i), s[i].length).len() as int
}

proof fn lemma_bucket_position(s: Seq<FileinfoView>, i: int)
    requires
        0 <= i < s.len(),
    ensures
        0 <= bucket_position(s, i) < with_length(s, s[i].length).len(),
        with_length(s, s[i].length)[bucket_position(s, i)] == s[i],
{
    let l = s[i].length;
    assert(s.take(i + 1).drop_last() =~= s.take(i));
    assert(s.take(i + 1).last() == s[i]);
    lemma_with_length_prefix(s, l, i + 1, s.len() as int);
    assert(s.take(s.len() as int) =~= s);
}

proof fn lemma_bucket_positions_differ(s: Seq<FileinfoView>, i: int, j: int)
    requires
        0 <= i < j < s.len(),
        s[i].length == s[j].length,
    ensures
        bucket_position(s, i) < bucket_position(s, j),
{
    let l = s[i].length;
    assert(s.take(i + 1).drop_last() =~= s.take(i));
    assert(s.take(i + 1).last() == s[i]);
    lemma_with_length_prefix(s, l, i + 1, j);
}

proof fn lemma_lengths_in_order_contains(s: Seq<FileinfoView>, i: int)
    requires
        0 <= i < s.len(),
    ensures
        lengths_in_order(s).contains(s[i].length),
    decreases s.len(),
{
    let pre = s.drop_last();
    let lp = lengths_in_order(pre);
    if i < s.len() - 1 {
        lemma_lengths_in_order_contains(pre, i);
        assert(pre[i] == s[i]);
        if !lp.contains(s.last().length) {
            let k = choose|k: int| 0 <= k < lp.len() && lp[k] == s[i].length;
            assert(lengths_in_order(s)[k] == s[i].length);
        }
    } else if !lp.contains(s.last().length) {
        assert(lengths_in_order(s)[lp.len() as int] == s[i].length);
    }
}

proof fn lemma_run_buckets_holds(
    s: Seq<FileinfoView>,
    ls: Seq<u64>,
    partial_of: spec_fn(String) -> Option<u128>,
    full_of: spec_fn(String) -> Option<u128>,
    m: int,
    a: int,
)
    requires
        0 <= m < ls.len(),
        0 <= a < bucket_outcome(
            ls[m],
            with_length(s, ls[m]),
            hashes_of(with_length(s, ls[m]), partial_of),
            hashes_of(with_length(s, ls[m]), full_of),
        ).len(),
    ensures
        exists|a2: int|
            0 <= a2 < run_buckets(s, ls, partial_of, full_of).len() && #[trigger] run_buckets(
                s,
                ls,
                partial_of,
                full_of,
            )[a2] == bucket_outcome(
                ls[m],
                with_length(s, ls[m]),
                hashes_of(with_length(s, ls[m]), partial_of),
                hashes_of(with_length(s, ls[m]), full_of),
            )[a],
    decreases ls.len(),
{
    let pre = run_buckets(s, ls.drop_last(), partial_of, full_of);
    let r = run_buckets(s, ls, partial_of, full_of);
    if m == ls.len() - 1 {
        let w = with_length(s, ls[m]);
        let out = bucket_outcome(ls[m], w, hashes_of(w, partial_of), hashes_of(w, full_of));
        assert(ls.last() == ls[m]);
        assert(r == pre + out);
        assert(r[pre.len() + a] == out[a]);
    } else {
        assert(ls.drop_last()[m] == ls[m]);
        lemma_run_buckets_holds(s, ls.drop_last(), partial_of, full_of, m, a);
        let a2 = choose|a2: int|
            0 <= a2 < pre.len() && #[trigger] pre[a2] == bucket_outcome(
                ls[m],
                with_length(s, ls[m]),
                hashes_of(with_length(s, ls[m]), partial_of),
                hashes_of(with_length(s, ls[m]), full_of),
            )[a];
        assert(r[a2] == pre[a2]);
    }
}

/// Two discovered files with the same non-empty content, whose hashes were
/// all read without failure, end up in one record of the run.
pub proof fn law_run_groups_identical_files(
    s: Seq<FileinfoView>,
    partial_of: spec_fn(String) -> Option<u128>,
    full_of: spec_fn(String) -> Option<u128>,
    content: Seq<u8>,
    i: int,
    j: int,
)
    requires
        forall|k: int| 0 <= k < s.len() ==> (#[trigger] s[k]).paths.len() > 0,
        0 <= i < s.len(),
        0 <= j < s.len(),
        i != j,
        content.len() > 0,
        s[i].length == content.len(),
        s[j].length == content.len(),
        partial_of(s[i].paths[0]) == Some(partial_digest(content)),
        partial_of(s[j].paths[0]) == Some(partial_digest(content)),
        full_of(s[i].paths[0]) == Some(full_digest(content)),
        full_of(s[j].paths[0]) == Some(full_digest(content)),
    ensures
        exists|a: int|
            0 <= a < run_outcome(s, partial_of, full_of).len() && holds_paths_of(
                #[trigger] run_outcome(s, partial_of, full_of)[a],
                s[i],
            ) && holds_paths_of(run_outcome(s, partial_of, full_of)[a], s[j]),
{
    let l = s[i].length;
    let w = with_length(s, l);
    let ps = hashes_of(w, partial_of);
    let fs = hashes_of(w, full_of);
    lemma_bucket_position(s, i);
    lemma_bucket_position(s, j);
    let pi = bucket_position(s, i);
    let pj = bucket_position(s, j);
    if i < j {
        lemma_bucket_positions_differ(s, i, j);
    } else {
        lemma_bucket_positions_differ(s, j, i);
    }
    lemma_with_length_nonempty(s, l);
    law_identical_files_share_a_record(l, w, ps, fs, content, pi, pj);
    let out = bucket_outcome(l, w, ps, fs);
    let a = choose|a: int|
        0 <= a < out.len() && holds_paths_of(#[trigger] out[a], w[pi]) && holds_paths_of(
            out[a],
            w[pj],
        );
    lemma_lengths_in_order_contains(s, i);
    let ls = lengths_in_order(s);
    let m = choose|m: int| 0 <= m < ls.len() && ls[m] == l;
    lemma_run_buckets_holds(s, ls, partial_of, full_of, m, a);
    let r = run_outcome(s, partial_of, full_of);
    let a2 = choose|a2: int| 0 <= a2 < r.len() && #[trigger] r[a2] == out[a];
    assert(holds_paths_of(r[a2], s[i]) && holds_paths_of(r[a2], s[j]));
}

proof fn lemma_with_length_members(s: Seq<FileinfoView>, length: u64)
    ensures
        forall|k: int|
            0 <= k < with_length(s, length).len() ==> (#[trigger] with_length(s, length)[k]).length
                == length && s.contains(with_length(s, length)[k]),
    decreases s.len(),
{
    if s.len() > 0 {
        let pre = s.drop_last();
        lemma_with_length_members(pre, length);
        let w = with_length(s, length);
        assert forall|k: int| 0 <= k < w.len() implies (#[trigger] w[k]).length == length
            && s.contains(w[k]) by {
            if k < with_length(pre, length).len() {
                assert(w[k] == with_length(pre, length)[k]);
                let i = choose|i: int| 0 <= i < pre.len() && pre[i] == w[k];
                assert(s[i] == pre[i]);
            } else {
                assert(w[k] == s.last());
                assert(s[s.len() - 1] == w[k]);
            }
        }
    }
}

proof fn lemma_run_buckets_origin(
    s: Seq<FileinfoView>,
    ls: Seq<u64>,
    partial_of: spec_fn(String) -> Option<u128>,
    full_of: spec_fn(String) -> Option<u128>,
    a: int,
) -> (m_b: (int, int))
    requires
        0 <= a < run_buckets(s, ls, partial_of, full_of).len(),
    ensures
        0 <= m_b.0 < ls.len(),
        0 <= m_b.1 < bucket_outcome(
            ls[m_b.0],
            with_length(s, ls[m_b.0]),
            hashes_of(with_length(s, ls[m_b.0]), partial_of),
            hashes_of(with_length(s, ls[m_b.0]), full_of),
        ).len(),
        run_buckets(s, ls, partial_of, full_of)[a] == bucket_outcome(
            ls[m_b.0],
            with_length(s, ls[m_b.0]),
            hashes_of(with_length(s, ls[m_b.0]), partial_of),
            hashes_of(with_length(s, ls[m_b.0]), full_of),
        )[m_b.1],
    decreases ls.len(),
{
    let pre = run_buckets(s, ls.drop_last(), partial_of, full_of);
    let r = run_buckets(s, ls, partial_of, full_of);
    let m = ls.len() - 1;
    let w = with_length(s, ls[m]);
    let out = bucket_outcome(ls[m], w, hashes_of(w, partial_of), hashes_of(w, full_of));
    assert(ls.last() == ls[m]);
    assert(r == pre + out);
    if a < pre.len() {
        let (m2, b2) = lemma_run_buckets_origin(s, ls.drop_last(), partial_of, full_of, a);
        assert(ls.drop_last()[m2] == ls[m2]);
        assert(r[a] == pre[a]);
        (m2, b2)
    } else {
        assert(r[a] == out[a - pre.len()]);
        (m, a - pre.len())
    }
}

/// Two paths that a run puts in one record come from discovered files whose
/// contents have the same full hash, or from one file kept on its own. So,
/// where the hash tells contents apart, files of different content are
/// never grouped. Each hash read is either absent or the hash of the
/// content found at the file's first path.
pub proof fn law_run_record_members_share_content_hash(
    s: Seq<FileinfoView>,
    partial_of: spec_fn(String) -> Option<u128>,
    full_of: spec_fn(String) -> Option<u128>,
    content_of: spec_fn(String) -> Seq<u8>,
    a: int,
    x: String,
    y: String,
)
    requires
        forall|k: int| 0 <= k < s.len() ==> (#[trigger] s[k]).paths.len() > 0,
        forall|k: int|
            0 <= k < s.len() ==> content_of((#[trigger] s[k]).paths[0]).len() == s[k].length,
        forall|k: int|
            0 <= k < s.len() ==> (partial_of((#[trigger] s[k]).paths[0]) is None || partial_of(
                s[k].paths[0],
            ) == Some(partial_digest(content_of(s[k].paths[0])))) && (full_of(s[k].paths[0]) is None
                || full_of(s[k].paths[0]) == Some(full_digest(content_of(s[k].paths[0])))),
        0 <= a < run_outcome(s, partial_of, full_of).len(),
        run_outcome(s, partial_of, full_of)[a].paths.contains(x),
        run_outcome(s, partial_of, full_of)[a].paths.contains(y),
    ensures
        exists|i: int, j: int|
            0 <= i < s.len() && 0 <= j < s.len() && #[trigger] s[i].paths.contains(x)
                && #[trigger] s[j].paths.contains(y) && (full_digest(content_of(s[i].paths[0]))
                == full_digest(content_of(s[j].paths[0])) || s[i].paths == s[j].paths),
{
    let ls = lengths_in_order(s);
    let (m, b) = lemma_run_buckets_origin(s, ls, partial_of, full_of, a);
    let l = ls[m];
    let w = with_length(s, l);
    let ps = hashes_of(w, partial_of);
    let fs = hashes_of(w, full_of);
    let out = bucket_outcome(l, w, ps, fs);
    lemma_with_length_members(s, l);
    if hashing_needed(l, w.len()) {
        let contents = Seq::new(w.len(), |k: int| content_of(w[k].paths[0]));
        assert forall|k: int| 0 <= k < contents.len() implies (#[trigger] contents[k]).len()
            == l by {
            assert(s.contains(w[k]));
            let i = choose|i: int| 0 <= i < s.len() && s[i] == w[k];
            assert(content_of(s[i].paths[0]).len() == s[i].length);
        }
        assert forall|k: int| 0 <= k < contents.len() implies (ps[k] is None || ps[k] == Some(
            partial_digest(#[trigger] contents[k]),
        )) && (fs[k] is None || fs[k] == Some(full_digest(contents[k]))) by {
            assert(s.contains(w[k]));
            let i = choose|i: int| 0 <= i < s.len() && s[i] == w[k];
            assert(content_of(s[i].paths[0]).len() == s[i].length);
        }
        assert(hashes_read_from(contents, ps, fs));
        law_shared_record_means_equal_hashes(l, w, ps, fs, contents, b, x, y);
        let (i2, j2) = choose|i2: int, j2: int|
            0 <= i2 < w.len() && 0 <= j2 < w.len() && #[trigger] w[i2].paths.contains(x)
                && #[trigger] w[j2].paths.contains(y) && (full_digest(contents[i2]) == full_digest(
                contents[j2]) || w[i2].paths == w[j2].paths);
        assert(s.contains(w[i2]));
        assert(s.contains(w[j2]));
        let i = choose|i: int| 0 <= i < s.len() && s[i] == w[i2];
        let j = choose|j: int| 0 <= j < s.len() && s[j] == w[j2];
        assert(s[i].paths.contains(x) && s[j].paths.contains(y));
    } else {
        assert(out == w);
        assert(s.contains(w[b]));
        let i = choose|i: int| 0 <= i < s.len() && s[i] == w[b];
        assert(s[i].paths.contains(x) && s[i].paths.contains(y));
    }
}

proof fn lemma_with_length_distinct(s: Seq<FileinfoView>, length: u64)
    requires
        s.no_duplicates(),
    ensures
        with_length(s, length).no_duplicates(),
    decreases s.len(),
{
    if s.len() > 0 {
        let pre = s.drop_last();
        assert(pre.no_duplicates());
        lemma_with_length_distinct(pre, length);
        lemma_with_length_members(pre, length);
        let wp = with_length(pre, length);
        if s.last().length == length {
            if wp.contains(s.last()) {
                let k = choose|k: int| 0 <= k < wp.len() && wp[k] == s.last();
                assert(pre.contains(wp[k]));
                let i = choose|i: int| 0 <= i < pre.len() && pre[i] == wp[k];
                assert(s[i] == s[s.len() - 1]);
            }
            let w = with_length(s, length);
            assert forall|a: int, b: int| 0 <= a < w.len() && 0 <= b < w.len() && a != b implies w[a]
                != w[b] by {
                if a < wp.len() && b < wp.len() {
                    assert(w[a] == wp[a] && w[b] == wp[b]);
                } else if a < wp.len() {
                    assert(w[a] == wp[a]);
                } else if b < wp.len() {
                    assert(w[b] == wp[b]);
                }
            }
        }
    }
}

proof fn lemma_with_length_holds(s: Seq<FileinfoView>, length: u64, r: FileinfoView)
    requires
        s.contains(r),
        r.length == length,
    ensures
        with_length(s, length).contains(r),
{
    let i = choose|i: int| 0 <= i < s.len() && s[i] == r;
    lemma_bucket_position(s, i);
}

proof fn lemma_bucket_same_members(
    length: u64,
    w1: Seq<FileinfoView>,
    w2: Seq<FileinfoView>,
    partial_of: spec_fn(String) -> Option<u128>,
    full_of: spec_fn(String) -> Option<u128>,
)
    requires
        w1.no_duplicates(),
        w2.no_duplicates(),
        forall|r: FileinfoView| w1.contains(r) <==> w2.contains(r),
        forall|k: int| 0 <= k < w1.len() ==> (#[trigger] w1[k]).length == length,
    ensures
        groups(bucket_outcome(length, w1, hashes_of(w1, partial_of), hashes_of(w1, full_of)))
            == groups(bucket_outcome(length, w2, hashes_of(w2, partial_of), hashes_of(w2, full_of))),
{
    assert(w1.to_set() =~= w2.to_set());
    w1.unique_seq_to_set();
    w2.unique_seq_to_set();
    let ps1 = hashes_of(w1, partial_of);
    let fs1 = hashes_of(w1, full_of);
    let ps2 = hashes_of(w2, partial_of);
    let fs2 = hashes_of(w2, full_of);
    if hashing_needed(length, w1.len()) {
        let st1 = staged(length, w1, ps1, fs1);
        let st2 = staged(length, w2, ps2, fs2);
        assert forall|k: int, k2: int|
            0 <= k < w1.len() && 0 <= k2 < w2.len() && #[trigger] w1[k] == #[trigger] w2[k2] implies st1[k]
            == st2[k2] by {
            if partial_recurs(ps1, k) {
                let j = choose|j: int| 0 <= j < ps1.len() && j != k && ps1[j] == ps1[k];
                assert(w1[j] != w1[k]);
                assert(w2.contains(w1[j]));
                let j2 = choose|j2: int| 0 <= j2 < w2.len() && w2[j2] == w1[j];
                assert(ps2[j2] == ps2[k2]);
                assert(partial_recurs(ps2, k2));
            }
            if partial_recurs(ps2, k2) {
                let j2 = choose|j2: int| 0 <= j2 < ps2.len() && j2 != k2 && ps2[j2] == ps2[k2];
                assert(w2[j2] != w2[k2]);
                assert(w1.contains(w2[j2]));
                let j = choose|j: int| 0 <= j < w1.len() && w1[j] == w2[j2];
                assert(ps1[j] == ps1[k]);
                assert(partial_recurs(ps1, k));
            }
        }
        assert forall|x: FileinfoView| st1.contains(x) <==> st2.contains(x) by {
            if st1.contains(x) {
                let k = choose|k: int| 0 <= k < st1.len() && st1[k] == x;
                assert(w2.contains(w1[k]));
                let k2 = choose|k2: int| 0 <= k2 < w2.len() && w2[k2] == w1[k];
                assert(st2[k2] == x);
            }
            if st2.contains(x) {
                let k2 = choose|k2: int| 0 <= k2 < st2.len() && st2[k2] == x;
                assert(w1.contains(w2[k2]));
                let k = choose|k: int| 0 <= k < w1.len() && w1[k] == w2[k2];
                assert(st1[k] == x);
            }
        }
        assert(same_length(st1));
        law_groups_independent_of_order(st1, st2);
    } else {
        assert forall|g: (u64, Set<String>)| groups(w1).contains(g) <==> groups(w2).contains(g) by {
            if groups(w1).contains(g) {
                let k = choose|k: int|
                    0 <= k < w1.len() && g == (w1[k].length, #[trigger] w1[k].paths.to_set());
                assert(w2.contains(w1[k]));
                let k2 = choose|k2: int| 0 <= k2 < w2.len() && w2[k2] == w1[k];
                assert(g == (w2[k2].length, w2[k2].paths.to_set()));
            }
            if groups(w2).contains(g) {
                let k2 = choose|k2: int|
                    0 <= k2 < w2.len() && g == (w2[k2].length, #[trigger] w2[k2].paths.to_set());
                assert(w1.contains(w2[k2]));
                let k = choose|k: int| 0 <= k < w1.len() && w1[k] == w2[k2];
                assert(g == (w1[k].length, w1[k].paths.to_set()));
            }
        }
        assert(groups(w1) =~= groups(w2));
    }
}

/// The group `g` stands among the groups of the bucket of one of the
/// lengths of `ls`.
pub open spec fn in_some_bucket(
    s: Seq<FileinfoView>,
    ls: Seq<u64>,
    partial_of: spec_fn(String) -> Option<u128>,
    full_of: spec_fn(String) -> Option<u128>,
    g: (u64, Set<String>),
) -> bool {
    exists|m: int|
        0 <= m < ls.len() && groups(
            bucket_outcome(
                #[trigger] ls[m],
                with_length(s, ls[m]),
                hashes_of(with_length(s, ls[m]), partial_of),
                hashes_of(with_length(s, ls[m]), full_of),
            ),
        ).contains(g)
}

proof fn lemma_run_groups(
    s: Seq<FileinfoView>,
    ls: Seq<u64>,
    partial_of: spec_fn(String) -> Option<u128>,
    full_of: spec_fn(String) -> Option<u128>,
)
    ensures
        forall|g: (u64, Set<String>)|
            #[trigger] groups(run_buckets(s, ls, partial_of, full_of)).contains(g) <==> in_some_bucket(
                s,
                ls,
                partial_of,
                full_of,
                g,
            ),
{
    let r = run_buckets(s, ls, partial_of, full_of);
    assert forall|g: (u64, Set<String>)| #[trigger] groups(r).contains(g) <==> in_some_bucket(
        s,
        ls,
        partial_of,
        full_of,
        g,
    ) by {
        if groups(r).contains(g) {
            let a = choose|a: int| 0 <= a < r.len() && g == (r[a].length, #[trigger] r[a].paths.to_set());
            let (m, b) = lemma_run_buckets_origin(s, ls, partial_of, full_of, a);
            let w = with_length(s, ls[m]);
            let out = bucket_outcome(ls[m], w, hashes_of(w, partial_of), hashes_of(w, full_of));
            assert(g == (out[b].length, out[b].paths.to_set()));
            assert(groups(out).contains(g));
        }
        if in_some_bucket(s, ls, partial_of, full_of, g) {
            let m = choose|m: int|
                0 <= m < ls.len() && groups(
                    bucket_outcome(
                        #[trigger] ls[m],
                        with_length(s, ls[m]),
                        hashes_of(with_length(s, ls[m]), partial_of),
                        hashes_of(with_length(s, ls[m]), full_of),
                    ),
                ).contains(g);
            let w = with_length(s, ls[m]);
            let out = bucket_outcome(ls[m], w, hashes_of(w, partial_of), hashes_of(w, full_of));
            let b = choose|b: int| 0 <= b < out.len() && g == (out[b].length, #[trigger] out[b].paths.to_set());
            lemma_run_buckets_holds(s, ls, partial_of, full_of, m, b);
            let a = choose|a: int| 0 <= a < r.len() && #[trigger] r[a] == out[b];
            assert(g == (r[a].length, r[a].paths.to_set()));
        }
    }
}

proof fn lemma_lengths_in_order_members(s: Seq<FileinfoView>, l: u64)
    ensures
        lengths_in_order(s).contains(l) <==> exists|i: int| 0 <= i < s.len() && #[trigger] s[i].length == l,
    decreases s.len(),
{
    if exists|i: int| 0 <= i < s.len() && #[trigger] s[i].length == l {
        let i = choose|i: int| 0 <= i < s.len() && #[trigger] s[i].length == l;
        lemma_lengths_in_order_contains(s, i);
    }
    if s.len() > 0 && lengths_in_order(s).contains(l) {
        let pre = s.drop_last();
        lemma_lengths_in_order_members(pre, l);
        let lp = lengths_in_order(pre);
        if lp.contains(l) {
            let i = choose|i: int| 0 <= i < pre.len() && #[trigger] pre[i].length == l;
            assert(s[i] == pre[i]);
        } else if lp.contains(s.last().length) {
            assert(lengths_in_order(s) == lp);
        } else {
            let k = choose|k: int| 0 <= k < lengths_in_order(s).len() && lengths_in_order(s)[k] == l;
            if k < lp.len() {
                assert(lp[k] == l);
            }
            assert(s[s.len() - 1].length == l);
        }
    }
}

/// The order in which files are discovered does not change what a run
/// yields: two runs that discover the same files, each once, in any order,
/// with the same hashes read from each path, give the same set of
/// (length, set of paths) groups.
pub proof fn law_run_independent_of_order(
    s1: Seq<FileinfoView>,
    s2: Seq<FileinfoView>,
    partial_of: spec_fn(String) -> Option<u128>,
    full_of: spec_fn(String) -> Option<u128>,
)
    requires
        s1.no_duplicates(),
        s2.no_duplicates(),
        forall|r: FileinfoView| s1.contains(r) <==> s2.contains(r),
    ensures
        groups(run_outcome(s1, partial_of, full_of)) == groups(run_outcome(s2, partial_of, full_of)),
{
    let ls1 = lengths_in_order(s1);
    let ls2 = lengths_in_order(s2);
    lemma_run_groups(s1, ls1, partial_of, full_of);
    lemma_run_groups(s2, ls2, partial_of, full_of);
    assert forall|l: u64| #[trigger] ls1.contains(l) <==> ls2.contains(l) by {
        lemma_lengths_in_order_members(s1, l);
        lemma_lengths_in_order_members(s2, l);
        if exists|i: int| 0 <= i < s1.len() && #[trigger] s1[i].length == l {
            let i = choose|i: int| 0 <= i < s1.len() && #[trigger] s1[i].length == l;
            assert(s2.contains(s1[i]));
            let j = choose|j: int| 0 <= j < s2.len() && s2[j] == s1[i];
            assert(s2[j].length == l);
        }
        if exists|i: int| 0 <= i < s2.len() && #[trigger] s2[i].length == l {
            let i = choose|i: int| 0 <= i < s2.len() && #[trigger] s2[i].length == l;
            assert(s1.contains(s2[i]));
            let j = choose|j: int| 0 <= j < s1.len() && s1[j] == s2[i];
            assert(s1[j].length == l);
        }
    }
    assert forall|l: u64| ls1.contains(l) implies groups(
        bucket_outcome(
            l,
            with_length(s1, l),
            hashes_of(with_length(s1, l), partial_of),
            hashes_of(with_length(s1, l), full_of),
        ),
    ) == groups(
        bucket_outcome(
            l,
            with_length(s2, l),
            hashes_of(with_length(s2, l), partial_of),
            hashes_of(with_length(s2, l), full_of),
        ),
    ) by {
        let w1 = with_length(s1, l);
        let w2 = with_length(s2, l);
        lemma_with_length_distinct(s1, l);
        lemma_with_length_distinct(s2, l);
        lemma_with_length_members(s1, l);
        lemma_with_length_members(s2, l);
        assert forall|r: FileinfoView| w1.contains(r) <==> w2.contains(r) by {
            if w1.contains(r) {
                let k = choose|k: int| 0 <= k < w1.len() && w1[k] == r;
                lemma_with_length_holds(s2, l, r);
            }
            if w2.contains(r) {
                let k = choose|k: int| 0 <= k < w2.len() && w2[k] == r;
                lemma_with_length_holds(s1, l, r);
            }
        }
        lemma_bucket_same_members(l, w1, w2, partial_of, full_of);
    }
    let r1 = run_outcome(s1, partial_of, full_of);
    let r2 = run_outcome(s2, partial_of, full_of);
    assert forall|g: (u64, Set<String>)| groups(r1).contains(g) <==> groups(r2).contains(g) by {
        if groups(r1).contains(g) {
            assert(in_some_bucket(s1, ls1, partial_of, full_of, g));
            let m = choose|m: int|
                0 <= m < ls1.len() && groups(
                    bucket_outcome(
                        #[trigger] ls1[m],
                        with_length(s1, ls1[m]),
                        hashes_of(with_length(s1, ls1[m]), partial_of),
                        hashes_of(with_length(s1, ls1[m]), full_of),
                    ),
                ).contains(g);
            let l = ls1[m];
            assert(ls1.contains(l));
            assert(ls2.contains(l));
            let m2 = choose|m2: int| 0 <= m2 < ls2.len() && ls2[m2] == l;
            assert(in_some_bucket(s2, ls2, partial_of, full_of, g));
        }
        if groups(r2).contains(g) {
            assert(in_some_bucket(s2, ls2, partial_of, full_of, g));
            let m = choose|m: int|
                0 <= m < ls2.len() && groups(
                    bucket_outcome(
                        #[trigger] ls2[m],
                        with_length(s2, ls2[m]),
                        hashes_of(with_length(s2, ls2[m]), partial_of),
                        hashes_of(with_length(s2, ls2[m]), full_of),
                    ),
                ).contains(g);
            let l = ls2[m];
            assert(ls2.contains(l));
            assert(ls1.contains(l));
            let m1 = choose|m1: int| 0 <= m1 < ls1.len() && ls1[m1] == l;
            assert(in_some_bucket(s1, ls1, partial_of, full_of, g));
        }
    }
    assert(groups(r1) =~= groups(r2));
}

proof fn lemma_all_paths_members(s: Seq<FileinfoView>, x: String)
    ensures
        all_paths(s).count(x) > 0 <==> exists|k: int|
            0 <= k < s.len() && #[trigger] s[k].paths.contains(x),
    decreases s.len(),
{
    if s.len() > 0 {
        let pre = s.drop_last();
        lemma_all_paths_members(pre, x);
        vstd::seq_lib::to_multiset_contains(s.last().paths, x);
        s.last().paths.to_multiset_ensures();
        if exists|k: int| 0 <= k < s.len() && #[trigger] s[k].paths.contains(x) {
            let k = choose|k: int| 0 <= k < s.len() && #[trigger] s[k].paths.contains(x);
            if k < pre.len() {
                assert(pre[k] == s[k]);
            } else {
                assert(s[k] == s.last());
            }
        }
        if exists|k: int| 0 <= k < pre.len() && #[trigger] pre[k].paths.contains(x) {
            let k = choose|k: int| 0 <= k < pre.len() && #[trigger] pre[k].paths.contains(x);
            assert(s[k] == pre[k]);
        }
        if s.last().paths.contains(x) {
            assert(s[s.len() - 1].paths.contains(x));
        }
    }
}

proof fn lemma_bucket_lengths(
    length: u64,
    w: Seq<FileinfoView>,
    partial_of: spec_fn(String) -> Option<u128>,
    full_of: spec_fn(String) -> Option<u128>,
    b: int,
)
    requires
        forall|k: int| 0 <= k < w.len() ==> (#[trigger] w[k]).length == length,
        0 <= b < bucket_outcome(length, w, hashes_of(w, partial_of), hashes_of(w, full_of)).len(),
    ensures
        bucket_outcome(length, w, hashes_of(w, partial_of), hashes_of(w, full_of))[b].length
            == length,
{
    if hashing_needed(length, w.len()) {
        let st = staged(length, w, hashes_of(w, partial_of), hashes_of(w, full_of));
        lemma_consolidate_origin(st);
        assert(originates(st, consolidate(st)[b]));
    }
}

/// What traversal lets through survives the run: where every discovered
/// record lies outside the ignored roots and is at least `min_size` long,
/// so is every record that the run yields.
pub proof fn law_run_keeps_filters(
    s: Seq<FileinfoView>,
    partial_of: spec_fn(String) -> Option<u128>,
    full_of: spec_fn(String) -> Option<u128>,
    ignore_roots: Seq<String>,
    min_size: u64,
)
    requires
        forall|k: int| 0 <= k < s.len() ==> (#[trigger] s[k]).paths.len() > 0,
        forall|k: int| 0 <= k < s.len() ==> (#[trigger] s[k]).length >= min_size,
        forall|k: int, x: String|
            0 <= k < s.len() && #[trigger] s[k].paths.contains(x) ==> !ignored(x@, ignore_roots),
    ensures
        forall|a: int|
            0 <= a < run_outcome(s, partial_of, full_of).len() ==> (#[trigger] run_outcome(
                s,
                partial_of,
                full_of,
            )[a]).length >= min_size,
        forall|a: int, x: String|
            0 <= a < run_outcome(s, partial_of, full_of).len() && #[trigger] run_outcome(
                s,
                partial_of,
                full_of,
            )[a].paths.contains(x) ==> !ignored(x@, ignore_roots),
{
    let r = run_outcome(s, partial_of, full_of);
    let ls = lengths_in_order(s);
    law_run_partitions_paths(s, partial_of, full_of);
    assert forall|a: int| 0 <= a < r.len() implies (#[trigger] r[a]).length >= min_size by {
        let (m, b) = lemma_run_buckets_origin(s, ls, partial_of, full_of, a);
        let l = ls[m];
        lemma_with_length_members(s, l);
        lemma_bucket_lengths(l, with_length(s, l), partial_of, full_of, b);
        assert(ls.contains(l));
        lemma_lengths_in_order_members(s, l);
        let i = choose|i: int| 0 <= i < s.len() && #[trigger] s[i].length == l;
    }
    assert forall|a: int, x: String|
        0 <= a < r.len() && #[trigger] r[a].paths.contains(x) implies !ignored(
        x@,
        ignore_roots,
    ) by {
        lemma_all_paths_members(r, x);
        lemma_all_paths_members(s, x);
        let k = choose|k: int| 0 <= k < s.len() && #[trigger] s[k].paths.contains(x);
    }
}

} // verus!
