use crate::consolidate::{
    all_paths, consolidate, dedupe, groups, holds_paths_of, law_consolidation_partitions_paths,
    law_equal_hashes_share_a_record, law_groups_independent_of_order,
    law_record_members_share_hashes, same_length, views,
};
use crate::hashing::{full_digest, partial_digest};
use crate::fileinfo::{Fileinfo, FileinfoView, BLOCK_SIZE};
use std::collections::HashMap;
use vstd::prelude::*;

verus! {

/// A bucket needs hashing only when its files are not empty and there are
/// at least two of them; otherwise it passes through untouched.
pub open spec fn hashing_needed(file_length: u64, count: nat) -> bool {
    file_length != 0 && count >= 2
}

/// The partial hash of file `i` is present and recurs at another file of
/// the bucket.
pub open spec fn partial_recurs(partials: Seq<Option<u128>>, i: int) -> bool {
    partials[i] is Some && exists|j: int| 0 <= j < partials.len() && j != i && partials[j] == partials[i]
}

/// File `i` of a bucket of files of `file_length` bytes needs its whole
/// content hashed: its leading block does not cover it, and its partial hash
/// is shared with another file of the bucket.
pub open spec fn full_hash_needed(file_length: u64, partials: Seq<Option<u128>>, i: int) -> bool {
    file_length > BLOCK_SIZE && partial_recurs(partials, i)
}

/// The records of a bucket with the computed hashes set: the partial hash
/// from `partials`; the full hash copied from the partial one where the
/// block covers the file, taken from `fulls` where it was needed, and absent
/// otherwise.
pub open spec fn staged(
    file_length: u64,
    s: Seq<FileinfoView>,
    partials: Seq<Option<u128>>,
    fulls: Seq<Option<u128>>,
) -> Seq<FileinfoView> {
    Seq::new(
        s.len(),
        |i: int|
            FileinfoView {
                partial_hash: partials[i],
                full_hash: if file_length <= BLOCK_SIZE {
                    partials[i]
                } else if full_hash_needed(file_length, partials, i) {
                    fulls[i]
                } else {
                    None
                },
                ..s[i]
            },
    )
}

/// What a bucket becomes: unchanged where no hashing is needed, else its
/// staged records consolidated.
pub open spec fn bucket_outcome(
    file_length: u64,
    s: Seq<FileinfoView>,
    partials: Seq<Option<u128>>,
    fulls: Seq<Option<u128>>,
) -> Seq<FileinfoView> {
    if hashing_needed(file_length, s.len()) {
        consolidate(staged(file_length, s, partials, fulls))
    } else {
        s
    }
}

/// Whether the files of a bucket must have their partial hashes computed.
pub fn needs_partial_hashes(file_length: u64, count: usize) -> (r: bool)
    ensures
        r == hashing_needed(file_length, count as nat),
{
    file_length != 0 && count >= 2
}

spec fn seen_before(partials: Seq<Option<u128>>, p: u128, n: int) -> bool {
    exists|j: int| 0 <= j < n && partials[j] == Some(p)
}

spec fn seen_twice(partials: Seq<Option<u128>>, p: u128, n: int) -> bool {
    exists|j1: int, j2: int|
        0 <= j1 < j2 < n && #[trigger] partials[j1] == Some(p) && #[trigger] partials[j2] == Some(p)
}

/// For each file of a bucket, given the partial hashes of all its files,
/// whether its whole content must be hashed too. None is flagged where the
/// leading block covers the file, so such a file is read only once.
pub fn full_hash_wanted(file_length: u64, partials: &Vec<Option<u128>>) -> (r: Vec<bool>)
    ensures
        r.len() == partials.len(),
        forall|i: int| 0 <= i < r.len() ==> r[i] == full_hash_needed(file_length, partials@, i),
        file_length <= BLOCK_SIZE ==> forall|i: int| 0 <= i < r.len() ==> !r[i],
{
    let n = partials.len();
    let mut seen: HashMap<u128, bool> = HashMap::new();
    for i in 0..n
        invariant
            n == partials.len(),
            forall|p: u128| seen@.contains_key(p) <==> seen_before(partials@, p, i as int),
            forall|p: u128|
                seen@.contains_key(p) ==> (seen@[p] <==> seen_twice(partials@, p, i as int)),
    {
        if let Some(p) = partials[i] {
            let again = seen.contains_key(&p);
            seen.insert(p, again);
            proof {
                assert(partials@[i as int] == Some(p));
                assert forall|q: u128| seen@.contains_key(q) implies (seen@[q] <==> seen_twice(
                    partials@,
                    q,
                    i + 1,
                )) by {
                    if q == p && again {
                        let j = choose|j: int| 0 <= j < i && partials@[j] == Some(p);
                        assert(partials@[j] == Some(q) && partials@[i as int] == Some(q));
                    }
                    if seen_twice(partials@, q, i + 1) {
                        let (j1, j2) = choose|j1: int, j2: int|
                            0 <= j1 < j2 < i + 1 && #[trigger] partials@[j1] == Some(q)
                                && #[trigger] partials@[j2] == Some(q);
                        if q == p && j2 == i {
                            assert(seen_before(partials@, p, i as int));
                        }
                    }
                }
                assert forall|q: u128| seen@.contains_key(q) <==> seen_before(
                    partials@,
                    q,
                    i + 1,
                ) by {
                    if seen_before(partials@, q, i + 1) && q != p {
                        let j = choose|j: int| 0 <= j < i + 1 && partials@[j] == Some(q);
                        assert(j < i);
                    }
                    if q == p {
                        assert(partials@[i as int] == Some(q));
                    }
                }
            }
        } else {
            proof {
                assert forall|q: u128| seen_before(partials@, q, i + 1) implies seen_before(
                    partials@,
                    q,
                    i as int,
                ) by {
                    let j = choose|j: int| 0 <= j < i + 1 && partials@[j] == Some(q);
                    assert(j < i);
                }
                assert forall|q: u128| seen_twice(partials@, q, i + 1) implies seen_twice(
                    partials@,
                    q,
                    i as int,
                ) by {
                    let (j1, j2) = choose|j1: int, j2: int|
                        0 <= j1 < j2 < i + 1 && #[trigger] partials@[j1] == Some(q)
                            && #[trigger] partials@[j2] == Some(q);
                    assert(j2 < i);
                }
            }
        }
    }
    let mut flags: Vec<bool> = Vec::new();
    for i in 0..n
        invariant
            n == partials.len(),
            flags.len() == i,
            forall|p: u128| seen@.contains_key(p) <==> seen_before(partials@, p, n as int),
            forall|p: u128|
                seen@.contains_key(p) ==> (seen@[p] <==> seen_twice(partials@, p, n as int)),
            forall|m: int| 0 <= m < i ==> flags[m] == full_hash_needed(file_length, partials@, m),
    {
        let mut flag = false;
        if file_length > BLOCK_SIZE {
            if let Some(p) = partials[i] {
                assert(seen_before(partials@, p, n as int));
                match seen.get(&p) {
                    Some(t) => {
                        flag = *t;
                    },
                    None => {},
                }
                proof {
                    if flag {
                        let (j1, j2) = choose|j1: int, j2: int|
                            0 <= j1 < j2 < n && #[trigger] partials@[j1] == Some(p)
                                && #[trigger] partials@[j2] == Some(p);
                        if j1 != i {
                            assert(partials@[j1] == partials@[i as int]);
                        } else {
                            assert(partials@[j2] == partials@[i as int]);
                        }
                    }
                    if partial_recurs(partials@, i as int) {
                        let j = choose|j: int|
                            0 <= j < partials@.len() && j != i && partials@[j] == partials@[i as int];
                        if j < i {
                            assert(partials@[j] == Some(p) && partials@[i as int] == Some(p));
                        } else {
                            assert(partials@[i as int] == Some(p) && partials@[j] == Some(p));
                        }
                        assert(seen_twice(partials@, p, n as int));
                    }
                }
            }
        }
        flags.push(flag);
    }
    flags
}

/// Settles one bucket of files of `file_length` bytes. Where hashing is
/// needed, `partials` holds the partial hash of each file and `fulls` the
/// full hash of each file that [`full_hash_wanted`] flagged (other entries
/// of `fulls` are not read). A bucket of empty files, or of one file, comes
/// back as it was. A bucket is never empty: one without files is a defect
/// of the caller.
pub fn differentiate_and_consolidate(
    file_length: u64,
    files: Vec<Fileinfo>,
    partials: &Vec<Option<u128>>,
    fulls: &Vec<Option<u128>>,
) -> (r: Vec<Fileinfo>)
    requires
        files.len() > 0,
        hashing_needed(file_length, files.len() as nat) ==> partials.len() == files.len()
            && fulls.len() == files.len(),
    ensures
        views(r@) == bucket_outcome(file_length, views(files@), partials@, fulls@),
{
    if !needs_partial_hashes(file_length, files.len()) {
        return files;
    }
    let ghost input = files@;
    let flags = full_hash_wanted(file_length, partials);
    let mut hashed: Vec<Fileinfo> = Vec::new();
    let mut i: usize = 0;
    for f in it: files.into_iter()
        invariant
            it.seq() == input,
            i == it.index(),
            i <= input.len(),
            hashed.len() == i,
            partials.len() == input.len(),
            fulls.len() == input.len(),
            flags.len() == input.len(),
            forall|m: int|
                0 <= m < flags.len() ==> flags[m] == full_hash_needed(file_length, partials@, m),
            views(hashed@) == staged(file_length, views(input), partials@, fulls@).take(i as int),
    {
        let ghost before = f@;
        let mut f = f;
        f.set_partial_hash(partials[i]);
        if file_length <= BLOCK_SIZE {
            f.set_full_hash(partials[i]);
        } else if flags[i] {
            f.set_full_hash(fulls[i]);
        } else {
            f.set_full_hash(None);
        }
        hashed.push(f);
        proof {
            let st = staged(file_length, views(input), partials@, fulls@);
            assert(views(input)[i as int] == before);
            assert(views(hashed@) =~= st.take(i + 1));
        }
        i = i + 1;
    }
    proof {
        let st = staged(file_length, views(input), partials@, fulls@);
        assert(st.take(input.len() as int) =~= st);
    }
    dedupe(hashed)
}

/// Each hash handed to a bucket is either absent, where reading failed, or
/// the hash of the file's content.
pub open spec fn hashes_read_from(
    contents: Seq<Seq<u8>>,
    partials: Seq<Option<u128>>,
    fulls: Seq<Option<u128>>,
) -> bool {
    forall|k: int|
        0 <= k < contents.len() ==> (partials[k] is None || partials[k] == Some(
            partial_digest(#[trigger] contents[k]),
        )) && (fulls[k] is None || fulls[k] == Some(full_digest(contents[k])))
}

/// Two files of a bucket with the same content, whose hashes were all read
/// without failure, end up in one record.
pub proof fn law_identical_files_share_a_record(
    file_length: u64,
    s: Seq<FileinfoView>,
    partials: Seq<Option<u128>>,
    fulls: Seq<Option<u128>>,
    content: Seq<u8>,
    i: int,
    j: int,
)
    requires
        hashing_needed(file_length, s.len()),
        partials.len() == s.len(),
        fulls.len() == s.len(),
        0 <= i < s.len(),
        0 <= j < s.len(),
        i != j,
        s[i].paths.len() > 0,
        s[j].paths.len() > 0,
        partials[i] == Some(partial_digest(content)),
        partials[j] == Some(partial_digest(content)),
        fulls[i] == Some(full_digest(content)),
        fulls[j] == Some(full_digest(content)),
    ensures
        exists|a: int|
            0 <= a < bucket_outcome(file_length, s, partials, fulls).len() && holds_paths_of(
                #[trigger] bucket_outcome(file_length, s, partials, fulls)[a],
                s[i],
            ) && holds_paths_of(bucket_outcome(file_length, s, partials, fulls)[a], s[j]),
{
    let st = staged(file_length, s, partials, fulls);
    if file_length > BLOCK_SIZE {
        assert(partial_recurs(partials, i));
        assert(partial_recurs(partials, j));
    }
    law_equal_hashes_share_a_record(st, i, j);
    let a = choose|a: int|
        0 <= a < consolidate(st).len() && holds_paths_of(#[trigger] consolidate(st)[a], st[i])
            && holds_paths_of(consolidate(st)[a], st[j]);
    assert(holds_paths_of(bucket_outcome(file_length, s, partials, fulls)[a], s[i]));
}

/// Two paths that end up in one record of a bucket come from files with the
/// same full hash, or from one file kept on its own. Where the hash tells
/// contents apart, files of different content stay apart.
pub proof fn law_shared_record_means_equal_hashes(
    file_length: u64,
    s: Seq<FileinfoView>,
    partials: Seq<Option<u128>>,
    fulls: Seq<Option<u128>>,
    contents: Seq<Seq<u8>>,
    a: int,
    x: String,
    y: String,
)
    requires
        hashing_needed(file_length, s.len()),
        partials.len() == s.len(),
        fulls.len() == s.len(),
        contents.len() == s.len(),
        forall|k: int| 0 <= k < contents.len() ==> (#[trigger] contents[k]).len() == file_length,
        hashes_read_from(contents, partials, fulls),
        0 <= a < bucket_outcome(file_length, s, partials, fulls).len(),
        bucket_outcome(file_length, s, partials, fulls)[a].paths.contains(x),
        bucket_outcome(file_length, s, partials, fulls)[a].paths.contains(y),
    ensures
        exists|i: int, j: int|
            0 <= i < s.len() && 0 <= j < s.len() && #[trigger] s[i].paths.contains(x)
                && #[trigger] s[j].paths.contains(y) && (full_digest(contents[i]) == full_digest(
                contents[j]) || s[i].paths == s[j].paths),
{
    let st = staged(file_length, s, partials, fulls);
    law_record_members_share_hashes(st, a, x, y);
    let (i, j) = choose|i: int, j: int|
        0 <= i < st.len() && 0 <= j < st.len() && #[trigger] st[i].paths.contains(x)
            && #[trigger] st[j].paths.contains(y) && (st[i].key() is Some ==> st[i].key()
            == st[j].key()) && (st[i].key() is None ==> st[i] == st[j]);
    assert(s[i].paths.contains(x) && s[j].paths.contains(y));
    if st[i].key() is Some {
        assert(contents[i].len() == file_length && contents[j].len() == file_length);
        if file_length <= BLOCK_SIZE {
            assert(partials[i] == Some(partial_digest(contents[i])));
            assert(partials[j] == Some(partial_digest(contents[j])));
        } else {
            assert(fulls[i] == Some(full_digest(contents[i])));
            assert(fulls[j] == Some(full_digest(contents[j])));
        }
    }
}

proof fn lemma_all_paths_by_paths(s: Seq<FileinfoView>, t: Seq<FileinfoView>)
    requires
        s.len() == t.len(),
        forall|i: int| 0 <= i < s.len() ==> #[trigger] s[i].paths == t[i].paths,
    ensures
        all_paths(s) == all_paths(t),
    decreases s.len(),
{
    if s.len() > 0 {
        lemma_all_paths_by_paths(s.drop_last(), t.drop_last());
    }
}

/// Settling a bucket keeps every path of its files, each as many times as
/// it came, and leaves no record without paths where none came in.
pub proof fn law_bucket_keeps_paths(
    file_length: u64,
    s: Seq<FileinfoView>,
    partials: Seq<Option<u128>>,
    fulls: Seq<Option<u128>>,
)
    requires
        forall|i: int| 0 <= i < s.len() ==> (#[trigger] s[i]).paths.len() > 0,
    ensures
        all_paths(bucket_outcome(file_length, s, partials, fulls)) == all_paths(s),
        forall|a: int|
            0 <= a < bucket_outcome(file_length, s, partials, fulls).len() ==> (
            #[trigger] bucket_outcome(file_length, s, partials, fulls)[a]).paths.len() > 0,
{
    if hashing_needed(file_length, s.len()) {
        let st = staged(file_length, s, partials, fulls);
        law_consolidation_partitions_paths(st);
        lemma_all_paths_by_paths(st, s);
    }
}

/// `perm` is a permutation of `0..n`.
pub open spec fn is_permutation(perm: Seq<int>, n: nat) -> bool {
    &&& perm.len() == n
    &&& forall|i: int| 0 <= i < n ==> 0 <= #[trigger] perm[i] < n
    &&& forall|i: int, j: int| 0 <= i < n && 0 <= j < n && i != j ==> perm[i] != perm[j]
    &&& forall|k: int| 0 <= k < n ==> #[trigger] perm.contains(k)
}

/// The order in which the files of a bucket are met does not change the
/// groups it settles into: listing the same files, each with the same
/// hashes, in another order gives the same set of (length, set of paths)
/// groups.
pub proof fn law_bucket_independent_of_order(
    file_length: u64,
    s1: Seq<FileinfoView>,
    partials1: Seq<Option<u128>>,
    fulls1: Seq<Option<u128>>,
    s2: Seq<FileinfoView>,
    partials2: Seq<Option<u128>>,
    fulls2: Seq<Option<u128>>,
    perm: Seq<int>,
)
    requires
        partials1.len() == s1.len(),
        fulls1.len() == s1.len(),
        s2.len() == s1.len(),
        partials2.len() == s1.len(),
        fulls2.len() == s1.len(),
        same_length(s1),
        is_permutation(perm, s1.len()),
        forall|i: int|
            0 <= i < s1.len() ==> s2[i] == s1[#[trigger] perm[i]] && partials2[i] == partials1[perm[i]]
                && fulls2[i] == fulls1[perm[i]],
    ensures
        groups(bucket_outcome(file_length, s1, partials1, fulls1)) == groups(
            bucket_outcome(file_length, s2, partials2, fulls2),
        ),
{
    let n = s1.len();
    if hashing_needed(file_length, n) {
        let st1 = staged(file_length, s1, partials1, fulls1);
        let st2 = staged(file_length, s2, partials2, fulls2);
        assert forall|i: int| 0 <= i < n implies #[trigger] st2[i] == st1[perm[i]] by {
            let pi = perm[i];
            if partial_recurs(partials2, i) {
                let j = choose|j: int| 0 <= j < n && j != i && partials2[j] == partials2[i];
                assert(perm[j] != pi);
                assert(partials1[perm[j]] == partials1[pi]);
                assert(partial_recurs(partials1, pi));
            }
            if partial_recurs(partials1, pi) {
                let k = choose|k: int| 0 <= k < n && k != pi && partials1[k] == partials1[pi];
                assert(perm.contains(k));
                let j = choose|j: int| 0 <= j < n && #[trigger] perm[j] == k;
                assert(j != i);
                assert(partials2[j] == partials2[i]);
                assert(partial_recurs(partials2, i));
            }
        }
        assert forall|r: FileinfoView| st1.contains(r) <==> st2.contains(r) by {
            if st1.contains(r) {
                let k = choose|k: int| 0 <= k < n && st1[k] == r;
                assert(perm.contains(k));
                let j = choose|j: int| 0 <= j < n && #[trigger] perm[j] == k;
                assert(st2[j] == r);
            }
            if st2.contains(r) {
                let j = choose|j: int| 0 <= j < n && st2[j] == r;
                assert(st1[perm[j]] == r);
            }
        }
        assert(same_length(st1));
        law_groups_independent_of_order(st1, st2);
    } else {
        assert forall|g: (u64, Set<String>)| groups(s1).contains(g) <==> groups(s2).contains(
            g,
        ) by {
            if groups(s1).contains(g) {
                let k = choose|k: int|
                    0 <= k < n && g == (s1[k].length, #[trigger] s1[k].paths.to_set());
                assert(perm.contains(k));
                let j = choose|j: int| 0 <= j < n && #[trigger] perm[j] == k;
                assert(s2[j] == s1[k]);
                assert(g == (s2[j].length, s2[j].paths.to_set()));
            }
            if groups(s2).contains(g) {
                let j = choose|j: int|
                    0 <= j < n && g == (s2[j].length, #[trigger] s2[j].paths.to_set());
                assert(s1[perm[j]] == s2[j]);
                assert(g == (s1[perm[j]].length, s1[perm[j]].paths.to_set()));
            }
        }
        assert(groups(s1) =~= groups(s2));
    }
}

} // verus!
