use ddh::differentiate::{differentiate_and_consolidate, full_hash_wanted, needs_partial_hashes};
use ddh::fileinfo::{Fileinfo, HashMode, BLOCK_SIZE};
use ddh::hashing::{ContentHasher, HashProgress, ReadOutcome};
use std::collections::BTreeSet;

fn hash_of(content: Option<&[u8]>, mode: HashMode) -> Option<u128> {
    let mut hasher = ContentHasher::new(mode);
    let chunk = match mode {
        HashMode::Partial => BLOCK_SIZE as usize,
        HashMode::Full => 16384,
    };
    let mut pos = 0;
    loop {
        let outcome = match content {
            None => ReadOutcome::Failed,
            Some(c) if pos >= c.len() => ReadOutcome::End,
            Some(c) => {
                let end = std::cmp::min(pos + chunk, c.len());
                let piece = c[pos..end].to_vec();
                pos = end;
                ReadOutcome::Bytes(piece)
            }
        };
        match hasher.step(outcome) {
            HashProgress::ReadMore => {}
            HashProgress::Finished(h) => return h,
        }
    }
}

/// Runs one bucket the way a caller does: partial hashes, then full hashes
/// of the flagged files. `readable_for_full` says which files can still be
/// read at the second pass.
fn settle(
    length: u64,
    contents: &[Vec<u8>],
    names: &[&str],
    readable_for_full: &[bool],
    reads: &mut Vec<(usize, HashMode)>,
) -> Vec<Fileinfo> {
    let files: Vec<Fileinfo> = names
        .iter()
        .map(|n| Fileinfo::new(None, None, length, n.to_string()))
        .collect();
    if !needs_partial_hashes(length, files.len()) {
        return differentiate_and_consolidate(length, files, &Vec::new(), &Vec::new());
    }
    let partials: Vec<Option<u128>> = contents
        .iter()
        .enumerate()
        .map(|(i, c)| {
            reads.push((i, HashMode::Partial));
            hash_of(Some(c), HashMode::Partial)
        })
        .collect();
    let wanted = full_hash_wanted(length, &partials);
    let fulls: Vec<Option<u128>> = contents
        .iter()
        .enumerate()
        .map(|(i, c)| {
            if wanted[i] {
                reads.push((i, HashMode::Full));
                let content = if readable_for_full[i] { Some(c.as_slice()) } else { None };
                hash_of(content, HashMode::Full)
            } else {
                None
            }
        })
        .collect();
    differentiate_and_consolidate(length, files, &partials, &fulls)
}

fn pattern(len: usize, seed: u8) -> Vec<u8> {
    (0..len).map(|i| (i as u8).wrapping_mul(31).wrapping_add(seed)).collect()
}

#[test]
fn shared_prefix_but_different_tail_stays_apart() {
    let a = pattern(10_000, 3);
    let b = a.clone();
    let mut c = a.clone();
    for byte in c.iter_mut().skip(4096) {
        *byte = byte.wrapping_add(1);
    }
    let mut reads = Vec::new();
    let out = settle(10_000, &[a, b, c], &["/t/A", "/t/B", "/t/C"], &[true, true, true], &mut reads);
    assert_eq!(out.len(), 2);
    let pair = out.iter().find(|r| r.get_paths().len() == 2).unwrap();
    assert_eq!(pair.get_paths(), &vec!["/t/A".to_string(), "/t/B".to_string()]);
    let single = out.iter().find(|r| r.get_paths().len() == 1).unwrap();
    assert_eq!(single.get_paths(), &vec!["/t/C".to_string()]);
    // C's leading block equals A's, so its full hash was needed too, and differs.
    assert_eq!(single.get_partial_hash(), pair.get_partial_hash());
    assert!(single.get_full_hash().is_some());
    assert_ne!(single.get_full_hash(), pair.get_full_hash());
}

#[test]
fn empty_files_stay_apart() {
    let mut reads = Vec::new();
    let out = settle(0, &[vec![], vec![]], &["/e/1", "/e/2"], &[true, true], &mut reads);
    assert_eq!(out.len(), 2);
    assert!(reads.is_empty());
    for r in &out {
        assert_eq!(r.get_paths().len(), 1);
        assert_eq!(r.get_partial_hash(), None);
        assert_eq!(r.get_full_hash(), None);
    }
}

#[test]
fn unreadable_at_full_pass_is_kept_out() {
    let a = pattern(9_000, 11);
    let mut reads = Vec::new();
    let out = settle(
        9_000,
        &[a.clone(), a.clone(), a],
        &["/u/1", "/u/2", "/u/3"],
        &[true, true, false],
        &mut reads,
    );
    assert_eq!(out.len(), 2);
    let pair = out.iter().find(|r| r.get_paths().len() == 2).unwrap();
    assert_eq!(pair.get_paths(), &vec!["/u/1".to_string(), "/u/2".to_string()]);
    let alone = out.iter().find(|r| r.get_paths().len() == 1).unwrap();
    assert_eq!(alone.get_paths(), &vec!["/u/3".to_string()]);
    assert_eq!(alone.get_full_hash(), None);
}

#[test]
fn single_file_bucket_is_not_read() {
    let mut reads = Vec::new();
    let out = settle(500, &[pattern(500, 1)], &["/s/1"], &[true], &mut reads);
    assert!(reads.is_empty());
    assert_eq!(out.len(), 1);
    assert_eq!(out[0].get_partial_hash(), None);
}

#[test]
fn small_files_are_read_once() {
    let a = pattern(4096, 5);
    let mut reads = Vec::new();
    let out = settle(4096, &[a.clone(), a, pattern(4096, 6)], &["/k/1", "/k/2", "/k/3"], &[true; 3], &mut reads);
    assert_eq!(reads.len(), 3);
    assert!(reads.iter().all(|(_, m)| *m == HashMode::Partial));
    assert_eq!(out.len(), 2);
    for r in &out {
        assert_eq!(r.get_full_hash(), r.get_partial_hash());
    }
    assert!(full_hash_wanted(4096, &vec![Some(1), Some(1), None]).iter().all(|w| !w));
}

#[test]
fn identical_files_are_grouped_and_distinct_ones_are_not() {
    let x = pattern(20_000, 2);
    let y = pattern(20_000, 9);
    let mut reads = Vec::new();
    let out = settle(
        20_000,
        &[x.clone(), y.clone(), x, y],
        &["/g/1", "/g/2", "/g/3", "/g/4"],
        &[true; 4],
        &mut reads,
    );
    assert_eq!(out.len(), 2);
    assert_eq!(out[0].get_paths(), &vec!["/g/1".to_string(), "/g/3".to_string()]);
    assert_eq!(out[1].get_paths(), &vec!["/g/2".to_string(), "/g/4".to_string()]);
}

#[test]
fn full_hash_flags_follow_recurring_partial_hashes() {
    let w = full_hash_wanted(5000, &vec![Some(1), Some(2), Some(1), None, None, Some(3)]);
    assert_eq!(w, vec![true, false, true, false, false, false]);
    assert!(full_hash_wanted(5000, &Vec::new()).is_empty());
}

#[test]
fn partial_hashing_is_needed_only_for_real_buckets() {
    assert!(!needs_partial_hashes(0, 5));
    assert!(!needs_partial_hashes(10, 1));
    assert!(!needs_partial_hashes(10, 0));
    assert!(needs_partial_hashes(10, 2));
}

#[test]
fn bucket_groups_do_not_depend_on_order() {
    let x = pattern(6_000, 4);
    let mut y = x.clone();
    y[5_999] ^= 1;
    let contents = [x.clone(), y.clone(), x, y, pattern(6_000, 8)];
    let names = ["/o/1", "/o/2", "/o/3", "/o/4", "/o/5"];
    let run = |order: &[usize]| {
        let c: Vec<Vec<u8>> = order.iter().map(|&i| contents[i].clone()).collect();
        let n: Vec<&str> = order.iter().map(|&i| names[i]).collect();
        let mut reads = Vec::new();
        settle(6_000, &c, &n, &[true; 5], &mut reads)
            .iter()
            .map(|r| r.get_paths().iter().cloned().collect::<BTreeSet<String>>())
            .collect::<BTreeSet<_>>()
    };
    let first = run(&[0, 1, 2, 3, 4]);
    assert_eq!(first, run(&[4, 2, 0, 3, 1]));
    assert_eq!(first, run(&[3, 1, 4, 0, 2]));
    assert_eq!(first.len(), 3);
}

#[test]
fn whole_run_groups_do_not_depend_on_discovery_order() {
    let a = pattern(5_000, 1);
    let b = pattern(300, 2);
    let files: Vec<(&str, Vec<u8>)> = vec![
        ("/r/a1", a.clone()),
        ("/r/b1", b.clone()),
        ("/r/a2", a.clone()),
        ("/r/c", pattern(5_000, 3)),
        ("/r/b2", b),
        ("/r/e1", Vec::new()),
        ("/r/e2", Vec::new()),
    ];
    let run = |order: &[usize]| -> BTreeSet<(u64, BTreeSet<String>)> {
        let found: Vec<Fileinfo> = order
            .iter()
            .map(|&i| Fileinfo::new(None, None, files[i].1.len() as u64, files[i].0.to_string()))
            .collect();
        let mut out = BTreeSet::new();
        for (length, bucket) in ddh::buckets::group_by_length(found) {
            let contents: Vec<Vec<u8>> = bucket
                .iter()
                .map(|r| files.iter().find(|f| f.0 == r.get_paths()[0]).unwrap().1.clone())
                .collect();
            let names: Vec<String> = bucket.iter().map(|r| r.get_paths()[0].clone()).collect();
            let names: Vec<&str> = names.iter().map(|s| s.as_str()).collect();
            let mut reads = Vec::new();
            let readable = vec![true; names.len()];
            for r in settle(length, &contents, &names, &readable, &mut reads) {
                out.insert((r.get_length(), r.get_paths().iter().cloned().collect()));
            }
        }
        out
    };
    let first = run(&[0, 1, 2, 3, 4, 5, 6]);
    assert_eq!(first, run(&[6, 5, 4, 3, 2, 1, 0]));
    assert_eq!(first, run(&[3, 0, 5, 1, 6, 2, 4]));
    assert_eq!(first.len(), 5);
    let all: BTreeSet<String> = first.iter().flat_map(|g| g.1.iter().cloned()).collect();
    assert_eq!(all.len(), 7);
}
