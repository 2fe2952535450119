use ddh::consolidate::dedupe;
use ddh::fileinfo::Fileinfo;
use std::collections::BTreeSet;

fn record(full: Option<u128>, partial: Option<u128>, length: u64, path: &str) -> Fileinfo {
    Fileinfo::new(full, partial, length, path.to_string())
}

fn groups(records: &[Fileinfo]) -> BTreeSet<(u64, BTreeSet<String>)> {
    records
        .iter()
        .map(|r| (r.get_length(), r.get_paths().iter().cloned().collect()))
        .collect()
}

#[test]
fn records_with_equal_hashes_merge_into_the_first() {
    let out = dedupe(vec![
        record(Some(7), Some(1), 100, "/a"),
        record(Some(8), Some(1), 100, "/b"),
        record(Some(7), Some(1), 100, "/c"),
        record(Some(7), Some(1), 100, "/d"),
    ]);
    assert_eq!(out.len(), 2);
    assert_eq!(out[0].get_paths(), &vec!["/a".to_string(), "/c".to_string(), "/d".to_string()]);
    assert_eq!(out[0].get_candidate_name(), "a");
    assert_eq!(out[1].get_paths(), &vec!["/b".to_string()]);
}

#[test]
fn records_missing_a_hash_never_merge() {
    let out = dedupe(vec![
        record(None, Some(1), 100, "/a"),
        record(None, Some(1), 100, "/b"),
        record(None, None, 100, "/c"),
        record(None, None, 100, "/d"),
        record(Some(3), None, 100, "/e"),
        record(Some(3), None, 100, "/f"),
    ]);
    assert_eq!(out.len(), 6);
    for r in &out {
        assert_eq!(r.get_paths().len(), 1);
    }
}

#[test]
fn empty_input_gives_empty_output() {
    assert!(dedupe(Vec::new()).is_empty());
}

#[test]
fn every_path_lands_in_exactly_one_record() {
    let input = vec![
        record(Some(1), Some(1), 9, "/f1"),
        record(Some(2), Some(1), 9, "/f2"),
        record(Some(1), Some(1), 9, "/f3"),
        record(None, Some(5), 9, "/f4"),
        record(Some(2), Some(1), 9, "/f5"),
    ];
    let out = dedupe(input);
    let mut all: Vec<String> = out.iter().flat_map(|r| r.get_paths().iter().cloned()).collect();
    all.sort();
    assert_eq!(all, vec!["/f1", "/f2", "/f3", "/f4", "/f5"]);
    assert!(out.iter().all(|r| !r.get_paths().is_empty()));
}

#[test]
fn order_of_arrival_does_not_change_groups() {
    let make = |order: &[usize]| {
        let all = [
            (Some(1), Some(1), "/x"),
            (Some(2), Some(1), "/y"),
            (Some(1), Some(1), "/z"),
            (None, Some(4), "/w"),
            (Some(2), Some(1), "/v"),
        ];
        order
            .iter()
            .map(|&i| record(all[i].0, all[i].1, 64, all[i].2))
            .collect::<Vec<_>>()
    };
    let first = dedupe(make(&[0, 1, 2, 3, 4]));
    let second = dedupe(make(&[4, 3, 2, 1, 0]));
    let third = dedupe(make(&[2, 0, 4, 3, 1]));
    assert_eq!(groups(&first), groups(&second));
    assert_eq!(groups(&first), groups(&third));
    assert_eq!(first.len(), 3);
}
