use ddh::fileinfo::{Fileinfo, HashMode, BLOCK_SIZE};
use std::cmp::Ordering;

fn record(full: Option<u128>, partial: Option<u128>, length: u64, path: &str) -> Fileinfo {
    Fileinfo::new(full, partial, length, path.to_string())
}

#[test]
fn new_record_holds_its_values() {
    let fi = record(Some(123), Some(45), 3, "./foo/bar.txt");
    assert_eq!(fi.get_length(), 3);
    assert_eq!(fi.get_full_hash(), Some(123));
    assert_eq!(fi.get_partial_hash(), Some(45));
    assert_eq!(fi.get_paths(), &vec!["./foo/bar.txt".to_string()]);
    assert!(!fi.is_shared());
}

#[test]
fn candidate_name_is_last_component() {
    assert_eq!(record(None, None, 3, "./foo/bar.txt").get_candidate_name(), "bar.txt");
    assert_eq!(record(None, None, 3, "/home/jon/notes").get_candidate_name(), "notes");
    assert_eq!(record(None, None, 3, "plain").get_candidate_name(), "plain");
    assert_eq!(record(None, None, 3, "/dir/").get_candidate_name(), "");
    assert_eq!(record(None, None, 3, "/déjà/vu.txt").get_candidate_name(), "vu.txt");
}

#[test]
fn equality_is_staged() {
    let a = record(Some(1), Some(2), 10, "/a");
    let b = record(Some(1), Some(2), 10, "/b");
    assert!(a == b);
    // Both full hashes present: they alone decide.
    assert!(a == record(Some(1), Some(3), 10, "/c"));
    assert!(a == record(Some(1), Some(2), 11, "/d"));
    assert!(a != record(Some(9), Some(2), 10, "/e"));
    // Else both partial hashes decide.
    assert!(record(None, Some(2), 10, "/f") == record(Some(4), Some(2), 99, "/g"));
    assert!(record(None, Some(2), 10, "/f") != record(None, Some(3), 10, "/h"));
    // Else the lengths.
    assert!(record(None, None, 10, "/i") == record(Some(5), None, 10, "/j"));
    assert!(record(None, None, 10, "/i") != record(None, Some(1), 11, "/k"));
}

#[test]
fn ordering_is_staged() {
    // Both full hashes present: they decide, whatever the lengths.
    let a = record(Some(1), Some(9), 50, "/a");
    let b = record(Some(2), Some(0), 10, "/b");
    assert_eq!(a.partial_cmp(&b), Some(Ordering::Less));
    // Only partial hashes on both sides.
    let c = record(None, Some(7), 1, "/c");
    let d = record(Some(1), Some(3), 99, "/d");
    assert_eq!(c.partial_cmp(&d), Some(Ordering::Greater));
    // Otherwise by length.
    let e = record(None, None, 5, "/e");
    let f = record(Some(1), None, 5, "/f");
    assert_eq!(e.partial_cmp(&f), Some(Ordering::Equal));
    let g = record(None, Some(1), 4, "/g");
    assert_eq!(g.partial_cmp(&e), Some(Ordering::Less));
}

#[test]
fn block_size_and_modes() {
    assert_eq!(BLOCK_SIZE, 4096);
    assert!(HashMode::Full != HashMode::Partial);
}
