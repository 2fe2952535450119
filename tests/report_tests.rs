use ddh::fileinfo::Fileinfo;
use ddh::report::{display_divisor, overwrite_confirmed, summarize, Blocksize};

fn group(length: u64, paths: &[&str]) -> Fileinfo {
    let mut records: Vec<Fileinfo> = paths
        .iter()
        .map(|p| Fileinfo::new(Some(length as u128), Some(length as u128), length, p.to_string()))
        .collect();
    let merged = ddh::consolidate::dedupe(std::mem::take(&mut records));
    assert_eq!(merged.len(), 1);
    merged.into_iter().next().unwrap()
}

#[test]
fn divisors_are_powers_of_1024() {
    assert_eq!(display_divisor(Blocksize::Bytes), 1);
    assert_eq!(display_divisor(Blocksize::Kilobytes), 1024);
    assert_eq!(display_divisor(Blocksize::Megabytes), 1024 * 1024);
    assert_eq!(display_divisor(Blocksize::Gigabytes), 1024 * 1024 * 1024);
}

#[test]
fn summary_counts_copies_and_contents() {
    let files = vec![group(2048, &["/a", "/b", "/c"]), group(1024, &["/d"]), group(3072, &["/e"])];
    let s = summarize(&files, Blocksize::Kilobytes);
    assert_eq!(s.instances, 5);
    assert_eq!(s.instance_size, (3 * 2048 + 1024 + 3072) / 1024);
    assert_eq!(s.records, 3);
    assert_eq!(s.record_size, (2048 + 1024 + 3072) / 1024);
    assert_eq!(s.single_records, 2);
    assert_eq!(s.single_size, 4);
    assert_eq!(s.shared_records, 1);
    assert_eq!(s.shared_size, 2);
    assert_eq!(s.shared_instances, 3);
}

#[test]
fn summary_of_nothing_is_zero() {
    let s = summarize(&Vec::new(), Blocksize::Bytes);
    assert_eq!(s.instances, 0);
    assert_eq!(s.record_size, 0);
    assert_eq!(s.shared_instances, 0);
}

#[test]
fn summary_saturates_instead_of_overflowing() {
    let files = vec![group(u64::MAX, &["/x", "/y"]), group(u64::MAX - 1, &["/z"])];
    let s = summarize(&files, Blocksize::Bytes);
    assert_eq!(s.instance_size, u64::MAX);
    assert_eq!(s.record_size, u64::MAX);
    assert_eq!(s.shared_size, u64::MAX);
    assert_eq!(s.single_size, u64::MAX - 1);
    let s = summarize(&files, Blocksize::Gigabytes);
    assert_eq!(s.instance_size, u64::MAX / (1024 * 1024 * 1024));
}

#[test]
fn overwrite_needs_a_yes() {
    assert!(overwrite_confirmed("y\n"));
    assert!(overwrite_confirmed("Yes"));
    assert!(!overwrite_confirmed("n"));
    assert!(!overwrite_confirmed(""));
    assert!(!overwrite_confirmed(" y"));
}
