use ddh::buckets::group_by_length;
use ddh::fileinfo::Fileinfo;

fn record(length: u64, path: &str) -> Fileinfo {
    Fileinfo::new(None, None, length, path.to_string())
}

#[test]
fn buckets_follow_first_occurrence_of_each_length() {
    let out = group_by_length(vec![
        record(10, "/a"),
        record(0, "/b"),
        record(10, "/c"),
        record(7, "/d"),
        record(0, "/e"),
        record(10, "/f"),
    ]);
    let lengths: Vec<u64> = out.iter().map(|b| b.0).collect();
    assert_eq!(lengths, vec![10, 0, 7]);
    let paths = |i: usize| -> Vec<String> {
        out[i].1.iter().map(|r| r.get_paths()[0].clone()).collect()
    };
    assert_eq!(paths(0), vec!["/a", "/c", "/f"]);
    assert_eq!(paths(1), vec!["/b", "/e"]);
    assert_eq!(paths(2), vec!["/d"]);
}

#[test]
fn no_records_give_no_buckets() {
    assert!(group_by_length(Vec::new()).is_empty());
}

#[test]
fn largest_length_gets_its_own_bucket() {
    let out = group_by_length(vec![record(u64::MAX, "/big"), record(1, "/small")]);
    assert_eq!(out.len(), 2);
    assert_eq!(out[0].0, u64::MAX);
    assert_eq!(out[0].1.len(), 1);
}
