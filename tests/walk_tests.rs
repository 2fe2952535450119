use ddh::walk::{is_ignored, visit, EntryKind, EntryMeta, FailureCause, Visit};

fn roots(r: &[&str]) -> Vec<String> {
    r.iter().map(|s| s.to_string()).collect()
}

fn file(length: u64) -> Result<EntryMeta, String> {
    Ok(EntryMeta { kind: EntryKind::File, length })
}

#[test]
fn ignore_roots_match_whole_components() {
    let r = roots(&["/home/jon/cache"]);
    assert!(is_ignored("/home/jon/cache", &r));
    assert!(is_ignored("/home/jon/cache/x/y", &r));
    assert!(!is_ignored("/home/jon/cache2", &r));
    assert!(!is_ignored("/home/jon", &r));
    assert!(is_ignored("/anything", &roots(&["/"])));
    assert!(!is_ignored("/a", &Vec::new()));
    assert!(is_ignored("/b/c", &roots(&["/a", "/b"])));
}

#[test]
fn path_under_ignored_root_is_pruned() {
    let r = roots(&["/data/skip"]);
    let v = visit("rel/x".to_string(), Ok("/data/skip/x".to_string()), file(100), &r, 0);
    assert!(matches!(v, Visit::Pruned));
    let v = visit(
        "rel/x".to_string(),
        Ok("/data/skip".to_string()),
        Err("denied".to_string()),
        &r,
        0,
    );
    assert!(matches!(v, Visit::Pruned));
}

#[test]
fn qualifying_file_becomes_a_record_of_its_canonical_path() {
    let v = visit("./a.txt".to_string(), Ok("/w/a.txt".to_string()), file(12), &Vec::new(), 12);
    match v {
        Visit::Found(f) => {
            assert_eq!(f.get_paths(), &vec!["/w/a.txt".to_string()]);
            assert_eq!(f.get_length(), 12);
            assert_eq!(f.get_partial_hash(), None);
            assert_eq!(f.get_full_hash(), None);
        }
        _ => panic!("expected a record"),
    }
}

#[test]
fn small_file_is_skipped_silently() {
    let v = visit("./a".to_string(), Ok("/w/a".to_string()), file(11), &Vec::new(), 12);
    assert!(matches!(v, Visit::Skipped));
}

#[test]
fn symlink_is_reported() {
    let meta = Ok(EntryMeta { kind: EntryKind::Symlink, length: 0 });
    let v = visit("./l".to_string(), Ok("/w/target".to_string()), meta, &Vec::new(), 0);
    match v {
        Visit::Failed(p, c) => {
            assert_eq!(p, "./l");
            assert_eq!(c, FailureCause::SymlinkSkipped);
        }
        _ => panic!("expected a failure"),
    }
}

#[test]
fn metadata_failure_is_reported_before_resolution_failure() {
    let v = visit(
        "./gone".to_string(),
        Err("no canonical".to_string()),
        Err("no metadata".to_string()),
        &Vec::new(),
        0,
    );
    match v {
        Visit::Failed(p, c) => {
            assert_eq!(p, "./gone");
            assert_eq!(c, FailureCause::Fs("no metadata".to_string()));
        }
        _ => panic!("expected a failure"),
    }
    let v = visit("./odd".to_string(), Err("no canonical".to_string()), file(3), &Vec::new(), 0);
    match v {
        Visit::Failed(_, c) => assert_eq!(c, FailureCause::Fs("no canonical".to_string())),
        _ => panic!("expected a failure"),
    }
}

#[test]
fn directory_is_descended_and_others_skipped() {
    let dir = Ok(EntryMeta { kind: EntryKind::Directory, length: 4096 });
    match visit("d".to_string(), Ok("/w/d".to_string()), dir, &roots(&["/w/dd"]), 0) {
        Visit::Descend(c) => assert_eq!(c, "/w/d"),
        _ => panic!("expected descent"),
    }
    let other = Ok(EntryMeta { kind: EntryKind::Other, length: 0 });
    assert!(matches!(
        visit("p".to_string(), Ok("/w/p".to_string()), other, &Vec::new(), 0),
        Visit::Skipped
    ));
}
