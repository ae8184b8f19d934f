use chak::diff::diff_snapshots;
use chak::diff::Snapshot;

fn snapshot(pairs: &[(&str, &str)]) -> Snapshot {
    let mut s = Snapshot::new();
    for (p, h) in pairs {
        s.insert(p.to_string(), h.to_string());
    }
    s
}

#[test]
fn test_diff_snapshots() {
    let old_snapshot = snapshot(&[("file1.txt", "hash1")]);
    let new_snapshot = snapshot(&[("file1.txt", "hash2"), ("file2.txt", "hash3")]);
    let changes = diff_snapshots(&old_snapshot, &new_snapshot);
    assert_eq!(changes.len(), 2);
    assert_eq!(changes[0], "Modified: \"file1.txt\"");
    assert_eq!(changes[1], "Added: \"file2.txt\"");
}

#[test]
fn deleted_paths_come_last() {
    let old_snapshot = snapshot(&[("a", "1"), ("b", "2")]);
    let new_snapshot = snapshot(&[("c", "3")]);
    let changes = diff_snapshots(&old_snapshot, &new_snapshot);
    assert_eq!(changes, vec!["Added: \"c\"", "Deleted: \"a\"", "Deleted: \"b\""]);
}

#[test]
fn identical_snapshots_show_no_change() {
    let s = snapshot(&[("a", "1"), ("b/c", "2")]);
    assert!(diff_snapshots(&s, &s).is_empty());
}

#[test]
fn paths_are_compared_by_components() {
    let old_snapshot = snapshot(&[("dir/file", "h")]);
    let new_snapshot = snapshot(&[("dir//file/", "h")]);
    assert!(diff_snapshots(&old_snapshot, &new_snapshot).is_empty());
}

#[test]
fn insert_replaces_the_hash_of_the_same_path() {
    let mut s = Snapshot::new();
    assert_eq!(s.insert("a/b".to_string(), "1".to_string()), None);
    assert_eq!(s.insert("a//b".to_string(), "2".to_string()), Some("1".to_string()));
    assert_eq!(s.len(), 1);
    let other = snapshot(&[("a/b", "2")]);
    assert!(diff_snapshots(&s, &other).is_empty());
}

#[test]
fn paths_are_written_as_debug_text() {
    let changes = diff_snapshots(&Snapshot::new(), &snapshot(&[("it's", "1")]));
    assert_eq!(changes, vec!["Added: \"it's\""]);
    let quoted = diff_snapshots(&snapshot(&[("a\"b", "1")]), &Snapshot::new());
    assert_eq!(quoted, vec!["Deleted: \"a\\\"b\""]);
}

#[test]
fn get_reads_back_what_insert_stored() {
    let mut s = Snapshot::new();
    s.insert("a/b".to_string(), "1".to_string());
    s.insert("c".to_string(), "2".to_string());
    assert_eq!(s.get("a//b"), Some("1".to_string()));
    s.insert("./a/b/".to_string(), "3".to_string());
    assert_eq!(s.get("a/b"), Some("1".to_string()));
    s.insert("a/b/".to_string(), "4".to_string());
    assert_eq!(s.get("a/b"), Some("4".to_string()));
    assert_eq!(s.get("c"), Some("2".to_string()));
    assert_eq!(s.get("d"), None);
    assert_eq!(s.len(), 3);
}

#[test]
fn everything_is_added_against_an_empty_snapshot() {
    let new_snapshot = snapshot(&[("x", "1"), ("y/z", "2")]);
    let changes = diff_snapshots(&Snapshot::new(), &new_snapshot);
    assert_eq!(changes, vec!["Added: \"x\"", "Added: \"y/z\""]);
}

#[test]
fn added_one_way_is_deleted_the_other() {
    let a = snapshot(&[("x", "1"), ("y", "2")]);
    let b = snapshot(&[("y", "3"), ("z", "4")]);
    let forward = diff_snapshots(&a, &b);
    let backward = diff_snapshots(&b, &a);
    assert_eq!(forward, vec!["Modified: \"y\"", "Added: \"z\"", "Deleted: \"x\""]);
    assert_eq!(backward, vec!["Added: \"x\"", "Modified: \"y\"", "Deleted: \"z\""]);
}

#[test]
fn modified_differs_when_a_path_is_spelled_differently() {
    let a = snapshot(&[("d/f", "1")]);
    let b = snapshot(&[("d//f", "2")]);
    assert_eq!(diff_snapshots(&a, &b), vec!["Modified: \"d//f\""]);
    assert_eq!(diff_snapshots(&b, &a), vec!["Modified: \"d/f\""]);
}

#[test]
fn snapshot_len_counts_paths_once() {
    let s = snapshot(&[("a", "1"), ("a/", "2"), ("b", "3")]);
    assert_eq!(s.len(), 2);
    assert_eq!(s.get("a"), Some("2".to_string()));
}

#[test]
fn same_hash_under_another_spelling_is_no_change_either_way() {
    let a = snapshot(&[("d/f", "1")]);
    let b = snapshot(&[("d//f", "1")]);
    assert!(diff_snapshots(&a, &b).is_empty());
    assert!(diff_snapshots(&b, &a).is_empty());
}
