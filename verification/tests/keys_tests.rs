use find_dupl_file::keys::{file_key, group_key, sort_key_list};
use find_dupl_file::model::{DuplicateGroup, IndexedFile};
use find_dupl_file::selection::Selection;

fn file(disk_id: &str, path: &str) -> IndexedFile {
    IndexedFile { path: path.into(), size: 1, sample_hash: None, disk_id: disk_id.into() }
}

#[test]
fn file_keys_join_disk_and_path_with_a_unit_separator() {
    assert_eq!(file_key(&file("A", "/tmp/a.mp4")), "A\u{1f}/tmp/a.mp4");
    assert_ne!(file_key(&file("A", "B/x")), file_key(&file("A/B", "x")));
}

#[test]
fn group_keys_do_not_depend_on_file_order() {
    let one = DuplicateGroup { size: 1, files: vec![file("B", "/b"), file("A", "/a")] };
    let two = DuplicateGroup { size: 1, files: vec![file("A", "/a"), file("B", "/b")] };
    assert_eq!(group_key(&one), "A\u{1f}/a\u{1e}B\u{1f}/b");
    assert_eq!(group_key(&one), group_key(&two));
    assert_eq!(group_key(&DuplicateGroup { size: 1, files: vec![] }), "");
}

#[test]
fn keys_sort_by_code_point() {
    let keys: Vec<String> = vec!["b".into(), "a".into(), "ab".into(), "中".into(), "Z".into()];
    assert_eq!(sort_key_list(&keys), vec!["Z", "a", "ab", "b", "中"]);
}

#[test]
fn selection_records_one_state_per_key() {
    let mut s = Selection::new();
    assert!(!s.contains_key("k"));
    s.insert("k".to_string(), true);
    s.insert("j".to_string(), false);
    s.insert("k".to_string(), false);
    assert!(s.contains_key("k"));
    assert!(!s.is_selected("k"));
    assert_eq!(s.selected_count(), 0);
    s.insert("k".to_string(), true);
    s.insert("m".to_string(), true);
    assert_eq!(s.selected_count(), 2);
    s.remove("k");
    assert!(!s.contains_key("k"));
    assert_eq!(s.selected_count(), 1);
    s.retain_keys(&vec!["j".to_string()]);
    assert!(s.contains_key("j"));
    assert!(!s.contains_key("m"));
    s.clear();
    assert!(!s.contains_key("j"));
}
