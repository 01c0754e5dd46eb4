use find_dupl_file::grouping::{group_duplicates, sort_groups, GroupOrder};
use find_dupl_file::model::{DuplicateGroup, FileInfo, IndexedFile};

fn row(disk_id: &str, path: &str, size: u64, hash: Option<&str>) -> IndexedFile {
    IndexedFile {
        path: path.into(),
        size,
        sample_hash: hash.map(|h| h.to_string()),
        disk_id: disk_id.into(),
    }
}

fn listing(groups: &[DuplicateGroup]) -> Vec<Vec<(String, String)>> {
    groups
        .iter()
        .map(|g| g.files.iter().map(|f| (f.disk_id.clone(), f.path.clone())).collect())
        .collect()
}

fn pairs(values: &[(&str, &str)]) -> Vec<(String, String)> {
    values.iter().map(|(a, b)| (a.to_string(), b.to_string())).collect()
}

#[test]
fn duplicate_lookup_preserves_paths_containing_delimiters() {
    let rows = vec![
        row("disk-a", "/tmp/a|pipe/video.mp4", 42, Some("same")),
        row("disk-b", "/tmp/plain/video.mp4", 42, Some("same")),
    ];
    let groups = group_duplicates(&rows);
    assert_eq!(groups.len(), 1);
    assert_eq!(
        listing(&groups)[0],
        pairs(&[("disk-a", "/tmp/a|pipe/video.mp4"), ("disk-b", "/tmp/plain/video.mp4")])
    );
}

#[test]
fn disk_summaries_and_clear_are_scoped_by_disk_id() {
    let rows = vec![
        row("C", "/Volumes/C/unique.MP4", 200, Some("unique")),
        row("A", "/Volumes/A/123.MP4", 100, Some("same")),
        row("C", "/Volumes/C/233.MP4", 100, Some("same")),
    ];
    let groups = group_duplicates(&rows);
    assert_eq!(groups.len(), 1);
    assert_eq!(groups[0].size, 100);
    assert_eq!(
        listing(&groups)[0],
        pairs(&[("A", "/Volumes/A/123.MP4"), ("C", "/Volumes/C/233.MP4")])
    );

    let without_a: Vec<IndexedFile> =
        rows.iter().filter(|r| r.disk_id != "A").cloned().collect();
    assert!(group_duplicates(&without_a).is_empty());
}

#[test]
fn groups_split_by_hash_and_list_largest_first() {
    let rows = vec![
        row("A", "/a1", 10, Some("h1")),
        row("B", "/b1", 10, Some("h2")),
        row("A", "/a2", 10, Some("h1")),
        row("B", "/b2", 10, Some("h2")),
        row("A", "/big1", 500, Some("h3")),
        row("C", "/big2", 500, Some("h3")),
        row("C", "/single", 700, Some("h4")),
    ];
    let groups = group_duplicates(&rows);
    assert_eq!(
        listing(&groups),
        vec![
            pairs(&[("A", "/big1"), ("C", "/big2")]),
            pairs(&[("A", "/a1"), ("A", "/a2")]),
            pairs(&[("B", "/b1"), ("B", "/b2")]),
        ]
    );
    assert_eq!(groups[0].size, 500);
    assert_eq!(groups[1].files[0].sample_hash.as_deref(), Some("h1"));
}

#[test]
fn without_hashes_files_group_by_size_alone() {
    let rows = vec![
        row("A", "/x", 7, None),
        row("B", "/y", 7, None),
        row("C", "/z", 7, None),
        row("D", "/w", 8, None),
    ];
    let groups = group_duplicates(&rows);
    assert_eq!(groups.len(), 1);
    assert_eq!(groups[0].files.len(), 3);
    assert!(group_duplicates(&Vec::new()).is_empty());
}

#[test]
fn equal_sizes_are_ordered_by_first_disk_then_path() {
    let rows = vec![
        row("B", "/1", 5, Some("p")),
        row("B", "/2", 5, Some("p")),
        row("A", "/9", 5, Some("q")),
        row("A", "/8", 5, Some("q")),
        row("A", "/3", 5, Some("r")),
        row("A", "/4", 5, Some("r")),
    ];
    let groups = group_duplicates(&rows);
    let firsts: Vec<(String, String)> =
        groups.iter().map(|g| (g.files[0].disk_id.clone(), g.files[0].path.clone())).collect();
    assert_eq!(firsts, pairs(&[("A", "/3"), ("A", "/9"), ("B", "/1")]));
}

#[test]
fn sorting_by_size_keeps_ties_in_place() {
    let groups = vec![
        DuplicateGroup { size: 1, files: vec![row("Z", "/a", 1, None)] },
        DuplicateGroup { size: 3, files: vec![row("Y", "/b", 3, None)] },
        DuplicateGroup { size: 1, files: vec![row("A", "/c", 1, None)] },
    ];
    let sorted = sort_groups(&groups, GroupOrder::LargestFirst);
    let order: Vec<String> = sorted.iter().map(|g| g.files[0].path.clone()).collect();
    assert_eq!(order, vec!["/b", "/a", "/c"]);

    let sorted = sort_groups(&groups, GroupOrder::LargestThenFirstFile);
    let order: Vec<String> = sorted.iter().map(|g| g.files[0].path.clone()).collect();
    assert_eq!(order, vec!["/b", "/c", "/a"]);
}

#[test]
fn indexed_records_copy_scanned_files() {
    let info = FileInfo {
        path: "/Volumes/A/x.mp4".into(),
        size: 9,
        sample_hash: Some("abc".into()),
        disk_id: "A".into(),
    };
    let rec = IndexedFile::from_info(&info);
    assert_eq!(rec.path, info.path);
    assert_eq!(rec.size, 9);
    assert_eq!(rec.sample_hash.as_deref(), Some("abc"));
    assert_eq!(rec.disk_id, "A");
}
