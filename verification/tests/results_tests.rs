use find_dupl_file::keys::{file_key, group_key};
use find_dupl_file::model::{DuplicateGroup, IndexedFile};
use find_dupl_file::results::DuplicateResults;

fn file(disk_id: &str, path: &str, size: u64) -> IndexedFile {
    IndexedFile { path: path.into(), size, sample_hash: None, disk_id: disk_id.into() }
}

fn results_with(groups: Vec<DuplicateGroup>) -> DuplicateResults {
    let mut results = DuplicateResults::new();
    results.set_groups(groups);
    results
}

#[test]
fn ignoring_duplicate_group_removes_it_from_current_selection_only() {
    let file_a = file("A", "/tmp/a.mp4", 100);
    let file_b = file("B", "/tmp/b.mp4", 100);
    let file_c = file("C", "/tmp/c.mp4", 200);
    let file_d = file("D", "/tmp/d.mp4", 200);
    let ignored_key = group_key(&DuplicateGroup {
        size: 100,
        files: vec![file_a.clone(), file_b.clone()],
    });

    let mut app = results_with(vec![
        DuplicateGroup { size: 100, files: vec![file_a, file_b.clone()] },
        DuplicateGroup { size: 200, files: vec![file_c, file_d.clone()] },
    ]);
    app.select_all_duplicates();

    app.ignore_duplicate_group(&ignored_key);

    assert_eq!(app.groups().len(), 1);
    assert!(!app.contains_key(&file_key(&file_b)));
    assert!(app.contains_key(&file_key(&file_d)));
    assert_eq!(app.total_duplicates(), 1);
    assert_eq!(app.potential_savings(), 200);
}

#[test]
fn duplicate_size_filter_limits_selection_and_statistics() {
    let mb = 1024 * 1024;
    let small_duplicate = file("A", "/tmp/small-copy.mp4", 100 * mb);
    let large_duplicate = file("B", "/tmp/large-copy.mp4", 200 * mb);
    let mut app = results_with(vec![
        DuplicateGroup {
            size: 100 * mb,
            files: vec![file("A", "/tmp/small-original.mp4", 100 * mb), small_duplicate.clone()],
        },
        DuplicateGroup {
            size: 200 * mb,
            files: vec![file("B", "/tmp/large-original.mp4", 200 * mb), large_duplicate.clone()],
        },
    ]);
    let filter_mb: f64 = 150.0;
    app.set_min_size((filter_mb.max(0.0) * 1024.0 * 1024.0) as u64);

    app.apply_duplicate_size_filter();
    app.select_all_duplicates();

    assert_eq!(app.visible_duplicate_groups().len(), 1);
    assert!(!app.contains_key(&file_key(&small_duplicate)));
    assert!(app.contains_key(&file_key(&large_duplicate)));
    assert_eq!(app.selected_indexed_files().len(), 1);
    assert_eq!(app.total_duplicates(), 1);
    assert_eq!(app.potential_savings(), 200 * mb);
}

#[test]
fn statistics_count_every_visible_file_and_copy() {
    let app = results_with(vec![
        DuplicateGroup {
            size: 10,
            files: vec![file("A", "/1", 10), file("B", "/2", 10), file("C", "/3", 10)],
        },
        DuplicateGroup { size: 4, files: vec![file("A", "/4", 4), file("B", "/5", 4)] },
    ]);
    assert_eq!(app.total_candidates(), 5);
    assert_eq!(app.total_duplicates(), 3);
    assert_eq!(app.potential_savings(), 24);
    assert_eq!(app.min_size(), 0);
    assert!(app.group_passes_duplicate_size_filter(&app.groups()[1]));
}

#[test]
fn raising_the_filter_drops_ticks_of_hidden_groups() {
    let mut app = results_with(vec![
        DuplicateGroup { size: 10, files: vec![file("A", "/1", 10), file("B", "/2", 10)] },
        DuplicateGroup { size: 4, files: vec![file("A", "/4", 4), file("B", "/5", 4)] },
    ]);
    app.select_all_duplicates();
    assert_eq!(app.selected_count(), 2);
    assert_eq!(app.selected_size(), 14);

    app.set_min_size(5);
    assert_eq!(app.selected_count(), 1);
    assert!(app.is_selected("B\u{1f}/2"));
    assert!(!app.contains_key("B\u{1f}/5"));
    assert_eq!(app.total_candidates(), 2);
    assert_eq!(app.potential_savings(), 10);
    assert_eq!(app.groups().len(), 2);

    app.set_min_size(0);
    assert_eq!(app.total_candidates(), 4);
    assert_eq!(app.selected_count(), 1);
}

#[test]
fn ticks_can_be_set_cleared_and_read_back() {
    let mut app = results_with(vec![DuplicateGroup {
        size: 3,
        files: vec![file("A", "/1", 3), file("B", "/2", 3), file("C", "/3", 3)],
    }]);
    app.set_selected("C\u{1f}/3".to_string(), true);
    app.set_selected("B\u{1f}/2".to_string(), false);
    assert!(app.is_selected("C\u{1f}/3"));
    assert!(!app.is_selected("B\u{1f}/2"));
    assert!(app.contains_key("B\u{1f}/2"));
    assert_eq!(app.selected_count(), 1);
    let chosen = app.selected_indexed_files();
    assert_eq!(chosen.len(), 1);
    assert_eq!(chosen[0].path, "/3");

    app.clear_selection();
    assert_eq!(app.selected_count(), 0);
    assert!(!app.contains_key("C\u{1f}/3"));
    assert!(app.selected_indexed_files().is_empty());
}

#[test]
fn the_first_file_of_a_group_is_never_selected_for_deletion() {
    let mut app = results_with(vec![DuplicateGroup {
        size: 3,
        files: vec![file("A", "/keep", 3), file("B", "/copy", 3)],
    }]);
    app.set_selected("A\u{1f}/keep".to_string(), true);
    assert!(app.selected_indexed_files().is_empty());
    app.select_all_duplicates();
    let chosen = app.selected_indexed_files();
    assert_eq!(chosen.len(), 1);
    assert_eq!(chosen[0].path, "/copy");
}

#[test]
fn removing_deleted_files_prunes_groups_and_ticks() {
    let mut app = results_with(vec![
        DuplicateGroup {
            size: 5,
            files: vec![file("A", "/1", 5), file("B", "/2", 5), file("C", "/3", 5)],
        },
        DuplicateGroup { size: 9, files: vec![file("A", "/4", 9), file("B", "/5", 9)] },
    ]);
    app.select_all_duplicates();
    app.remove_files(&vec![file("B", "/2", 5), file("B", "/5", 9)]);

    assert_eq!(app.groups().len(), 1);
    assert_eq!(app.groups()[0].files.len(), 2);
    assert_eq!(app.groups()[0].files[1].path, "/3");
    assert!(!app.contains_key("B\u{1f}/2"));
    assert!(!app.contains_key("B\u{1f}/5"));
    assert!(app.is_selected("C\u{1f}/3"));
    assert_eq!(app.total_duplicates(), 1);
    assert_eq!(app.potential_savings(), 5);
}

#[test]
fn a_removed_file_must_match_disk_and_path() {
    let mut app = results_with(vec![DuplicateGroup {
        size: 5,
        files: vec![file("A", "/1", 5), file("B", "/1", 5)],
    }]);
    app.remove_files(&vec![file("C", "/1", 5)]);
    assert_eq!(app.groups().len(), 1);
    assert_eq!(app.groups()[0].files.len(), 2);
}

#[test]
fn clearing_a_disk_drops_its_files_and_every_tick() {
    let mut app = results_with(vec![
        DuplicateGroup {
            size: 5,
            files: vec![file("A", "/1", 5), file("B", "/2", 5), file("C", "/3", 5)],
        },
        DuplicateGroup { size: 9, files: vec![file("A", "/4", 9), file("B", "/5", 9)] },
    ]);
    app.select_all_duplicates();
    app.remove_disk("A");
    assert_eq!(app.groups().len(), 1);
    assert_eq!(app.groups()[0].files[0].disk_id, "B");
    assert_eq!(app.selected_count(), 0);
    assert_eq!(app.total_candidates(), 2);
    assert_eq!(app.potential_savings(), 5);
}

#[test]
fn ignoring_an_unknown_group_changes_nothing() {
    let mut app = results_with(vec![DuplicateGroup {
        size: 5,
        files: vec![file("A", "/1", 5), file("B", "/2", 5)],
    }]);
    app.select_all_duplicates();
    app.ignore_duplicate_group("no such group");
    assert_eq!(app.groups().len(), 1);
    assert_eq!(app.selected_count(), 1);
    app.calculate_statistics();
    assert_eq!(app.total_duplicates(), 1);
}

#[test]
fn selecting_all_chooses_every_copy_in_order() {
    let mut app = results_with(vec![
        DuplicateGroup {
            size: 5,
            files: vec![file("A", "/1", 5), file("B", "/2", 5), file("C", "/3", 5)],
        },
        DuplicateGroup { size: 9, files: vec![file("A", "/4", 9), file("B", "/5", 9)] },
    ]);
    app.select_all_duplicates();
    let chosen: Vec<String> = app.selected_indexed_files().iter().map(|f| f.path.clone()).collect();
    assert_eq!(chosen, vec!["/2", "/3", "/5"]);
    assert_eq!(app.selected_size(), 19);
}
