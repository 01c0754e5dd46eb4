use find_dupl_file::model::{DeleteMode, DuplicateGroup, IndexedFile};

#[test]
fn delete_modes_are_stored_as_words() {
    assert_eq!(DeleteMode::MoveToTrash.as_str(), "trash");
    assert_eq!(DeleteMode::DirectRemove.as_str(), "direct");
    assert_eq!(DeleteMode::from_str("direct"), DeleteMode::DirectRemove);
    assert_eq!(DeleteMode::from_str("trash"), DeleteMode::MoveToTrash);
    assert_eq!(DeleteMode::from_str("anything"), DeleteMode::MoveToTrash);
    assert_eq!(DeleteMode::from_stored(None), DeleteMode::MoveToTrash);
    assert_eq!(DeleteMode::from_stored(Some("direct")), DeleteMode::DirectRemove);
}

#[test]
fn delete_mode_round_trips_through_its_word() {
    for mode in [DeleteMode::MoveToTrash, DeleteMode::DirectRemove] {
        assert_eq!(DeleteMode::from_str(mode.as_str()), mode);
    }
}

#[test]
fn copies_keep_every_field() {
    let g = DuplicateGroup {
        size: 4,
        files: vec![IndexedFile {
            path: "/p".into(),
            size: 4,
            sample_hash: Some("h".into()),
            disk_id: "D".into(),
        }],
    };
    let c = g.copy();
    assert_eq!(c.size, 4);
    assert_eq!(c.files[0].path, "/p");
    assert_eq!(c.files[0].sample_hash.as_deref(), Some("h"));
    assert_eq!(c.files[0].disk_id, "D");
}
