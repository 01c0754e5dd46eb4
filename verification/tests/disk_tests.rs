use find_dupl_file::disk::{
    common_root, default_disk_id_for_path, disk_id_from_parts, infer_common_disk_root,
    infer_disk_root_from_path, is_legacy_placeholder_id, needs_files_table_migration,
    normal_parts, normal_path_components, repair_action, root_from_components, sanitize_disk_id,
    wants_rename, InferredDiskRoot, PathPart, RepairAction,
};

fn root(disk_id: &str, root_path: &str) -> InferredDiskRoot {
    InferredDiskRoot { disk_id: disk_id.into(), root_path: root_path.into() }
}

fn strings(values: &[&str]) -> Vec<String> {
    values.iter().map(|v| v.to_string()).collect()
}

#[test]
fn default_disk_id_uses_folder_name_without_spaces() {
    assert_eq!(default_disk_id_for_path("/Volumes/Backup Drive"), "BackupDrive");
    assert_eq!(sanitize_disk_id("  A Disk  "), "ADisk");
    assert_eq!(sanitize_disk_id("   "), "disk");
}

#[test]
fn sanitize_removes_every_kind_of_whitespace() {
    assert_eq!(sanitize_disk_id("a\tb\nc\u{3000}d"), "abcd");
    assert_eq!(sanitize_disk_id(""), "disk");
    assert_eq!(sanitize_disk_id("移动 硬盘"), "移动硬盘");
    let once = sanitize_disk_id(" x y ");
    assert_eq!(sanitize_disk_id(&once), once);
}

#[test]
fn default_disk_id_falls_back_to_last_component_then_disk() {
    assert_eq!(default_disk_id_for_path("/Volumes/Data/"), "Data");
    assert_eq!(default_disk_id_for_path("/"), "/");
    assert_eq!(default_disk_id_for_path(""), "disk");
    assert_eq!(default_disk_id_for_path("music/.."), "..");
    assert_eq!(disk_id_from_parts(Some("My Files"), Some("x")), "MyFiles");
    assert_eq!(disk_id_from_parts(None, Some("a b")), "ab");
    assert_eq!(disk_id_from_parts(None, None), "disk");
}

#[test]
fn normal_components_skip_root_and_parent_markers() {
    assert_eq!(normal_path_components("/a/./b/../c"), strings(&["a", "b", "c"]));
    assert_eq!(normal_path_components("./x/y"), strings(&["x", "y"]));
    assert!(normal_path_components("/").is_empty());
    let parts = vec![
        PathPart::RootDir,
        PathPart::Normal("Volumes".into()),
        PathPart::CurDir,
        PathPart::ParentDir,
        PathPart::Normal("A".into()),
    ];
    assert_eq!(normal_parts(&parts), strings(&["Volumes", "A"]));
}

#[test]
fn infers_roots_of_volumes_users_and_top_folders() {
    let r = infer_disk_root_from_path("/Users/mac/Downloads/course/video-01.mp4").unwrap();
    assert_eq!(r.disk_id, "Downloads");
    assert_eq!(r.root_path, "/Users/mac/Downloads");

    let r = infer_disk_root_from_path("/Volumes/Backup Drive/movies/a.mp4").unwrap();
    assert_eq!(r.disk_id, "BackupDrive");
    assert_eq!(r.root_path, "/Volumes/Backup Drive");

    let r = infer_disk_root_from_path("/data/file.mp4").unwrap();
    assert_eq!(r.disk_id, "data");
    assert_eq!(r.root_path, "/data");

    let r = infer_disk_root_from_path("/Users/mac").unwrap();
    assert_eq!(r.disk_id, "Users");
    assert_eq!(r.root_path, "/Users");

    assert!(infer_disk_root_from_path("/file.mp4").is_none());
    assert!(infer_disk_root_from_path("relative/dir/file.mp4").is_none());
    assert!(infer_disk_root_from_path("").is_none());
}

#[test]
fn roots_from_components_follow_the_path_shape() {
    let r = root_from_components(&strings(&["Volumes", "A", "x"]), false).unwrap();
    assert_eq!((r.disk_id.as_str(), r.root_path.as_str()), ("A", "/Volumes/A"));
    let r = root_from_components(&strings(&["Users", "u", "My Docs"]), true).unwrap();
    assert_eq!((r.disk_id.as_str(), r.root_path.as_str()), ("MyDocs", "/Users/u/My Docs"));
    assert!(root_from_components(&strings(&["Volumes"]), true).is_none());
    assert!(root_from_components(&strings(&["opt", "x"]), false).is_none());
    assert!(root_from_components(&Vec::new(), true).is_none());
}

#[test]
fn common_root_needs_agreement_of_all_recognized_paths() {
    let same = infer_common_disk_root(&strings(&[
        "/Users/mac/Downloads/course/video-01.mp4",
        "/Users/mac/Downloads/course/video-02.mp4",
    ]))
    .unwrap();
    assert_eq!(same.disk_id, "Downloads");
    assert_eq!(same.root_path, "/Users/mac/Downloads");

    assert!(infer_common_disk_root(&strings(&["/Volumes/A/x", "/Volumes/B/y"])).is_none());
    assert!(infer_common_disk_root(&Vec::new()).is_none());
    let skipped = infer_common_disk_root(&strings(&["relative", "/Volumes/A/x"])).unwrap();
    assert_eq!(skipped.disk_id, "A");

    let first_wins = common_root(&vec![
        None,
        Some(root("a", "/Volumes/A")),
        Some(root("other", "/Volumes/A")),
    ])
    .unwrap();
    assert_eq!(first_wins.disk_id, "a");
    assert!(common_root(&vec![Some(root("a", "/x")), Some(root("a", "/y"))]).is_none());
}

#[test]
fn legacy_placeholder_ids_are_main_and_disk() {
    assert!(is_legacy_placeholder_id("main"));
    assert!(is_legacy_placeholder_id("disk"));
    assert!(!is_legacy_placeholder_id("Main"));
    assert!(!is_legacy_placeholder_id("disks"));
}

#[test]
fn repairs_rename_placeholders_unless_the_target_exists() {
    let downloads = root("Downloads", "/Users/mac/Downloads");
    assert!(wants_rename("main", &downloads));
    assert_eq!(repair_action("main", &downloads, false), RepairAction::Rename);
    assert_eq!(repair_action("main", &downloads, true), RepairAction::UpdateRoot);
    assert_eq!(repair_action("A", &downloads, false), RepairAction::UpdateRoot);
    assert!(!wants_rename("disk", &root("disk", "/disk")));
    assert_eq!(repair_action("disk", &root("disk", "/disk"), false), RepairAction::UpdateRoot);
}

#[test]
fn repairs_legacy_main_disk_id_from_recorded_paths() {
    let paths = strings(&[
        "/Users/mac/Downloads/course/video-01.mp4",
        "/Users/mac/Downloads/course/video-02.mp4",
    ]);
    let inferred = infer_common_disk_root(&paths).unwrap();
    assert_eq!(repair_action("main", &inferred, false), RepairAction::Rename);
    assert_eq!(inferred.disk_id, "Downloads");
    assert_eq!(inferred.root_path, "/Users/mac/Downloads");
}

#[test]
fn old_files_table_layout_is_recognized() {
    assert!(needs_files_table_migration(
        "CREATE TABLE files (path TEXT PRIMARY KEY, size INTEGER NOT NULL)"
    ));
    assert!(!needs_files_table_migration(
        "CREATE TABLE files (path TEXT NOT NULL, size INTEGER NOT NULL, PRIMARY KEY (disk_id, path))"
    ));
}

/// The `/`-separated segments of a path that are neither empty, `.` nor `..`.
fn slash_parts(path: &str) -> Vec<String> {
    path.split('/')
        .filter(|s| !s.is_empty() && *s != "." && *s != "..")
        .map(|s| s.to_string())
        .collect()
}

const PLAIN_PATHS: [&str; 18] = [
    "/Volumes/Backup Drive",
    "/Volumes/Backup Drive/",
    "/a/./b/../c",
    "./x/y",
    "x/./../y/.",
    "/",
    "",
    ".",
    "..",
    "a//b///c",
    "/Users/mac/Downloads/course/video-01.mp4",
    "relative/dir",
    "/a b/c d/",
    "a/..",
    "/.",
    "移动 硬盘/视频",
    "/Volumes/Backup: 2020/x.mp4",
    "1:/a:b/c",
];

#[test]
fn components_of_plain_paths_are_their_named_segments() {
    for path in PLAIN_PATHS {
        assert_eq!(normal_path_components(path), slash_parts(path), "path {:?}", path);
    }
}

#[test]
fn default_ids_of_plain_paths_come_from_the_last_named_segment() {
    for path in PLAIN_PATHS {
        let named: Vec<&str> = path.split('/').filter(|s| !s.is_empty() && *s != ".").collect();
        if let Some(last) = named.last() {
            assert_eq!(default_disk_id_for_path(path), sanitize_disk_id(last), "path {:?}", path);
        }
    }
    assert_eq!(default_disk_id_for_path(""), "disk");
}

#[test]
fn plain_roots_come_from_named_segments() {
    for path in PLAIN_PATHS {
        let parts = slash_parts(path);
        let absolute = path.starts_with('/');
        let expected = root_from_components(&parts, absolute);
        let got = infer_disk_root_from_path(path);
        assert_eq!(
            got.map(|r| (r.disk_id, r.root_path)),
            expected.map(|r| (r.disk_id, r.root_path)),
            "path {:?}",
            path
        );
    }
}

#[test]
fn whitespace_is_what_std_calls_whitespace() {
    for u in 0..=0x10FFFFu32 {
        if let Some(c) = char::from_u32(u) {
            let text = format!("a{}b", c);
            let expected = if c.is_whitespace() { "ab".to_string() } else { text.clone() };
            assert_eq!(sanitize_disk_id(&text), expected, "char {:#x}", u);
        }
    }
}
