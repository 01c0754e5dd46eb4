use find_dupl_file::config::UiLanguage;
use find_dupl_file::messages::{
    delete_confirm_text, delete_failure_message, deletion_outcome, duplicate_group_found_message,
    duplicates_notice, failure_notice, format_count, scan_complete_message,
    scan_complete_message_for_language, scan_finished_notice, scan_request_error, shorten_path,
    tr, tr_format, ScanStatus, ScanSummary, Stage,
};
use find_dupl_file::model::DeleteMode;
use std::time::Duration;

#[test]
fn missing_file_delete_message_asks_for_rescan() {
    assert_eq!(
        delete_failure_message("/Volumes/Offline/example.mp4", true, "missing", UiLanguage::Zh),
        "文件不存在，请重新扫描：/Volumes/Offline/example.mp4"
    );
}

#[test]
fn missing_file_delete_does_not_set_global_error_status() {
    let path = "/tmp/find-dupl-file-missing-delete-test.mp4";
    let errors = vec![delete_failure_message(path, true, "missing", UiLanguage::Zh)];
    let missing = vec![path.to_string()];

    let outcome = deletion_outcome(DeleteMode::MoveToTrash, UiLanguage::Zh, 0, &errors, &missing);

    assert!(outcome.status_error.is_none());
    assert!(outcome.alert.as_deref().unwrap_or_default().contains("文件不存在，请重新扫描。"));
    assert_eq!(outcome.notice, "已删除 0 个文件，1 个操作失败。");
}

#[test]
fn other_delete_failures_name_the_error() {
    assert_eq!(
        delete_failure_message("/a.mp4", false, "Permission denied", UiLanguage::En),
        "Failed to delete file: /a.mp4 (Permission denied)"
    );
    assert_eq!(
        delete_failure_message("/a.mp4", false, "busy", UiLanguage::Zh),
        "文件删除失败：/a.mp4 (busy)"
    );
    assert_eq!(
        delete_failure_message("/a.mp4", true, "gone", UiLanguage::En),
        "File does not exist, please rescan: /a.mp4"
    );
}

#[test]
fn deletion_outcome_reports_counts_errors_and_missing_files() {
    let none: Vec<String> = Vec::new();
    let done = deletion_outcome(DeleteMode::MoveToTrash, UiLanguage::En, 3, &none, &none);
    assert_eq!(done.notice, "Moved 3 files to Trash.");
    assert!(done.status_error.is_none());
    assert!(done.alert.is_none());

    let done = deletion_outcome(DeleteMode::DirectRemove, UiLanguage::Zh, 2, &none, &none);
    assert_eq!(done.notice, "已删除 2 个文件。");

    let errors = vec![
        "File does not exist, please rescan: /x".to_string(),
        "Failed to delete file: /y (denied)".to_string(),
    ];
    let missing = vec!["/x".to_string(), "/m1".to_string(), "/m2".to_string(), "/m3".to_string()];
    let mixed = deletion_outcome(DeleteMode::MoveToTrash, UiLanguage::En, 1, &errors, &missing);
    assert_eq!(mixed.notice, "Processed 1 files, 2 operations failed.");
    assert_eq!(mixed.status_error.as_deref(), Some("Failed to delete file: /y (denied)"));
    assert_eq!(
        mixed.alert.as_deref(),
        Some("File does not exist. Please rescan.\n\n/x\n/m1\n/m2")
    );

    let only_error = vec!["Failed to delete file: /y (denied)".to_string()];
    let failed = deletion_outcome(DeleteMode::MoveToTrash, UiLanguage::En, 0, &only_error, &none);
    assert_eq!(failed.alert.as_deref(), Some("Failed to delete file: /y (denied)"));
    let partly = deletion_outcome(DeleteMode::MoveToTrash, UiLanguage::En, 1, &only_error, &none);
    assert!(partly.alert.is_none());
}

fn summary(count: usize, elapsed: Duration) -> ScanSummary {
    ScanSummary { count, elapsed_secs: elapsed.as_secs(), elapsed_nanos: elapsed.subsec_nanos() }
}

#[test]
fn scan_complete_message_includes_count_and_elapsed_time() {
    let summary = summary(389, Duration::from_millis(1_250));

    assert_eq!(scan_complete_message(&summary), "扫描完成，记录了 389 个文件，耗时 1.2s。");
}

#[test]
fn language_toggle_switches_between_chinese_and_english() {
    let language = UiLanguage::Zh.toggled();
    assert_eq!(language, UiLanguage::En);
    assert_eq!(
        scan_complete_message_for_language(&summary(2, Duration::from_millis(10)), language),
        "Scan complete, indexed 2 files in 10ms."
    );
    assert_eq!(tr(language, "中", "en"), "en");
    assert_eq!(tr(UiLanguage::Zh, "中", "en"), "中");
    assert_eq!(tr_format(language, "中".to_string(), "en".to_string()), "en");
}

#[test]
fn counts_and_found_messages_follow_the_language() {
    assert_eq!(format_count(3, UiLanguage::Zh, "个文件", "files"), "3 个文件");
    assert_eq!(format_count(0, UiLanguage::En, "个文件", "files"), "0 files");
    assert_eq!(duplicate_group_found_message(1, UiLanguage::Zh), "找到 1 组重复文件。");
    assert_eq!(duplicate_group_found_message(12, UiLanguage::En), "Found 12 duplicate groups.");
}

#[test]
fn scan_requests_need_a_folder_and_a_disk_id() {
    assert_eq!(
        scan_request_error("  ", "A", UiLanguage::Zh).as_deref(),
        Some("请输入扫描目录和硬盘标识")
    );
    assert_eq!(
        scan_request_error("/Volumes/A", "\t", UiLanguage::En).as_deref(),
        Some("Enter a scan folder and disk ID")
    );
    assert!(scan_request_error("/Volumes/A", "A", UiLanguage::En).is_none());
}

#[test]
fn delete_confirmation_depends_on_mode() {
    assert_eq!(
        delete_confirm_text(DeleteMode::MoveToTrash, UiLanguage::En),
        "Files will be moved to Trash and can be restored before Trash is emptied."
    );
    assert_eq!(
        delete_confirm_text(DeleteMode::DirectRemove, UiLanguage::Zh),
        "删除不可撤销，请确认这些副本不再需要。"
    );
}

#[test]
fn notices_after_scans_and_failures() {
    assert_eq!(
        scan_finished_notice("Done.", UiLanguage::En),
        "Done. You can find duplicates now."
    );
    assert_eq!(failure_notice(Stage::Scan, "boom", UiLanguage::En), "Scan failed: boom");
    assert_eq!(failure_notice(Stage::Analysis, "坏", UiLanguage::Zh), "分析失败：坏");
    assert_eq!(duplicates_notice(0, 0, 0, UiLanguage::En), "No duplicate files found.");
    assert_eq!(
        duplicates_notice(2, 3, 4106, UiLanguage::Zh),
        "发现 3 个可删除副本，预计可释放 4.01 KB。"
    );
}

#[test]
fn busy_states_are_scanning_and_analyzing() {
    assert!(ScanStatus::Scanning("x".into()).is_busy());
    assert!(ScanStatus::Analyzing.is_busy());
    assert!(!ScanStatus::Ready.is_busy());
    assert!(!ScanStatus::Complete("ok".into()).is_busy());
    assert!(!ScanStatus::Error("bad".into()).is_busy());
}

#[test]
fn long_paths_keep_their_end() {
    assert_eq!(shorten_path("/short", 10), "/short");
    assert_eq!(shorten_path("/Volumes/A/movies/clip.mp4", 12), ".../clip.mp4");
    assert_eq!(shorten_path("/资料/中转/视频.mp4", 8), "...频.mp4");
    assert_eq!(shorten_path("abcdef", 2), "...");
    assert_eq!(shorten_path("abc", 3), "abc");
}

#[test]
fn switching_language_is_announced_in_the_new_language() {
    assert_eq!(find_dupl_file::messages::language_switched_notice(UiLanguage::En), "Switched to English.");
    assert_eq!(find_dupl_file::messages::language_switched_notice(UiLanguage::Zh), "已切换为中文界面。");
}
