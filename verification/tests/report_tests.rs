use find_dupl_file::model::{DuplicateGroup, IndexedFile};
use find_dupl_file::report::{build_report, format_bytes};

fn file(disk_id: &str, path: &str, size: u64) -> IndexedFile {
    IndexedFile {
        path: path.into(),
        size,
        sample_hash: None,
        disk_id: disk_id.into(),
    }
}

/// The float computation that sizes are shown with: divide by 1024 while at least
/// 1024, then two decimals.
fn float_format(bytes: u64) -> String {
    let units = ["B", "KB", "MB", "GB", "TB"];
    let mut size = bytes as f64;
    let mut unit = 0;
    while size >= 1024.0 && unit < units.len() - 1 {
        size /= 1024.0;
        unit += 1;
    }
    if unit == 0 {
        format!("{} {}", bytes, units[unit])
    } else {
        format!("{:.2} {}", size, units[unit])
    }
}

#[test]
fn formats_bytes_with_human_units() {
    assert_eq!(format_bytes(512), "512 B");
    assert_eq!(format_bytes(1024 * 1024), "1.00 MB");
}

#[test]
fn format_bytes_matches_float_rendering() {
    let mut values: Vec<u64> = vec![
        0, 1, 1023, 1024, 1025, 1152, 1536, 2048, 4106, 10_000, 1_048_575, 1_048_576,
        1_073_741_824, 1_099_511_627_776, 1_125_899_906_842_624, u64::MAX, u64::MAX - 1,
        (1u64 << 53) + 1, (1u64 << 53) + 3, (1u64 << 60) + 12345, 9_007_199_254_740_993,
    ];
    let mut x: u64 = 0x9E37_79B9_7F4A_7C15;
    for _ in 0..20000 {
        x ^= x << 13;
        x ^= x >> 7;
        x ^= x << 17;
        let shift = x % 64;
        values.push(x >> shift);
    }
    for k in 1..4000u64 {
        values.push(k * 1024 / 100 + 5);
        values.push(k * 1024 * 1024 / 200);
    }
    for v in values {
        assert_eq!(format_bytes(v), float_format(v), "value {}", v);
    }
}

#[test]
fn format_bytes_rounds_ties_to_even() {
    assert_eq!(format_bytes(1152), "1.12 KB");
    assert_eq!(format_bytes(1536), "1.50 KB");
    assert_eq!(format_bytes(u64::MAX), "16777216.00 TB");
}

#[test]
fn report_sorts_groups_and_summarizes_savings() {
    let groups = vec![
        DuplicateGroup {
            size: 10,
            files: vec![file("A", "/tmp/a", 10), file("B", "/tmp/b", 10)],
        },
        DuplicateGroup {
            size: 2048,
            files: vec![
                file("A", "/tmp/c", 2048),
                file("C", "/tmp/d", 2048),
                file("D", "/tmp/e", 2048),
            ],
        },
    ];

    let report = build_report(&groups);

    assert!(report.contains("重复组 #1\n文件大小: 2048 (2.00 KB)"));
    assert!(report.contains("  - [C] /tmp/d"));
    assert!(report.contains("重复文件组: 2 组"));
    assert!(report.contains("可删除文件数: 3 个"));
    assert!(report.contains("可节省空间: 4106 (4.01 KB)"));
}

#[test]
fn report_skips_single_files_but_keeps_numbering() {
    let groups = vec![
        DuplicateGroup { size: 500, files: vec![file("A", "/x", 500)] },
        DuplicateGroup { size: 100, files: vec![file("A", "/y", 100), file("B", "/z", 100)] },
    ];
    let report = build_report(&groups);
    assert_eq!(
        report,
        "=== 重复文件报告 ===\n\n重复组 #2\n文件大小: 100 (100 B)\n文件数量: 2\n可节省空间: 100 (100 B)\n文件路径:\n  - [A] /y\n  - [B] /z\n\n---\n\n总结:\n重复文件组: 1 组\n可删除文件数: 1 个\n可节省空间: 100 (100 B)\n"
    );
}

#[test]
fn report_of_nothing_has_zero_totals() {
    let report = build_report(&Vec::new());
    assert_eq!(
        report,
        "=== 重复文件报告 ===\n\n总结:\n重复文件组: 0 组\n可删除文件数: 0 个\n可节省空间: 0 (0 B)\n"
    );
}
