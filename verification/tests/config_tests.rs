use find_dupl_file::config::{add_tag, AppConfig, UiLanguage};

#[test]
fn rejects_too_small_or_ignored_files() {
    let mut config = AppConfig {
        min_file_size: 1024,
        file_extensions: vec!["mp4".into(), "jpg".into()],
        ignore_extensions: vec!["tmp".into()],
        ..AppConfig::default()
    };

    assert!(!config.should_process_file("clip.mp4", 512));
    assert!(!config.should_process_file("cache.tmp", 4096));
    assert!(!config.should_process_file("notes.txt", 4096));

    config.file_extensions.clear();
    assert!(config.should_process_file("archive.bin", 4096));
}

#[test]
fn skips_exact_directory_names_only() {
    let config = AppConfig::default();

    assert!(config.should_skip_dir(".git"));
    assert!(config.should_skip_dir("node_modules"));
    assert!(!config.should_skip_dir("node_modules_backup"));
}

#[test]
fn extensions_are_compared_in_lower_case() {
    let config = AppConfig { min_file_size: 0, ..AppConfig::default() };
    assert!(config.should_process_file("/Volumes/A/CLIP.MP4", 10));
    assert!(config.accepts_extension(Some("JPG"), 10));
    assert!(!config.accepts_extension(Some("txt"), 10));
    assert!(!config.accepts_extension(None, 10));
    assert!(!config.should_process_file("README", 10));
}

#[test]
fn files_without_an_extension_need_an_empty_extension_list() {
    let mut config = AppConfig::default();
    let size = 200 * 1024 * 1024;
    assert!(!config.should_process_file("/data/movie", size));
    assert!(!config.should_process_file("/data/.hidden", size));
    assert!(config.should_process_file("/data/movie.MKV", size));
    config.file_extensions.clear();
    assert!(config.should_process_file("/data/movie", size));
    assert!(config.accepts_extension(None, size));
}

/// The extension of a path whose only separator is `/`, taken independently.
fn extension_of(path: &str) -> Option<String> {
    let named: Vec<&str> = path.split('/').filter(|s| !s.is_empty() && *s != ".").collect();
    let name = match named.last() {
        Some(n) if *n != ".." => *n,
        _ => return None,
    };
    match name.rfind('.') {
        Some(0) | None => None,
        Some(i) => Some(name[i + 1..].to_string()),
    }
}

#[test]
fn the_extension_is_taken_from_the_last_segment() {
    let mut config = AppConfig { min_file_size: 0, ..AppConfig::default() };
    config.file_extensions = vec!["mp4".into(), "".into(), "gz".into()];
    config.ignore_extensions = vec!["tmp".into()];
    let paths = [
        "/a/b.mp4", "/a/b.MP4", "a.mp4/", "a.mp4/.", "a.mp4/..", "/x/.mp4", "/x/y.", "/x/y..",
        "/x/..mp4", "/x.mp4/y", "/x/y.tar.gz", "clip.tmp", "dir.d/file", "./c.mp4", "//", "", ".",
        "..", "/", "a//b.mp4//", "/v/a b.mp4", "/Volumes/Backup: 2020/x.mp4", "x:y.gz",
    ];
    for path in paths {
        let std_ext = std::path::Path::new(path)
            .extension()
            .map(|e| e.to_string_lossy().into_owned());
        assert_eq!(std_ext, extension_of(path), "path {:?}", path);
        let expected = match extension_of(path) {
            None => false,
            Some(e) => {
                let lower = e.to_lowercase();
                !config.ignore_extensions.contains(&lower) && config.file_extensions.contains(&lower)
            }
        };
        assert_eq!(config.should_process_file(path, 1), expected, "path {:?}", path);
    }
}

#[test]
fn added_tags_stay_non_empty_and_distinct() {
    let mut values: Vec<String> = Vec::new();
    for input in ["mp4", " .MP4", "", " . ", "Mov", "mov", "..jpg"] {
        add_tag(&mut values, input);
    }
    assert_eq!(values, vec!["mp4", "mov", "jpg"]);
}

#[test]
fn default_config_matches_documented_values() {
    let config = AppConfig::default();
    assert_eq!(config.min_file_size, 100 * 1024 * 1024);
    assert_eq!(config.file_extensions.len(), 17);
    assert!(config.ignore_extensions.is_empty());
    assert_eq!(config.ignore_dirs, vec![".git", ".svn", "node_modules", "target"]);
    assert!(!config.use_hash);
    assert_eq!(config.sample_size, 4 * 1024 * 1024);
    assert_eq!(config.ui_language, UiLanguage::Zh);
    assert_eq!(UiLanguage::default(), UiLanguage::Zh);
}

#[test]
fn language_toggles_back_and_forth() {
    assert_eq!(UiLanguage::Zh.toggled(), UiLanguage::En);
    assert_eq!(UiLanguage::En.toggled(), UiLanguage::Zh);
    assert_eq!(UiLanguage::Zh.toggled().toggled(), UiLanguage::Zh);
}

#[test]
fn tags_are_normalized_and_not_repeated() {
    let mut values: Vec<String> = vec!["mp4".into()];
    assert!(add_tag(&mut values, "  .MOV "));
    assert_eq!(values, vec!["mp4", "mov"]);
    assert!(!add_tag(&mut values, "MP4"));
    assert!(!add_tag(&mut values, " ... "));
    assert!(!add_tag(&mut values, "   "));
    assert_eq!(values.len(), 2);
}
