//! The texts that the application shows, in Chinese and English, and the status
//! of the current scan or analysis.
use vstd::prelude::*;
use crate::config::UiLanguage;
use crate::elapsed::{duration_text, format_duration};
use crate::model::DeleteMode;
use crate::report::{format_bytes, format_bytes_spec};
use crate::text::{chars_of, decimal, push_char, push_decimal, push_str, starts_with, str_starts_with, trim, trim_seq};

verus! {

broadcast use vstd::string::group_string_axioms;

/// What the application is doing, with the message it shows.
pub enum ScanStatus {
    Ready,
    Scanning(String),
    Analyzing,
    Complete(String),
    Error(String),
}

impl ScanStatus {
    /// Whether a scan or an analysis is running.
    pub fn is_busy(&self) -> (r: bool)
        ensures
            r == (self is Scanning || self is Analyzing),
    {
        match self {
            ScanStatus::Scanning(_) => true,
            ScanStatus::Analyzing => true,
            _ => false,
        }
    }
}

/// The text in the chosen language.
pub open spec fn pick(language: UiLanguage, zh: Seq<char>, en: Seq<char>) -> Seq<char> {
    match language {
        UiLanguage::Zh => zh,
        UiLanguage::En => en,
    }
}

/// The fixed text in the chosen language.
pub fn tr(language: UiLanguage, zh: &'static str, en: &'static str) -> (r: &'static str)
    ensures
        r@ == pick(language, zh@, en@),
{
    match language {
        UiLanguage::Zh => zh,
        UiLanguage::En => en,
    }
}

/// The composed text in the chosen language.
pub fn tr_format(language: UiLanguage, zh: String, en: String) -> (r: String)
    ensures
        r@ == pick(language, zh@, en@),
{
    match language {
        UiLanguage::Zh => zh,
        UiLanguage::En => en,
    }
}

/// A count followed by its unit in the chosen language, such as `3 个文件`.
pub fn format_count(count: usize, language: UiLanguage, zh_unit: &str, en_unit: &str) -> (r: String)
    ensures
        r@ == decimal(count as nat) + " "@ + pick(language, zh_unit@, en_unit@),
{
    let mut r = String::new();
    push_decimal(&mut r, count as u128);
    push_str(&mut r, " ");
    match language {
        UiLanguage::Zh => push_str(&mut r, zh_unit),
        UiLanguage::En => push_str(&mut r, en_unit),
    }
    r
}

/// The message after duplicates were found.
pub open spec fn groups_found_text(count: nat, language: UiLanguage) -> Seq<char> {
    pick(
        language,
        "找到 "@ + decimal(count) + " 组重复文件。"@,
        "Found "@ + decimal(count) + " duplicate groups."@,
    )
}

/// The message after duplicates were found: how many groups.
pub fn duplicate_group_found_message(count: usize, language: UiLanguage) -> (r: String)
    ensures
        r@ == groups_found_text(count as nat, language),
{
    let mut r = String::new();
    match language {
        UiLanguage::Zh => {
            push_str(&mut r, "找到 ");
            push_decimal(&mut r, count as u128);
            push_str(&mut r, " 组重复文件。");
        },
        UiLanguage::En => {
            push_str(&mut r, "Found ");
            push_decimal(&mut r, count as u128);
            push_str(&mut r, " duplicate groups.");
        },
    }
    r
}

/// The message after a scan: how many files were indexed and how long it took.
pub open spec fn scan_complete_text(count: nat, elapsed: Seq<char>, language: UiLanguage) -> Seq<char> {
    pick(
        language,
        "扫描完成，记录了 "@ + decimal(count) + " 个文件，耗时 "@ + elapsed + "。"@,
        "Scan complete, indexed "@ + decimal(count) + " files in "@ + elapsed + "."@,
    )
}

/// What a finished scan reports: how many files were indexed and how long the scan
/// took, in whole seconds and the nanoseconds beyond them.
pub struct ScanSummary {
    pub count: usize,
    pub elapsed_secs: u64,
    pub elapsed_nanos: u32,
}

/// The message after a scan: the file count and the elapsed time as
/// `format_duration` renders it.
pub fn scan_complete_message_for_language(summary: &ScanSummary, language: UiLanguage) -> (r: String)
    requires
        summary.elapsed_nanos < 1_000_000_000,
    ensures
        r@ == scan_complete_text(
            summary.count as nat,
            duration_text(summary.elapsed_secs, summary.elapsed_nanos),
            language,
        ),
{
    let elapsed = format_duration(summary.elapsed_secs, summary.elapsed_nanos);
    let mut r = String::new();
    match language {
        UiLanguage::Zh => {
            push_str(&mut r, "扫描完成，记录了 ");
            push_decimal(&mut r, summary.count as u128);
            push_str(&mut r, " 个文件，耗时 ");
            push_str(&mut r, elapsed.as_str());
            push_str(&mut r, "。");
        },
        UiLanguage::En => {
            push_str(&mut r, "Scan complete, indexed ");
            push_decimal(&mut r, summary.count as u128);
            push_str(&mut r, " files in ");
            push_str(&mut r, elapsed.as_str());
            push_str(&mut r, ".");
        },
    }
    r
}

/// The message after a scan, in Chinese.
pub fn scan_complete_message(summary: &ScanSummary) -> (r: String)
    requires
        summary.elapsed_nanos < 1_000_000_000,
    ensures
        r@ == scan_complete_text(
            summary.count as nat,
            duration_text(summary.elapsed_secs, summary.elapsed_nanos),
            UiLanguage::Zh,
        ),
{
    scan_complete_message_for_language(summary, UiLanguage::Zh)
}

/// The message for a file that could not be deleted: a missing file asks for a
/// rescan; any other failure names the error.
pub open spec fn delete_failure_text(path: Seq<char>, not_found: bool, error: Seq<char>, language: UiLanguage) -> Seq<char> {
    if not_found {
        pick(language, "文件不存在，请重新扫描："@ + path, "File does not exist, please rescan: "@ + path)
    } else {
        pick(
            language,
            "文件删除失败："@ + path + " ("@ + error + ")"@,
            "Failed to delete file: "@ + path + " ("@ + error + ")"@,
        )
    }
}

/// The message for a file that could not be deleted.
pub fn delete_failure_message(path: &str, not_found: bool, error: &str, language: UiLanguage) -> (r: String)
    ensures
        r@ == delete_failure_text(path@, not_found, error@, language),
{
    let mut r = String::new();
    if not_found {
        match language {
            UiLanguage::Zh => push_str(&mut r, "文件不存在，请重新扫描："),
            UiLanguage::En => push_str(&mut r, "File does not exist, please rescan: "),
        }
        push_str(&mut r, path);
    } else {
        match language {
            UiLanguage::Zh => push_str(&mut r, "文件删除失败："),
            UiLanguage::En => push_str(&mut r, "Failed to delete file: "),
        }
        push_str(&mut r, path);
        push_str(&mut r, " (");
        push_str(&mut r, error);
        push_str(&mut r, ")");
    }
    r
}

/// The warning shown before deleting: trashed files can be restored, removed
/// ones cannot.
pub fn delete_confirm_text(mode: DeleteMode, language: UiLanguage) -> (r: &'static str)
    ensures
        r@ == (match mode {
            DeleteMode::MoveToTrash => pick(
                language,
                "文件将移到废纸篓，可在清空废纸篓前恢复。"@,
                "Files will be moved to Trash and can be restored before Trash is emptied."@,
            ),
            DeleteMode::DirectRemove => pick(
                language,
                "删除不可撤销，请确认这些副本不再需要。"@,
                "Deletion cannot be undone. Confirm these copies are no longer needed."@,
            ),
        }),
{
    match mode {
        DeleteMode::MoveToTrash => tr(
            language,
            "文件将移到废纸篓，可在清空废纸篓前恢复。",
            "Files will be moved to Trash and can be restored before Trash is emptied.",
        ),
        DeleteMode::DirectRemove => tr(
            language,
            "删除不可撤销，请确认这些副本不再需要。",
            "Deletion cannot be undone. Confirm these copies are no longer needed.",
        ),
    }
}

/// Why a scan cannot start: the folder or the disk id is blank.
pub open spec fn scan_request_error_text(scan_path: Seq<char>, disk_id: Seq<char>, language: UiLanguage) -> Option<Seq<char>> {
    if trim_seq(scan_path).len() == 0 || trim_seq(disk_id).len() == 0 {
        Some(pick(language, "请输入扫描目录和硬盘标识"@, "Enter a scan folder and disk ID"@))
    } else {
        None
    }
}

/// The error that keeps a scan from starting, if the folder or the disk id is
/// blank.
pub fn scan_request_error(scan_path: &str, disk_id: &str, language: UiLanguage) -> (r: Option<String>)
    ensures
        match r {
            Some(m) => scan_request_error_text(scan_path@, disk_id@, language) == Some(m@),
            None => scan_request_error_text(scan_path@, disk_id@, language) is None,
        },
{
    let p = trim(scan_path);
    let d = trim(disk_id);
    if p.as_str().is_empty() || d.as_str().is_empty() {
        Some(tr(language, "请输入扫描目录和硬盘标识", "Enter a scan folder and disk ID").to_owned())
    } else {
        None
    }
}

/// The start of the message for a file that no longer exists, in Chinese.
pub open spec fn missing_prefix_zh() -> Seq<char> {
    "文件不存在，请重新扫描："@
}

/// The start of the message for a file that no longer exists, in English.
pub open spec fn missing_prefix_en() -> Seq<char> {
    "File does not exist, please rescan:"@
}

/// An error that is not about a missing file.
pub open spec fn is_real_error(e: Seq<char>) -> bool {
    !starts_with(e, missing_prefix_zh()) && !starts_with(e, missing_prefix_en())
}

/// The position of the first error that is not about a missing file, or the
/// number of errors when there is none.
pub open spec fn first_real_error(errors: Seq<Seq<char>>) -> nat
    decreases errors.len(),
{
    if errors.len() == 0 {
        0
    } else if is_real_error(errors[0]) {
        0
    } else {
        1 + first_real_error(errors.drop_first())
    }
}

/// Lines joined by line breaks.
pub open spec fn join_lines(lines: Seq<Seq<char>>) -> Seq<char>
    decreases lines.len(),
{
    if lines.len() == 0 {
        Seq::empty()
    } else if lines.len() == 1 {
        lines[0]
    } else {
        join_lines(lines.drop_last()) + "\n"@ + lines.last()
    }
}

/// What the application shows after deleting selected files.
pub struct DeletionOutcome {
    /// The notice line.
    pub notice: String,
    /// The error to show as the status, when an error was not about a missing file.
    pub status_error: Option<String>,
    /// The message to show in a dialog, if any.
    pub alert: Option<String>,
}

/// The notice after deleting: how many files went, and how many operations failed.
pub open spec fn deletion_notice_text(mode: DeleteMode, language: UiLanguage, deleted: nat, failed: nat) -> Seq<char> {
    if failed == 0 {
        match mode {
            DeleteMode::MoveToTrash => pick(
                language,
                "已将 "@ + decimal(deleted) + " 个文件移到废纸篓。"@,
                "Moved "@ + decimal(deleted) + " files to Trash."@,
            ),
            DeleteMode::DirectRemove => pick(
                language,
                "已删除 "@ + decimal(deleted) + " 个文件。"@,
                "Deleted "@ + decimal(deleted) + " files."@,
            ),
        }
    } else {
        pick(
            language,
            "已删除 "@ + decimal(deleted) + " 个文件，"@ + decimal(failed) + " 个操作失败。"@,
            "Processed "@ + decimal(deleted) + " files, "@ + decimal(failed) + " operations failed."@,
        )
    }
}

/// The dialog text about files that no longer exist: a request to rescan and the
/// first three of their paths.
pub open spec fn missing_alert_text(missing: Seq<Seq<char>>, language: UiLanguage) -> Seq<char> {
    let shown = if missing.len() <= 3 {
        missing
    } else {
        missing.take(3)
    };
    pick(language, "文件不存在，请重新扫描。\n\n"@, "File does not exist. Please rescan.\n\n"@) + join_lines(shown)
}

fn push_deletion_notice(r: &mut String, mode: DeleteMode, language: UiLanguage, deleted: usize, failed: usize)
    ensures
        final(r)@ == old(r)@ + deletion_notice_text(mode, language, deleted as nat, failed as nat),
{
    let ghost start = r@;
    if failed == 0 {
        match (mode, language) {
            (DeleteMode::MoveToTrash, UiLanguage::Zh) => {
                push_str(r, "已将 ");
                push_decimal(r, deleted as u128);
                push_str(r, " 个文件移到废纸篓。");
            },
            (DeleteMode::MoveToTrash, UiLanguage::En) => {
                push_str(r, "Moved ");
                push_decimal(r, deleted as u128);
                push_str(r, " files to Trash.");
            },
            (DeleteMode::DirectRemove, UiLanguage::Zh) => {
                push_str(r, "已删除 ");
                push_decimal(r, deleted as u128);
                push_str(r, " 个文件。");
            },
            (DeleteMode::DirectRemove, UiLanguage::En) => {
                push_str(r, "Deleted ");
                push_decimal(r, deleted as u128);
                push_str(r, " files.");
            },
        }
    } else {
        match language {
            UiLanguage::Zh => {
                push_str(r, "已删除 ");
                push_decimal(r, deleted as u128);
                push_str(r, " 个文件，");
                push_decimal(r, failed as u128);
                push_str(r, " 个操作失败。");
            },
            UiLanguage::En => {
                push_str(r, "Processed ");
                push_decimal(r, deleted as u128);
                push_str(r, " files, ");
                push_decimal(r, failed as u128);
                push_str(r, " operations failed.");
            },
        }
    }
    assert(r@ =~= start + deletion_notice_text(mode, language, deleted as nat, failed as nat));
}

/// The texts of a list of strings.
pub open spec fn lines_view(s: Seq<String>) -> Seq<Seq<char>> {
    s.map_values(|x: String| x@)
}

fn missing_alert(missing: &Vec<String>, language: UiLanguage) -> (r: String)
    ensures
        r@ == missing_alert_text(lines_view(missing@), language),
{
    let ghost mv = lines_view(missing@);
    let ghost shown = if mv.len() <= 3 {
        mv
    } else {
        mv.take(3)
    };
    let mut r = String::new();
    match language {
        UiLanguage::Zh => push_str(&mut r, "文件不存在，请重新扫描。\n\n"),
        UiLanguage::En => push_str(&mut r, "File does not exist. Please rescan.\n\n"),
    }
    let ghost start = r@;
    let n = if missing.len() <= 3 {
        missing.len()
    } else {
        3
    };
    assert(shown.len() == n);
    for i in 0..n
        invariant
            n <= missing@.len(),
            mv == lines_view(missing@),
            shown.len() == n,
            forall|k: int| 0 <= k < n ==> shown[k] == mv[k],
            r@ == start + join_lines(shown.take(i as int)),
    {
        if i > 0 {
            push_str(&mut r, "\n");
        }
        push_str(&mut r, missing[i].as_str());
        assert(shown.take(i + 1).drop_last() =~= shown.take(i as int));
        assert(shown[i as int] == missing@[i as int]@);
        assert(i == 0 ==> shown.take(i + 1) =~= seq![shown[0]]);
        assert(r@ =~= start + join_lines(shown.take(i + 1)));
    }
    assert(shown.take(n as int) =~= shown);
    r
}

/// What to show after deleting selected files: the notice counts the deleted
/// files and the failures; the first failure that is not about a missing file
/// becomes the error status; missing files raise a dialog asking for a rescan that
/// lists up to three of them, and when nothing was deleted the dialog shows the
/// first failure.
pub fn deletion_outcome(
    mode: DeleteMode,
    language: UiLanguage,
    deleted: usize,
    errors: &Vec<String>,
    missing: &Vec<String>,
) -> (r: DeletionOutcome)
    ensures
        r.notice@ == deletion_notice_text(mode, language, deleted as nat, errors@.len()),
        ({
            let ev = lines_view(errors@);
            let i = first_real_error(ev);
            match r.status_error {
                Some(e) => i < ev.len() && e@ == ev[i as int],
                None => i >= ev.len(),
            }
        }),
        match r.alert {
            Some(a) => if missing@.len() > 0 {
                a@ == missing_alert_text(lines_view(missing@), language)
            } else {
                deleted == 0 && errors@.len() > 0 && a@ == errors@[0]@
            },
            None => missing@.len() == 0 && (deleted > 0 || errors@.len() == 0),
        },
{
    let mut notice = String::new();
    push_deletion_notice(&mut notice, mode, language, deleted, errors.len());
    let ghost ev = lines_view(errors@);
    let mut k: usize = 0;
    while k < errors.len() && !is_real_error_exec(errors[k].as_str())
        invariant
            k <= errors@.len(),
            ev == lines_view(errors@),
            forall|j: int| 0 <= j < k ==> !is_real_error(#[trigger] ev[j]),
        decreases errors@.len() - k,
    {
        assert(ev[k as int] == errors@[k as int]@);
        k = k + 1;
    }
    proof {
        if k < errors@.len() {
            assert(ev[k as int] == errors@[k as int]@);
        }
        lemma_first_real_error_at(ev, k as int);
    }
    let status_error = if k < errors.len() {
        Some(errors[k].clone())
    } else {
        None
    };
    let alert = if missing.len() > 0 {
        Some(missing_alert(missing, language))
    } else if deleted == 0 && errors.len() > 0 {
        Some(errors[0].clone())
    } else {
        None
    };
    DeletionOutcome { notice, status_error, alert }
}

fn is_real_error_exec(e: &str) -> (r: bool)
    ensures
        r == is_real_error(e@),
{
    !str_starts_with(e, "文件不存在，请重新扫描：") && !str_starts_with(e, "File does not exist, please rescan:")
}

proof fn lemma_first_real_error_at(errors: Seq<Seq<char>>, k: int)
    requires
        0 <= k <= errors.len(),
        forall|j: int| 0 <= j < k ==> !is_real_error(#[trigger] errors[j]),
        k == errors.len() || is_real_error(errors[k]),
    ensures
        first_real_error(errors) == k,
    decreases k,
{
    if k > 0 {
        assert(!is_real_error(errors[0]));
        assert forall|j: int| 0 <= j < k - 1 implies !is_real_error(#[trigger] errors.drop_first()[j]) by {
            assert(errors.drop_first()[j] == errors[j + 1]);
        }
        lemma_first_real_error_at(errors.drop_first(), k - 1);
    }
}

/// A failure about a missing file never becomes the error status: the message
/// built for a missing file is not a real error.
pub proof fn lemma_missing_file_is_not_real_error(path: Seq<char>, error: Seq<char>, language: UiLanguage)
    ensures
        !is_real_error(delete_failure_text(path, true, error, language)),
{
    let t = delete_failure_text(path, true, error, language);
    match language {
        UiLanguage::Zh => {
            assert(t.take(missing_prefix_zh().len() as int) =~= missing_prefix_zh());
        },
        UiLanguage::En => {
            reveal_strlit("File does not exist, please rescan: ");
            reveal_strlit("File does not exist, please rescan:");
            assert(t.take(missing_prefix_en().len() as int) =~= missing_prefix_en());
        },
    }
}

/// The notice after a scan: the scan message and an invitation to look for
/// duplicates.
pub fn scan_finished_notice(message: &str, language: UiLanguage) -> (r: String)
    ensures
        r@ == pick(
            language,
            message@ + " 现在可以查找重复文件。"@,
            message@ + " You can find duplicates now."@,
        ),
{
    let mut r = message.to_owned();
    match language {
        UiLanguage::Zh => push_str(&mut r, " 现在可以查找重复文件。"),
        UiLanguage::En => push_str(&mut r, " You can find duplicates now."),
    }
    r
}

/// The step that failed.
#[derive(Debug, Clone, Copy, PartialEq, Eq, Structural)]
pub enum Stage {
    Scan,
    Analysis,
}

/// The notice after a failed scan or analysis, naming the error.
pub fn failure_notice(stage: Stage, error: &str, language: UiLanguage) -> (r: String)
    ensures
        r@ == (match stage {
            Stage::Scan => pick(language, "扫描失败："@ + error@, "Scan failed: "@ + error@),
            Stage::Analysis => pick(language, "分析失败："@ + error@, "Analysis failed: "@ + error@),
        }),
{
    let mut r = String::new();
    match (stage, language) {
        (Stage::Scan, UiLanguage::Zh) => push_str(&mut r, "扫描失败："),
        (Stage::Scan, UiLanguage::En) => push_str(&mut r, "Scan failed: "),
        (Stage::Analysis, UiLanguage::Zh) => push_str(&mut r, "分析失败："),
        (Stage::Analysis, UiLanguage::En) => push_str(&mut r, "Analysis failed: "),
    }
    push_str(&mut r, error);
    r
}

/// The notice after duplicates were found: none, or how many copies could be
/// removed and how much space that would free.
pub open spec fn duplicates_notice_text(groups: nat, copies: nat, savings: u64, language: UiLanguage) -> Seq<char> {
    if groups == 0 {
        pick(language, "没有发现重复文件。"@, "No duplicate files found."@)
    } else {
        pick(
            language,
            "发现 "@ + decimal(copies) + " 个可删除副本，预计可释放 "@ + format_bytes_spec(savings) + "。"@,
            "Found "@ + decimal(copies) + " removable copies, estimated savings "@ + format_bytes_spec(savings) + "."@,
        )
    }
}

/// The notice after duplicates were found.
pub fn duplicates_notice(groups: usize, copies: usize, savings: u64, language: UiLanguage) -> (r: String)
    ensures
        r@ == duplicates_notice_text(groups as nat, copies as nat, savings, language),
{
    if groups == 0 {
        return tr(language, "没有发现重复文件。", "No duplicate files found.").to_owned();
    }
    let size = format_bytes(savings);
    let mut r = String::new();
    match language {
        UiLanguage::Zh => {
            push_str(&mut r, "发现 ");
            push_decimal(&mut r, copies as u128);
            push_str(&mut r, " 个可删除副本，预计可释放 ");
            push_str(&mut r, size.as_str());
            push_str(&mut r, "。");
        },
        UiLanguage::En => {
            push_str(&mut r, "Found ");
            push_decimal(&mut r, copies as u128);
            push_str(&mut r, " removable copies, estimated savings ");
            push_str(&mut r, size.as_str());
            push_str(&mut r, ".");
        },
    }
    r
}

/// A path cut to at most `max_chars` characters for display: a longer path keeps
/// its last `max_chars - 3` characters (none if `max_chars` is below 3) behind
/// `...`.
pub open spec fn shortened(path: Seq<char>, max_chars: nat) -> Seq<char> {
    if path.len() <= max_chars {
        path
    } else {
        let keep: int = if max_chars >= 3 { max_chars - 3 } else { 0 };
        seq!['.', '.', '.'] + path.subrange(path.len() - keep, path.len() as int)
    }
}

/// A path shortened for display.
pub fn shorten_path(path: &str, max_chars: usize) -> (r: String)
    ensures
        r@ == shortened(path@, max_chars as nat),
{
    let cs = chars_of(path);
    let n = cs.len();
    if n <= max_chars {
        return path.to_owned();
    }
    let keep: usize = if max_chars >= 3 { max_chars - 3 } else { 0 };
    let mut r = String::new();
    push_char(&mut r, '.');
    push_char(&mut r, '.');
    push_char(&mut r, '.');
    let start = n - keep;
    let mut i = start;
    while i < n
        invariant
            start <= i <= n,
            n == cs@.len(),
            cs@ == path@,
            r@ == seq!['.', '.', '.'] + cs@.subrange(start as int, i as int),
        decreases n - i,
    {
        push_char(&mut r, cs[i]);
        assert(cs@.subrange(start as int, i as int).push(cs@[i as int]) =~= cs@.subrange(start as int, i + 1));
        i = i + 1;
    }
    r
}

/// The notice after switching the interface language, in the new language.
pub fn language_switched_notice(language: UiLanguage) -> (r: &'static str)
    ensures
        r@ == pick(language, "已切换为中文界面。"@, "Switched to English."@),
{
    tr(language, "已切换为中文界面。", "Switched to English.")
}

} // verus!
