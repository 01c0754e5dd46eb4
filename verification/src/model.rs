//! The records that the index holds and hands out: indexed files, duplicate groups,
//! disk summaries, and the way a file is removed.
use vstd::prelude::*;
use crate::text::{str_eq};

verus! {

broadcast use vstd::string::group_string_axioms;

/// A file found by a scan, ready to be stored in the index.
#[derive(Debug, Clone)]
pub struct FileInfo {
    pub path: String,
    pub size: u64,
    pub sample_hash: Option<String>,
    pub disk_id: String,
}

/// A file as the index records it.
#[derive(Debug, Clone)]
pub struct IndexedFile {
    pub path: String,
    pub size: u64,
    pub sample_hash: Option<String>,
    pub disk_id: String,
}

/// A set of files that share a size (and, when hashes are used, a sample hash).
#[derive(Debug, Clone)]
pub struct DuplicateGroup {
    pub size: u64,
    pub files: Vec<IndexedFile>,
}

/// What the index records about one disk.
#[derive(Debug, Clone)]
pub struct DiskSummary {
    pub disk_id: String,
    pub display_name: String,
    pub root_path: String,
    pub last_scanned_at: String,
    pub file_count: i64,
    pub total_size: i64,
}

/// The mathematical value of an indexed file.
pub struct FileRecord {
    pub path: Seq<char>,
    pub size: u64,
    pub sample_hash: Option<Seq<char>>,
    pub disk_id: Seq<char>,
}

/// The mathematical value of a duplicate group.
pub struct GroupRecord {
    pub size: u64,
    pub files: Seq<FileRecord>,
}

/// The view of an optional string.
pub open spec fn opt_view(o: Option<String>) -> Option<Seq<char>> {
    match o {
        Some(s) => Some(s@),
        None => None,
    }
}

impl View for IndexedFile {
    type V = FileRecord;

    open spec fn view(&self) -> FileRecord {
        FileRecord {
            path: self.path@,
            size: self.size,
            sample_hash: opt_view(self.sample_hash),
            disk_id: self.disk_id@,
        }
    }
}

impl View for FileInfo {
    type V = FileRecord;

    open spec fn view(&self) -> FileRecord {
        FileRecord {
            path: self.path@,
            size: self.size,
            sample_hash: opt_view(self.sample_hash),
            disk_id: self.disk_id@,
        }
    }
}

/// The views of a sequence of indexed files.
pub open spec fn files_view(s: Seq<IndexedFile>) -> Seq<FileRecord> {
    s.map_values(|f: IndexedFile| f@)
}

impl View for DuplicateGroup {
    type V = GroupRecord;

    open spec fn view(&self) -> GroupRecord {
        GroupRecord { size: self.size, files: files_view(self.files@) }
    }
}

/// The views of a sequence of duplicate groups.
pub open spec fn groups_view(s: Seq<DuplicateGroup>) -> Seq<GroupRecord> {
    s.map_values(|g: DuplicateGroup| g@)
}

/// A copy of an optional string.
pub fn copy_opt(o: &Option<String>) -> (r: Option<String>)
    ensures
        opt_view(r) == opt_view(*o),
{
    match o {
        Some(s) => Some(s.clone()),
        None => None,
    }
}

/// Two optional strings that are equal.
pub fn opt_eq(a: &Option<String>, b: &Option<String>) -> (r: bool)
    ensures
        r == (opt_view(*a) == opt_view(*b)),
{
    match (a, b) {
        (Some(x), Some(y)) => str_eq(x.as_str(), y.as_str()),
        (None, None) => true,
        _ => false,
    }
}

impl IndexedFile {
    /// A copy of this record.
    pub fn copy(&self) -> (r: IndexedFile)
        ensures
            r@ == self@,
    {
        IndexedFile {
            path: self.path.clone(),
            size: self.size,
            sample_hash: copy_opt(&self.sample_hash),
            disk_id: self.disk_id.clone(),
        }
    }

    /// The record that the index keeps for a scanned file.
    pub fn from_info(info: &FileInfo) -> (r: IndexedFile)
        ensures
            r@ == info@,
    {
        IndexedFile {
            path: info.path.clone(),
            size: info.size,
            sample_hash: copy_opt(&info.sample_hash),
            disk_id: info.disk_id.clone(),
        }
    }
}

/// A copy of a sequence of indexed files.
pub fn copy_files(files: &Vec<IndexedFile>) -> (r: Vec<IndexedFile>)
    ensures
        files_view(r@) == files_view(files@),
{
    let mut r: Vec<IndexedFile> = Vec::new();
    let n = files.len();
    for i in 0..n
        invariant
            n == files@.len(),
            r@.len() == i,
            forall|k: int| 0 <= k < i ==> (#[trigger] r@[k])@ == files@[k]@,
    {
        r.push(files[i].copy());
    }
    assert(files_view(r@) =~= files_view(files@));
    r
}

impl DuplicateGroup {
    /// A copy of this group.
    pub fn copy(&self) -> (r: DuplicateGroup)
        ensures
            r@ == self@,
    {
        DuplicateGroup { size: self.size, files: copy_files(&self.files) }
    }
}

/// How a selected duplicate is removed from disk.
#[derive(Debug, Clone, Copy, PartialEq, Eq, Structural)]
pub enum DeleteMode {
    MoveToTrash,
    DirectRemove,
}

/// The word under which a delete mode is stored in the settings table.
pub open spec fn mode_word(mode: DeleteMode) -> Seq<char> {
    match mode {
        DeleteMode::MoveToTrash => "trash"@,
        DeleteMode::DirectRemove => "direct"@,
    }
}

/// The delete mode that a stored word names: `"direct"` is direct removal, every
/// other word moves files to the trash.
pub open spec fn mode_named(word: Seq<char>) -> DeleteMode {
    if word == "direct"@ {
        DeleteMode::DirectRemove
    } else {
        DeleteMode::MoveToTrash
    }
}

impl DeleteMode {
    /// The word under which the mode is stored in the settings table.
    pub fn as_str(self) -> (r: &'static str)
        ensures
            r@ == mode_word(self),
    {
        match self {
            DeleteMode::MoveToTrash => "trash",
            DeleteMode::DirectRemove => "direct",
        }
    }

    /// The mode that a stored word names: `"direct"` is direct removal, every other
    /// word moves files to the trash.
    pub fn from_str(value: &str) -> (r: DeleteMode)
        ensures
            r == mode_named(value@),
    {
        if str_eq(value, "direct") {
            DeleteMode::DirectRemove
        } else {
            DeleteMode::MoveToTrash
        }
    }

    /// The mode that the settings table holds: the stored word, or moving to the
    /// trash when nothing is stored.
    pub fn from_stored(value: Option<&str>) -> (r: DeleteMode)
        ensures
            r == (match value {
                Some(v) => mode_named(v@),
                None => DeleteMode::MoveToTrash,
            }),
    {
        match value {
            Some(v) => DeleteMode::from_str(v),
            None => DeleteMode::MoveToTrash,
        }
    }
}

/// Storing a delete mode and reading it back gives the same mode.
pub proof fn lemma_delete_mode_round_trip(mode: DeleteMode)
    ensures
        mode_named(mode_word(mode)) == mode,
{
    reveal_strlit("trash");
    reveal_strlit("direct");
    assert("trash"@[0] != "direct"@[0]);
}

} // verus!
