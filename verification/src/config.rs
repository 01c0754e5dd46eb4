//! Scan settings: which files are indexed, which folders are skipped, and the
//! language of the interface.
use vstd::prelude::*;
use crate::disk::{file_name_of, opt_text, plain_path};
use crate::text::{list_contains, spec_to_lowercase, to_lowercase, trim, trim_seq, trim_start_char, trim_start_char_exec};

verus! {

broadcast use vstd::string::group_string_axioms;

/// Language of the user interface.
#[derive(Debug, Clone, Copy, PartialEq, Eq, Structural)]
pub enum UiLanguage {
    Zh,
    En,
}

impl Default for UiLanguage {
    /// Chinese, the language of configurations saved before the setting existed.
    fn default() -> (r: Self)
        ensures
            r == UiLanguage::Zh,
    {
        UiLanguage::Zh
    }
}

/// The other language: Chinese for English and English for Chinese.
pub open spec fn other_language(l: UiLanguage) -> UiLanguage {
    match l {
        UiLanguage::Zh => UiLanguage::En,
        UiLanguage::En => UiLanguage::Zh,
    }
}

impl UiLanguage {
    /// The other language: Chinese becomes English and English becomes Chinese.
    pub fn toggled(self) -> (r: Self)
        ensures
            r != self,
            r == other_language(self),
    {
        match self {
            UiLanguage::Zh => UiLanguage::En,
            UiLanguage::En => UiLanguage::Zh,
        }
    }
}

/// Toggling the language twice gives the language back.
pub proof fn lemma_toggle_twice(l: UiLanguage)
    ensures
        other_language(other_language(l)) == l,
{
}

/// The texts of a list of strings.
pub open spec fn strings_view(s: Seq<String>) -> Seq<Seq<char>> {
    s.map_values(|x: String| x@)
}

/// The scan settings.
pub struct AppConfig {
    /// Files smaller than this many bytes are not indexed.
    pub min_file_size: u64,
    /// When not empty, only files with one of these extensions are indexed.
    pub file_extensions: Vec<String>,
    /// Files with one of these extensions are never indexed.
    pub ignore_extensions: Vec<String>,
    /// Folders with one of these names are not entered.
    pub ignore_dirs: Vec<String>,
    /// Whether files are compared by a sampled hash as well as by size.
    pub use_hash: bool,
    /// How many bytes each hash sample reads.
    pub sample_size: usize,
    /// The language of the interface.
    pub ui_language: UiLanguage,
}

/// The extensions indexed by default: common video and image formats.
pub open spec fn default_extensions() -> Seq<Seq<char>> {
    seq![
        "mp4"@, "mkv"@, "avi"@, "mov"@, "wmv"@, "flv"@, "webm"@, "m4v"@, "mpg"@, "mpeg"@,
        "jpeg"@, "jpg"@, "png"@, "gif"@, "bmp"@, "tiff"@, "webp"@,
    ]
}

/// The folders skipped by default.
pub open spec fn default_ignore_dirs() -> Seq<Seq<char>> {
    seq![".git"@, ".svn"@, "node_modules"@, "target"@]
}

fn push_owned(v: &mut Vec<String>, s: &str)
    ensures
        strings_view(final(v)@) == strings_view(old(v)@).push(s@),
{
    v.push(s.to_owned());
    assert(strings_view(v@) =~= strings_view(old(v)@).push(s@));
}

impl Default for AppConfig {
    /// Files of at least 100 MiB with a common video or image extension, version
    /// control and build folders skipped, no hashing, 4 MiB samples, Chinese.
    fn default() -> (r: Self)
        ensures
            r.min_file_size == 100 * 1024 * 1024,
            strings_view(r.file_extensions@) == default_extensions(),
            r.ignore_extensions@.len() == 0,
            strings_view(r.ignore_dirs@) == default_ignore_dirs(),
            r.use_hash == false,
            r.sample_size == 4 * 1024 * 1024,
            r.ui_language == UiLanguage::Zh,
    {
        let mut exts: Vec<String> = Vec::new();
        push_owned(&mut exts, "mp4");
        push_owned(&mut exts, "mkv");
        push_owned(&mut exts, "avi");
        push_owned(&mut exts, "mov");
        push_owned(&mut exts, "wmv");
        push_owned(&mut exts, "flv");
        push_owned(&mut exts, "webm");
        push_owned(&mut exts, "m4v");
        push_owned(&mut exts, "mpg");
        push_owned(&mut exts, "mpeg");
        push_owned(&mut exts, "jpeg");
        push_owned(&mut exts, "jpg");
        push_owned(&mut exts, "png");
        push_owned(&mut exts, "gif");
        push_owned(&mut exts, "bmp");
        push_owned(&mut exts, "tiff");
        push_owned(&mut exts, "webp");
        let mut dirs: Vec<String> = Vec::new();
        push_owned(&mut dirs, ".git");
        push_owned(&mut dirs, ".svn");
        push_owned(&mut dirs, "node_modules");
        push_owned(&mut dirs, "target");
        assert(strings_view(exts@) =~= default_extensions());
        assert(strings_view(dirs@) =~= default_ignore_dirs());
        AppConfig {
            min_file_size: 100 * 1024 * 1024,
            file_extensions: exts,
            ignore_extensions: Vec::new(),
            ignore_dirs: dirs,
            use_hash: false,
            sample_size: 4 * 1024 * 1024,
            ui_language: UiLanguage::Zh,
        }
    }
}

/// The position of the last `.` in a name, or -1 when it has none.
pub open spec fn last_dot(n: Seq<char>) -> int
    decreases n.len(),
{
    if n.len() == 0 {
        -1
    } else if n.last() == '.' {
        n.len() - 1
    } else {
        last_dot(n.drop_last())
    }
}

/// The extension of a file name: the text after its last `.`, when that `.` is not
/// the first character (so `.bashrc` has none).
pub open spec fn name_extension(n: Seq<char>) -> Option<Seq<char>> {
    let i = last_dot(n);
    if i <= 0 {
        None
    } else {
        Some(n.subrange(i + 1, n.len() as int))
    }
}

/// The extension of a plain path: that of its file name, if it has one.
pub open spec fn ext_of(p: Seq<char>) -> Option<Seq<char>> {
    match file_name_of(p) {
        Some(n) => name_extension(n),
        None => None,
    }
}

/// `Path::extension` of a path given as text: the part of the file name after its
/// last `.`. Where the file name starts depends on how the platform separates
/// components. Claimed: a path without a `.` has no extension, an extension holds
/// no `.`, and the extension of a plain path is that of its file name.
#[verifier::external_body]
fn path_extension(path: &str) -> (r: Option<String>)
    ensures
        !path@.contains('.') ==> r is None,
        r matches Some(e) ==> !e@.contains('.'),
        plain_path(path@) ==> opt_text(r) == ext_of(path@),
{
    match std::path::Path::new(path).extension() {
        Some(e) => Some(e.to_string_lossy().into_owned()),
        None => None,
    }
}

impl AppConfig {
    /// Whether a file of `size` bytes whose extension is `ext` is indexed: it must
    /// reach the minimum size; an extension, taken in lower case, must not be
    /// ignored, and must be one of the listed extensions when that list is not
    /// empty; a file without an extension is indexed only when no extensions are
    /// listed.
    pub open spec fn accepts(&self, size: u64, ext: Option<Seq<char>>) -> bool {
        if size < self.min_file_size {
            false
        } else {
            match ext {
                None => self.file_extensions@.len() == 0,
                Some(e) => {
                    let lower = spec_to_lowercase(e);
                    if strings_view(self.ignore_extensions@).contains(lower) {
                        false
                    } else if self.file_extensions@.len() != 0 {
                        strings_view(self.file_extensions@).contains(lower)
                    } else {
                        true
                    }
                },
            }
        }
    }

    /// Whether a file of `size` bytes with extension `ext` (none when the file
    /// name has no extension) is indexed.
    pub fn accepts_extension(&self, ext: Option<&str>, size: u64) -> (r: bool)
        ensures
            r == self.accepts(
                size,
                match ext {
                    Some(e) => Some(e@),
                    None => None,
                },
            ),
    {
        if size < self.min_file_size {
            return false;
        }
        match ext {
            Some(e) => {
                let lower = to_lowercase(e);
                if list_contains(&self.ignore_extensions, lower.as_str()) {
                    assert(strings_view(self.ignore_extensions@).contains(lower@)) by {
                        let i = choose|i: int|
                            0 <= i < self.ignore_extensions@.len() && (#[trigger] self.ignore_extensions@[i])@
                                == lower@;
                        assert(strings_view(self.ignore_extensions@)[i] == lower@);
                    }
                    return false;
                }
                assert(!strings_view(self.ignore_extensions@).contains(lower@));
                if self.file_extensions.len() != 0 {
                    let found = list_contains(&self.file_extensions, lower.as_str());
                    assert(found == strings_view(self.file_extensions@).contains(lower@)) by {
                        if found {
                            let i = choose|i: int|
                                0 <= i < self.file_extensions@.len() && (#[trigger] self.file_extensions@[i])@
                                    == lower@;
                            assert(strings_view(self.file_extensions@)[i] == lower@);
                        }
                    }
                    return found;
                }
                true
            },
            None => self.file_extensions.len() == 0,
        }
    }

    /// Whether the file at `path`, of `size` bytes, is indexed: as
    /// `accepts_extension` decides for the extension of the path.
    pub fn should_process_file(&self, path: &str, size: u64) -> (r: bool)
        ensures
            size < self.min_file_size ==> !r,
            !path@.contains('.') ==> r == (size >= self.min_file_size && self.file_extensions@.len() == 0),
            plain_path(path@) ==> r == self.accepts(size, ext_of(path@)),
            exists|ext: Option<Seq<char>>|
                r == self.accepts(size, ext) && (ext matches Some(e) ==> !e.contains('.')),
    {
        let ext = path_extension(path);
        let r = match &ext {
            Some(e) => self.accepts_extension(Some(e.as_str()), size),
            None => self.accepts_extension(None, size),
        };
        assert(exists|x: Option<Seq<char>>| r == self.accepts(size, x) && (x matches Some(e) ==> !e.contains('.'))) by {
            let x = match ext {
                Some(e) => Some(e@),
                None => None,
            };
            assert(r == self.accepts(size, x) && (x matches Some(e) ==> !e.contains('.')));
        }
        r
    }

    /// Whether a folder named `dir_name` is skipped: its name is exactly one of
    /// the ignored folder names.
    pub fn should_skip_dir(&self, dir_name: &str) -> (r: bool)
        ensures
            r == strings_view(self.ignore_dirs@).contains(dir_name@),
    {
        let r = list_contains(&self.ignore_dirs, dir_name);
        assert(r == strings_view(self.ignore_dirs@).contains(dir_name@)) by {
            if r {
                let i = choose|i: int|
                    0 <= i < self.ignore_dirs@.len() && (#[trigger] self.ignore_dirs@[i])@ == dir_name@;
                assert(strings_view(self.ignore_dirs@)[i] == dir_name@);
            }
        }
        r
    }
}

/// The value that a typed tag becomes: surrounding whitespace removed, leading
/// dots removed, lower case.
pub open spec fn normalized_tag(input: Seq<char>) -> Seq<char> {
    spec_to_lowercase(trim_start_char(trim_seq(input), '.'))
}

/// A list of tags with no empty tag and no tag twice.
pub open spec fn tags_clean(s: Seq<Seq<char>>) -> bool {
    &&& forall|i: int| 0 <= i < s.len() ==> (#[trigger] s[i]).len() > 0
    &&& forall|i: int, j: int| 0 <= i < j < s.len() ==> #[trigger] s[i] != #[trigger] s[j]
}

/// Adds a typed extension or folder name to a list, as the settings editor does:
/// the normalized value is added unless it is empty or already listed. Returns
/// whether the list changed.
pub fn add_tag(values: &mut Vec<String>, input: &str) -> (changed: bool)
    ensures
        changed == (normalized_tag(input@).len() > 0 && !strings_view(old(values)@).contains(
            normalized_tag(input@),
        )),
        changed ==> strings_view(final(values)@) == strings_view(old(values)@).push(
            normalized_tag(input@),
        ),
        !changed ==> final(values)@ == old(values)@,
        tags_clean(strings_view(old(values)@)) ==> tags_clean(strings_view(final(values)@)),
{
    let trimmed = trim(input);
    let undotted = trim_start_char_exec(trimmed.as_str(), '.');
    let value = to_lowercase(undotted.as_str());
    if value.as_str().is_empty() {
        return false;
    }
    let present = list_contains(values, value.as_str());
    assert(present == strings_view(values@).contains(value@)) by {
        if present {
            let i = choose|i: int| 0 <= i < values@.len() && (#[trigger] values@[i])@ == value@;
            assert(strings_view(values@)[i] == value@);
        }
    }
    if present {
        return false;
    }
    let ghost v = value@;
    values.push(value);
    assert(strings_view(values@) =~= strings_view(old(values)@).push(v));
    proof {
        let o = strings_view(old(values)@);
        let n = strings_view(values@);
        if tags_clean(o) {
            assert forall|i: int, j: int| 0 <= i < j < n.len() implies #[trigger] n[i] != #[trigger] n[j] by {
                if j == o.len() {
                    assert(n[i] == o[i]);
                    assert(o.contains(o[i]));
                } else {
                    assert(n[i] == o[i] && n[j] == o[j]);
                }
            }
            assert forall|i: int| 0 <= i < n.len() implies (#[trigger] n[i]).len() > 0 by {
                if i < o.len() {
                    assert(n[i] == o[i]);
                }
            }
        }
    }
    true
}

/// A file whose extension, taken in lower case, is in the ignore list is never
/// indexed, whatever its size and the list of extensions.
pub proof fn lemma_ignored_extensions_are_never_indexed(config: AppConfig, size: u64, e: Seq<char>)
    requires
        strings_view(config.ignore_extensions@).contains(spec_to_lowercase(e)),
    ensures
        !config.accepts(size, Some(e)),
{
}

/// Whether a file is indexed depends on its extension only through the extension's
/// lower-case form: two extensions that lower-case alike are treated alike, and an
/// accepted extension is, in lower case, listed whenever a list is set.
pub proof fn lemma_extensions_are_compared_in_lower_case(config: AppConfig, size: u64, e1: Seq<char>, e2: Seq<char>)
    requires
        spec_to_lowercase(e1) == spec_to_lowercase(e2),
    ensures
        config.accepts(size, Some(e1)) == config.accepts(size, Some(e2)),
        config.accepts(size, Some(e1)) && config.file_extensions@.len() != 0 ==> strings_view(
            config.file_extensions@,
        ).contains(spec_to_lowercase(e1)),
        config.accepts(size, Some(e1)) ==> !strings_view(config.ignore_extensions@).contains(spec_to_lowercase(e1))
            && size >= config.min_file_size,
{
}

} // verus!
