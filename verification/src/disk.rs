//! Disk identifiers: cleaning user-given ids, deriving an id from a folder, and
//! recognizing the disk root of files indexed under an old placeholder id.
use vstd::prelude::*;
use crate::text::{chars_of, is_whitespace, push_char, remove_where, str_eq, whitespace_pred};

verus! {

broadcast use vstd::string::group_string_axioms;

// ---------------------------------------------------------------------------
// Cleaning ids
// ---------------------------------------------------------------------------

/// A disk id with every whitespace character removed, or `disk` when nothing is
/// left.
pub open spec fn sanitized(value: Seq<char>) -> Seq<char> {
    let s = remove_where(value, whitespace_pred());
    if s.len() == 0 {
        "disk"@
    } else {
        s
    }
}

/// Removes every whitespace character from a disk id; an id that is left empty
/// becomes `disk`.
pub fn sanitize_disk_id(value: &str) -> (r: String)
    ensures
        r@ == sanitized(value@),
{
    let ghost ws = whitespace_pred();
    let x = chars_of(value);
    let n = x.len();
    let mut out = String::new();
    for i in 0..n
        invariant
            n == x@.len(),
            ws == whitespace_pred(),
            out@ == remove_where(x@.take(i as int), ws),
    {
        assert(x@.take(i + 1).drop_last() =~= x@.take(i as int));
        if !is_whitespace(x[i]) {
            push_char(&mut out, x[i]);
        }
    }
    assert(x@.take(n as int) =~= x@);
    if out.as_str().is_empty() {
        "disk".to_owned()
    } else {
        out
    }
}

/// A cleaned id holds no whitespace.
pub proof fn lemma_sanitized_has_no_whitespace(value: Seq<char>, i: int)
    requires
        0 <= i < remove_where(value, whitespace_pred()).len(),
    ensures
        !spec_is_ws(remove_where(value, whitespace_pred())[i]),
    decreases value.len(),
{
    let ws = whitespace_pred();
    if value.len() > 0 {
        let prev = remove_where(value.drop_last(), ws);
        if i < prev.len() {
            lemma_sanitized_has_no_whitespace(value.drop_last(), i);
        }
    }
}

/// Whether a character is whitespace.
pub open spec fn spec_is_ws(c: char) -> bool {
    crate::text::spec_is_whitespace(c)
}

/// The fallback id `disk` holds no whitespace, so cleaning leaves it as it is.
pub proof fn lemma_fallback_id_is_clean()
    ensures
        sanitized("disk"@) == "disk"@,
{
    reveal_strlit("disk");
    let d = "disk"@;
    assert(d[0] == 'd' && d[1] == 'i' && d[2] == 's' && d[3] == 'k');
    assert forall|i: int| 0 <= i < d.len() implies !whitespace_pred()(#[trigger] d[i]) by {
        assert(d[i] == 'd' || d[i] == 'i' || d[i] == 's' || d[i] == 'k');
    }
    lemma_remove_where_keeps(d, whitespace_pred());
}

/// Cleaning an id is idempotent: a cleaned id is left as it is.
pub proof fn lemma_sanitize_idempotent(value: Seq<char>)
    ensures
        sanitized(sanitized(value)) == sanitized(value),
{
    let ws = whitespace_pred();
    let s = remove_where(value, ws);
    if s.len() > 0 {
        assert forall|i: int| 0 <= i < s.len() implies !ws(#[trigger] s[i]) by {
            lemma_sanitized_has_no_whitespace(value, i);
        }
        lemma_remove_where_keeps(s, ws);
    } else {
        lemma_fallback_id_is_clean();
    }
}

/// Removing characters that do not occur leaves a sequence as it is.
proof fn lemma_remove_where_keeps(s: Seq<char>, drop: spec_fn(char) -> bool)
    requires
        forall|i: int| 0 <= i < s.len() ==> !drop(#[trigger] s[i]),
    ensures
        remove_where(s, drop) == s,
    decreases s.len(),
{
    if s.len() > 0 {
        lemma_remove_where_keeps(s.drop_last(), drop);
        assert(s.drop_last().push(s.last()) =~= s);
    }
}

// ---------------------------------------------------------------------------
// Paths
// ---------------------------------------------------------------------------

/// A component of a path, as `std::path::Component` distinguishes them.
pub enum PathPart {
    Prefix(String),
    RootDir,
    CurDir,
    ParentDir,
    Normal(String),
}

/// A name that a normal path component can have: not empty, and neither `.` nor
/// `..`.
pub open spec fn is_normal_name(v: Seq<char>) -> bool {
    v.len() > 0 && v != "."@ && v != ".."@
}

/// An ASCII letter, which can name a drive.
pub open spec fn is_ascii_letter(c: char) -> bool {
    ('a' <= c && c <= 'z') || ('A' <= c && c <= 'Z')
}

/// A path that every platform reads the same way: it holds no `\`, does not start
/// with `//` and does not start with a drive such as `C:`, so it has no prefix and
/// `/` is its only separator.
pub open spec fn plain_path(p: Seq<char>) -> bool {
    &&& !p.contains('\\')
    &&& !(p.len() >= 2 && p[0] == '/' && p[1] == '/')
    &&& !(p.len() >= 2 && p[1] == ':' && is_ascii_letter(p[0]))
}

/// The `/`-separated segments of a path, empty ones included.
pub open spec fn segments(p: Seq<char>) -> Seq<Seq<char>>
    decreases p.len(),
{
    if p.len() == 0 {
        seq![Seq::<char>::empty()]
    } else {
        let s = segments(p.drop_last());
        if p.last() == '/' {
            s.push(Seq::<char>::empty())
        } else {
            s.update(s.len() - 1, s.last().push(p.last()))
        }
    }
}

/// A segment that names something: neither empty nor `.`.
pub open spec fn names_something() -> spec_fn(Seq<char>) -> bool {
    |x: Seq<char>| x.len() > 0 && x != "."@
}

/// The segments of a path that name something, in order.
pub open spec fn named_segments(p: Seq<char>) -> Seq<Seq<char>> {
    segments(p).filter(names_something())
}

/// The normal components of a plain path: its segments other than empty ones, `.`
/// and `..`, in order.
pub open spec fn slash_parts(p: Seq<char>) -> Seq<Seq<char>> {
    segments(p).filter(|x: Seq<char>| is_normal_name(x))
}

/// The file name of a plain path: its last named segment, unless that is `..`.
pub open spec fn file_name_of(p: Seq<char>) -> Option<Seq<char>> {
    let ns = named_segments(p);
    if ns.len() > 0 && ns.last() != ".."@ {
        Some(ns.last())
    } else {
        None
    }
}

/// The view of an optional string.
pub open spec fn opt_text(o: Option<String>) -> Option<Seq<char>> {
    match o {
        Some(x) => Some(x@),
        None => None,
    }
}

/// `Path::components` of a path given as text, each component converted to a
/// `PathPart`. How a path splits into components depends on the platform (its
/// separators and prefixes). Claimed: a normal component is never empty, `.` or
/// `..` (those are skipped or become `CurDir` and `ParentDir`); and the normal
/// components of a plain path are its `/`-separated segments other than empty
/// ones, `.` and `..`.
#[verifier::external_body]
fn path_components(path: &str) -> (r: Vec<PathPart>)
    ensures
        forall|i: int| 0 <= i < r@.len() ==> (#[trigger] r@[i] matches PathPart::Normal(v) ==> is_normal_name(v@)),
        plain_path(path@) ==> normal_parts_spec(r@) == slash_parts(path@),
{
    let mut parts = Vec::new();
    for c in std::path::Path::new(path).components() {
        parts.push(match c {
            std::path::Component::Prefix(p) => PathPart::Prefix(p.as_os_str().to_string_lossy().into_owned()),
            std::path::Component::RootDir => PathPart::RootDir,
            std::path::Component::CurDir => PathPart::CurDir,
            std::path::Component::ParentDir => PathPart::ParentDir,
            std::path::Component::Normal(v) => PathPart::Normal(v.to_string_lossy().into_owned()),
        });
    }
    parts
}

/// `Path::is_absolute` of a path given as text. What makes a path absolute depends
/// on the platform, so only this is claimed: an empty path is not absolute, and an
/// absolute plain path starts with `/`.
#[verifier::external_body]
fn path_is_absolute(path: &str) -> (r: bool)
    ensures
        r ==> path@.len() > 0,
        r && plain_path(path@) ==> path@[0] == '/',
{
    std::path::Path::new(path).is_absolute()
}

/// A character that separates path components on some platform: `/` everywhere,
/// `\` on Windows.
pub open spec fn is_sep(c: char) -> bool {
    c == '/' || c == '\\'
}

/// The text after the last `/` or `\` of a path (all of it when there is none).
pub open spec fn after_last_sep(p: Seq<char>) -> Seq<char>
    decreases p.len(),
{
    if p.len() == 0 {
        Seq::empty()
    } else if is_sep(p.last()) {
        Seq::empty()
    } else {
        after_last_sep(p.drop_last()).push(p.last())
    }
}

/// A path that ends in a file name on every platform: it ends with a character
/// other than a separator and `.`, does not start with two separators (a network
/// or device prefix on Windows), and does not start with a drive such as `C:`
/// unless a separator follows the drive.
pub open spec fn ends_in_name(p: Seq<char>) -> bool {
    &&& p.len() > 0
    &&& !is_sep(p.last())
    &&& p.last() != '.'
    &&& !(p.len() >= 2 && is_sep(p[0]) && is_sep(p[1]))
    &&& !(p.len() >= 2 && p[1] == ':' && is_ascii_letter(p[0]) && !(exists|i: int|
        2 <= i < p.len() && #[trigger] is_sep(p[i])))
}

/// `Path::file_name` of a path given as text: its last component when that is a
/// normal one. Where the last component starts depends on the platform's
/// separators. Claimed: a file name is never empty, `.` or `..`; that of a plain
/// path is its last named segment unless that is `..`; and a path that ends in a
/// name has a file name, which ends the path, holds no `/`, and holds at least the
/// text after the last `/` or `\` (on Windows exactly that text, elsewhere the
/// text after the last `/`).
#[verifier::external_body]
fn path_file_name(path: &str) -> (r: Option<String>)
    ensures
        r matches Some(n) ==> is_normal_name(n@),
        plain_path(path@) ==> opt_text(r) == file_name_of(path@),
        ends_in_name(path@) ==> r is Some,
        r matches Some(n) ==> (ends_in_name(path@) ==> n@.is_suffix_of(path@) && !n@.contains('/') && after_last_sep(path@).is_suffix_of(n@)),
{
    match std::path::Path::new(path).file_name() {
        Some(n) => Some(n.to_string_lossy().into_owned()),
        None => None,
    }
}

/// The last of `Path::components` of a path given as text, as text. How a path
/// splits into components depends on the platform, and so does the text of a root
/// component. Claimed: an empty path has no components, and the last component of
/// a plain path with a named segment is its last named segment.
#[verifier::external_body]
fn path_last_component(path: &str) -> (r: Option<String>)
    ensures
        path@.len() == 0 ==> r is None,
        plain_path(path@) && named_segments(path@).len() > 0 ==> opt_text(r) == Some(
            named_segments(path@).last(),
        ),
{
    match std::path::Path::new(path).components().next_back() {
        Some(c) => Some(c.as_os_str().to_string_lossy().into_owned()),
        None => None,
    }
}

/// The texts of the normal components among the parts, in order.
pub open spec fn normal_parts_spec(parts: Seq<PathPart>) -> Seq<Seq<char>>
    decreases parts.len(),
{
    if parts.len() == 0 {
        Seq::empty()
    } else {
        let prev = normal_parts_spec(parts.drop_last());
        match parts.last() {
            PathPart::Normal(v) => prev.push(v@),
            _ => prev,
        }
    }
}

proof fn lemma_normal_parts_names(parts: Seq<PathPart>, k: int)
    requires
        forall|i: int| 0 <= i < parts.len() ==> (#[trigger] parts[i] matches PathPart::Normal(v) ==> is_normal_name(v@)),
        0 <= k < normal_parts_spec(parts).len(),
    ensures
        is_normal_name(normal_parts_spec(parts)[k]),
    decreases parts.len(),
{
    let prev = normal_parts_spec(parts.drop_last());
    if k < prev.len() {
        assert forall|i: int| 0 <= i < parts.drop_last().len() implies (#[trigger] parts.drop_last()[i] matches PathPart::Normal(v) ==> is_normal_name(v@)) by {
            assert(parts.drop_last()[i] == parts[i]);
        }
        lemma_normal_parts_names(parts.drop_last(), k);
    } else {
        assert(parts[parts.len() - 1] == parts.last());
    }
}

/// The texts of the normal components among the parts (no root, `.`, `..` or
/// prefix), in order.
pub fn normal_parts(parts: &Vec<PathPart>) -> (r: Vec<String>)
    ensures
        crate::config::strings_view(r@) == normal_parts_spec(parts@),
{
    let mut out: Vec<String> = Vec::new();
    let n = parts.len();
    for i in 0..n
        invariant
            n == parts@.len(),
            crate::config::strings_view(out@) == normal_parts_spec(parts@.take(i as int)),
    {
        assert(parts@.take(i + 1).drop_last() =~= parts@.take(i as int));
        match &parts[i] {
            PathPart::Normal(v) => {
                let ghost before = out@;
                out.push(v.clone());
                assert(crate::config::strings_view(out@) =~= crate::config::strings_view(before).push(v@));
            },
            _ => {},
        }
    }
    assert(parts@.take(n as int) =~= parts@);
    out
}

/// The normal components of a path (no root, `.`, `..` or prefix), in order.
pub fn normal_path_components(path: &str) -> (r: Vec<String>)
    ensures
        exists|parts: Seq<PathPart>| crate::config::strings_view(r@) == normal_parts_spec(parts),
        forall|k: int| 0 <= k < r@.len() ==> is_normal_name(#[trigger] r@[k]@),
        plain_path(path@) ==> crate::config::strings_view(r@) == slash_parts(path@),
{
    let parts = path_components(path);
    let r = normal_parts(&parts);
    assert forall|k: int| 0 <= k < r@.len() implies is_normal_name(#[trigger] r@[k]@) by {
        assert(crate::config::strings_view(r@)[k] == r@[k]@);
        lemma_normal_parts_names(parts@, k);
    }
    r
}

// ---------------------------------------------------------------------------
// Disk ids from folders
// ---------------------------------------------------------------------------

/// The id proposed for a folder: its file name, else its last component, else
/// `disk`, cleaned.
pub open spec fn disk_id_from_names(file_name: Option<Seq<char>>, last: Option<Seq<char>>) -> Seq<char> {
    match file_name {
        Some(n) => sanitized(n),
        None => match last {
            Some(c) => sanitized(c),
            None => sanitized("disk"@),
        },
    }
}

/// The id proposed for a folder, from its file name and its last component.
pub fn disk_id_from_parts(file_name: Option<&str>, last_component: Option<&str>) -> (r: String)
    ensures
        r@ == disk_id_from_names(
            match file_name {
                Some(n) => Some(n@),
                None => None,
            },
            match last_component {
                Some(c) => Some(c@),
                None => None,
            },
        ),
{
    match file_name {
        Some(n) => sanitize_disk_id(n),
        None => match last_component {
            Some(c) => sanitize_disk_id(c),
            None => sanitize_disk_id("disk"),
        },
    }
}

/// The id proposed for a folder that is about to be scanned: the folder's name
/// without whitespace.
pub fn default_disk_id_for_path(path: &str) -> (r: String)
    ensures
        exists|n: Option<Seq<char>>, c: Option<Seq<char>>| r@ == disk_id_from_names(n, c),
        r@.len() > 0,
        plain_path(path@) && named_segments(path@).len() > 0 ==> r@ == sanitized(
            named_segments(path@).last(),
        ),
        path@.len() == 0 ==> r@ == "disk"@,
        ends_in_name(path@) ==> exists|n: Seq<char>|
            #![trigger sanitized(n)]
            is_normal_name(n) && n.is_suffix_of(path@) && !n.contains('/') && after_last_sep(path@).is_suffix_of(n)
                && r@ == sanitized(n),
        ends_in_name(path@) && remove_where(after_last_sep(path@), whitespace_pred()).len() > 0 ==> sanitized(
            after_last_sep(path@),
        ).is_suffix_of(r@),
{
    let file_name = path_file_name(path);
    let last = path_last_component(path);
    let r = match (&file_name, &last) {
        (Some(n), _) => disk_id_from_parts(Some(n.as_str()), None),
        (None, Some(c)) => disk_id_from_parts(None, Some(c.as_str())),
        (None, None) => disk_id_from_parts(None, None),
    };
    proof {
        reveal_strlit("disk");
        let n = opt_text(file_name);
        let c = opt_text(last);
        assert(r@ == disk_id_from_names(n, c));
        if path@.len() == 0 {
            lemma_no_named_segments_in_empty_path();
            lemma_fallback_id_is_clean();
            assert(path@ =~= Seq::<char>::empty());
        }
        if ends_in_name(path@) {
            let name = file_name->0@;
            assert(r@ == sanitized(name));
            let b = after_last_sep(path@);
            if remove_where(b, whitespace_pred()).len() > 0 {
                lemma_cleaned_suffix(name, b);
            }
        }
    }
    r
}

proof fn lemma_remove_where_concat(a: Seq<char>, b: Seq<char>, drop: spec_fn(char) -> bool)
    ensures
        remove_where(a + b, drop) == remove_where(a, drop) + remove_where(b, drop),
    decreases b.len(),
{
    if b.len() == 0 {
        assert(a + b =~= a);
        assert(remove_where(a, drop) + remove_where(b, drop) =~= remove_where(a, drop));
    } else {
        lemma_remove_where_concat(a, b.drop_last(), drop);
        assert((a + b).drop_last() =~= a + b.drop_last());
        assert((a + b).last() == b.last());
        if !drop(b.last()) {
            assert(remove_where(a, drop) + remove_where(b, drop) =~= (remove_where(a, drop) + remove_where(
                b.drop_last(),
                drop,
            )).push(b.last()));
        }
    }
}

/// Cleaning keeps the cleaned end of a name: when `tail` ends `name` and holds a
/// character other than whitespace, the cleaned name ends with the cleaned tail.
pub proof fn lemma_cleaned_suffix(name: Seq<char>, tail: Seq<char>)
    requires
        tail.is_suffix_of(name),
        remove_where(tail, whitespace_pred()).len() > 0,
    ensures
        sanitized(tail).is_suffix_of(sanitized(name)),
{
    let ws = whitespace_pred();
    let head = name.take(name.len() - tail.len());
    assert(name =~= head + tail);
    lemma_remove_where_concat(head, tail, ws);
    let rh = remove_where(head, ws);
    let rt = remove_where(tail, ws);
    assert((rh + rt).subrange((rh + rt).len() - rt.len(), (rh + rt).len() as int) =~= rt);
}

proof fn lemma_no_named_segments_in_empty_path()
    ensures
        named_segments(Seq::<char>::empty()).len() == 0,
        plain_path(Seq::<char>::empty()),
        file_name_of(Seq::<char>::empty()) is None,
{
    let e = Seq::<char>::empty();
    let none = Seq::<Seq<char>>::empty();
    let p = names_something();
    assert(segments(e) == seq![e]);
    assert(seq![e] =~= none.push(e));
    none.lemma_filter_push(e, p);
    assert(none.filter(p).len() == 0) by {
        #[allow(deprecated)]
        none.filter_lemma(p);
    }
    assert(!e.contains('\\'));
}

// ---------------------------------------------------------------------------
// Inferring the root of an old index
// ---------------------------------------------------------------------------

/// A disk root recognized from indexed paths.
pub struct InferredDiskRoot {
    pub disk_id: String,
    pub root_path: String,
}

/// The mathematical value of a recognized disk root.
pub struct RootModel {
    pub disk_id: Seq<char>,
    pub root_path: Seq<char>,
}

impl View for InferredDiskRoot {
    type V = RootModel;

    open spec fn view(&self) -> RootModel {
        RootModel { disk_id: self.disk_id@, root_path: self.root_path@ }
    }
}

/// The view of an optional recognized root.
pub open spec fn opt_root_view(r: Option<InferredDiskRoot>) -> Option<RootModel> {
    match r {
        Some(x) => Some(x@),
        None => None,
    }
}

/// The disk root of a file, from the normal components of its path: a mounted
/// volume `/Volumes/<name>`, a user folder `/Users/<user>/<folder>`, or for other
/// absolute paths of two or more components the top folder `/<name>`.
pub open spec fn root_of_components(c: Seq<Seq<char>>, absolute: bool) -> Option<RootModel> {
    if c.len() == 0 {
        None
    } else if c[0] == "Volumes"@ && c.len() >= 2 {
        Some(RootModel { disk_id: sanitized(c[1]), root_path: "/Volumes/"@ + c[1] })
    } else if c[0] == "Users"@ && c.len() >= 3 {
        Some(RootModel { disk_id: sanitized(c[2]), root_path: "/Users/"@ + c[1] + "/"@ + c[2] })
    } else if absolute && c.len() >= 2 {
        Some(RootModel { disk_id: sanitized(c[0]), root_path: "/"@ + c[0] })
    } else {
        None
    }
}

fn concat3(a: &str, b: &str, c: &str) -> (r: String)
    ensures
        r@ == a@ + b@ + c@,
{
    let mut r = a.to_owned();
    r.append(b);
    r.append(c);
    r
}

/// The disk root of a file from the normal components of its path and whether the
/// path is absolute.
pub fn root_from_components(components: &Vec<String>, absolute: bool) -> (r: Option<InferredDiskRoot>)
    ensures
        opt_root_view(r) == root_of_components(crate::config::strings_view(components@), absolute),
{
    let ghost c = crate::config::strings_view(components@);
    if components.len() == 0 {
        return None;
    }
    assert(c[0] == components@[0]@);
    if str_eq(components[0].as_str(), "Volumes") && components.len() >= 2 {
        assert(c[1] == components@[1]@);
        let root = concat3("/Volumes/", components[1].as_str(), "");
        assert(root@ =~= "/Volumes/"@ + c[1]) by {
            reveal_strlit("");
        }
        return Some(InferredDiskRoot { disk_id: sanitize_disk_id(components[1].as_str()), root_path: root });
    }
    if str_eq(components[0].as_str(), "Users") && components.len() >= 3 {
        assert(c[1] == components@[1]@);
        assert(c[2] == components@[2]@);
        let root = concat3("/Users/", components[1].as_str(), "/");
        let mut root = root;
        root.append(components[2].as_str());
        return Some(InferredDiskRoot { disk_id: sanitize_disk_id(components[2].as_str()), root_path: root });
    }
    if absolute && components.len() >= 2 {
        let root = concat3("/", components[0].as_str(), "");
        assert(root@ =~= "/"@ + c[0]) by {
            reveal_strlit("");
        }
        return Some(InferredDiskRoot { disk_id: sanitize_disk_id(components[0].as_str()), root_path: root });
    }
    None
}

/// A recognized root (or none) of the shape that some normal components and
/// absoluteness give.
pub open spec fn root_shaped(x: Option<RootModel>) -> bool {
    exists|c: Seq<Seq<char>>, absolute: bool|
        (forall|k: int| 0 <= k < c.len() ==> is_normal_name(#[trigger] c[k]))
            && x == root_of_components(c, absolute)
}

/// What is known of the root recognized for a path: it comes from normal
/// components, and for a plain path from its `/`-separated normal segments, read
/// as absolute only when the path starts with `/`.
pub open spec fn root_fits_path(p: Seq<char>, x: Option<RootModel>) -> bool {
    &&& root_shaped(x)
    &&& plain_path(p) ==> exists|absolute: bool|
        x == root_of_components(slash_parts(p), absolute) && (absolute ==> p.len() > 0 && p[0] == '/')
}

/// The disk root of an indexed file path, when its path shows one.
pub fn infer_disk_root_from_path(path: &str) -> (r: Option<InferredDiskRoot>)
    ensures
        root_fits_path(path@, opt_root_view(r)),
{
    let components = normal_path_components(path);
    let absolute = path_is_absolute(path);
    let r = root_from_components(&components, absolute);
    let ghost c = crate::config::strings_view(components@);
    assert(opt_root_view(r) == root_of_components(c, absolute));
    assert forall|k: int| 0 <= k < c.len() implies is_normal_name(#[trigger] c[k]) by {
        assert(c[k] == components@[k]@);
    }
    assert(root_shaped(opt_root_view(r)));
    proof {
        if plain_path(path@) {
            assert(opt_root_view(r) == root_of_components(slash_parts(path@), absolute) && (absolute ==> path@.len()
                > 0 && path@[0] == '/'));
        }
    }
    r
}

/// The recognized roots, in order, leaving out the files without one.
pub open spec fn found_roots(s: Seq<Option<RootModel>>) -> Seq<RootModel>
    decreases s.len(),
{
    if s.len() == 0 {
        Seq::empty()
    } else {
        let prev = found_roots(s.drop_last());
        match s.last() {
            Some(r) => prev.push(r),
            None => prev,
        }
    }
}

/// The root shared by all files: the first recognized root, when every recognized
/// root has the same root path; nothing when no root was recognized or two differ.
pub open spec fn common_root_spec(s: Seq<Option<RootModel>>) -> Option<RootModel> {
    let f = found_roots(s);
    if f.len() == 0 {
        None
    } else if forall|k: int| 0 <= k < f.len() ==> (#[trigger] f[k]).root_path == f[0].root_path {
        Some(f[0])
    } else {
        None
    }
}

impl InferredDiskRoot {
    /// A copy of this root.
    pub fn copy(&self) -> (r: InferredDiskRoot)
        ensures
            r@ == self@,
    {
        InferredDiskRoot { disk_id: self.disk_id.clone(), root_path: self.root_path.clone() }
    }
}

/// The views of a sequence of optional roots.
pub open spec fn opt_roots_view(s: Seq<Option<InferredDiskRoot>>) -> Seq<Option<RootModel>> {
    s.map_values(|x: Option<InferredDiskRoot>| opt_root_view(x))
}

/// The root shared by the files whose roots were recognized.
pub fn common_root(roots: &Vec<Option<InferredDiskRoot>>) -> (r: Option<InferredDiskRoot>)
    ensures
        opt_root_view(r) == common_root_spec(opt_roots_view(roots@)),
{
    let ghost rv = opt_roots_view(roots@);
    let mut found: Vec<InferredDiskRoot> = Vec::new();
    let n = roots.len();
    for i in 0..n
        invariant
            n == roots@.len(),
            rv == opt_roots_view(roots@),
            found@.map_values(|x: InferredDiskRoot| x@) == found_roots(rv.take(i as int)),
    {
        let ghost before = found@;
        assert(rv.take(i + 1).drop_last() =~= rv.take(i as int));
        assert(rv.take(i + 1).last() == opt_root_view(roots@[i as int]));
        match &roots[i] {
            Some(root) => {
                found.push(root.copy());
                assert(found@.map_values(|y: InferredDiskRoot| y@) =~= before.map_values(
                    |y: InferredDiskRoot| y@,
                ).push(root@));
            },
            None => {},
        }
    }
    assert(rv.take(n as int) =~= rv);
    let ghost fm = found@.map_values(|x: InferredDiskRoot| x@);
    if found.len() == 0 {
        return None;
    }
    let m = found.len();
    for k in 1..m
        invariant
            m == found@.len(),
            m > 0,
            fm == found@.map_values(|x: InferredDiskRoot| x@),
            fm == found_roots(rv),
            rv == opt_roots_view(roots@),
            forall|j: int| 0 <= j < k ==> (#[trigger] fm[j]).root_path == fm[0].root_path,
    {
        if !str_eq(found[k].root_path.as_str(), found[0].root_path.as_str()) {
            assert(fm[k as int].root_path != fm[0].root_path);
            return None;
        }
    }
    Some(found[0].copy())
}

/// The root shared by all indexed paths of a disk, when they agree on one: the
/// common root of one recognized root (or none) per path.
pub fn infer_common_disk_root(paths: &Vec<String>) -> (r: Option<InferredDiskRoot>)
    ensures
        exists|s: Seq<Option<RootModel>>|
            s.len() == paths@.len() && (forall|i: int| 0 <= i < s.len() ==> root_fits_path(paths@[i]@, #[trigger] s[i]))
                && opt_root_view(r) == common_root_spec(s),
{
    let mut roots: Vec<Option<InferredDiskRoot>> = Vec::new();
    let n = paths.len();
    for i in 0..n
        invariant
            n == paths@.len(),
            roots@.len() == i,
            forall|j: int| 0 <= j < i ==> root_fits_path(paths@[j]@, #[trigger] opt_roots_view(roots@)[j]),
    {
        let root = infer_disk_root_from_path(paths[i].as_str());
        let ghost before = roots@;
        roots.push(root);
        assert forall|j: int| 0 <= j < i + 1 implies root_fits_path(paths@[j]@, #[trigger] opt_roots_view(roots@)[j]) by {
            if j < i {
                assert(opt_roots_view(roots@)[j] == opt_roots_view(before)[j]);
            }
        }
    }
    let r = common_root(&roots);
    assert(opt_roots_view(roots@).len() == n);
    r
}

/// Ids that older versions gave to every scan.
pub open spec fn is_placeholder(disk_id: Seq<char>) -> bool {
    disk_id == "main"@ || disk_id == "disk"@
}

/// Whether an id is one that older versions gave to every scan (`main`, `disk`).
pub fn is_legacy_placeholder_id(disk_id: &str) -> (r: bool)
    ensures
        r == is_placeholder(disk_id@),
{
    str_eq(disk_id, "main") || str_eq(disk_id, "disk")
}

/// What repairing an old disk record does.
#[derive(Debug, Clone, Copy, PartialEq, Eq, Structural)]
pub enum RepairAction {
    /// Move the files and the record to the recognized id, and record the root.
    Rename,
    /// Keep the id and record the recognized root.
    UpdateRoot,
}

/// Whether an old record should move to the recognized id: its id is a
/// placeholder and differs from the recognized one.
pub open spec fn wants_rename_spec(disk_id: Seq<char>, root: RootModel) -> bool {
    is_placeholder(disk_id) && root.disk_id != disk_id
}

/// Whether an old record with id `disk_id` should move to the recognized id.
pub fn wants_rename(disk_id: &str, root: &InferredDiskRoot) -> (r: bool)
    ensures
        r == wants_rename_spec(disk_id@, root@),
{
    is_legacy_placeholder_id(disk_id) && !str_eq(root.disk_id.as_str(), disk_id)
}

/// The repair of an old record: a rename when it wants one and no record has the
/// recognized id yet, else recording the root under the old id.
pub fn repair_action(disk_id: &str, root: &InferredDiskRoot, target_exists: bool) -> (r: RepairAction)
    ensures
        r == (if wants_rename_spec(disk_id@, root@) && !target_exists {
            RepairAction::Rename
        } else {
            RepairAction::UpdateRoot
        }),
{
    if wants_rename(disk_id, root) && !target_exists {
        RepairAction::Rename
    } else {
        RepairAction::UpdateRoot
    }
}

/// Whether a `files` table created by `sql` still uses the old layout, keyed by
/// path alone.
pub fn needs_files_table_migration(sql: &str) -> (r: bool)
    ensures
        r == crate::text::contains_seq(sql@, "path TEXT PRIMARY KEY"@),
{
    crate::text::contains_str(sql, "path TEXT PRIMARY KEY")
}

} // verus!
