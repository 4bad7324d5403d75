//! The path operations of std that the library uses, on UTF-8 paths.
//!
//! Their results are named, not spelled out: `Path` splits into components
//! with rules for separators, `.`, `..` and prefixes that take pages to state.
use vstd::prelude::*;

verus! {

/// What `Path::join` gives for these two paths.
pub uninterp spec fn path_join_spec(base: Seq<char>, part: Seq<char>) -> Seq<char>;

/// What `Path::file_name` gives for this path.
pub uninterp spec fn path_file_name_spec(path: Seq<char>) -> Option<Seq<char>>;

/// What `PathBuf::set_file_name` makes of this path and file name.
pub uninterp spec fn path_with_file_name_spec(path: Seq<char>, name: Seq<char>) -> Seq<char>;

/// What `Path::parent` gives for this path.
pub uninterp spec fn path_parent_spec(path: Seq<char>) -> Option<Seq<char>>;

/// A name without `/`, `\` and `:` (a separator, or a drive prefix on
/// Windows).
pub open spec fn no_separator(n: Seq<char>) -> bool {
    forall|i: int| 0 <= i < n.len() ==> #[trigger] n[i] != '/' && n[i] != '\\' && n[i] != ':'
}

/// A file name that stands as one component: not empty, not `.` or `..`,
/// and without a separator.
pub open spec fn plain_name(n: Seq<char>) -> bool {
    &&& n.len() > 0
    &&& n != seq!['.']
    &&& n != seq!['.', '.']
    &&& no_separator(n)
}

/// Calls `Path::join`; the result is the named [`path_join_spec`] of the two
/// paths. Joining two UTF-8 paths gives a UTF-8 path, so the text is kept
/// whole.
#[verifier::external_body]
pub(crate) fn path_join(base: &str, part: &str) -> (r: String)
    ensures
        r@ == path_join_spec(base@, part@),
{
    std::path::Path::new(base).join(part).to_string_lossy().into_owned()
}

/// Calls `Path::file_name`; the result is the named [`path_file_name_spec`]
/// of the path. The file name of a UTF-8 path is UTF-8.
#[verifier::external_body]
pub(crate) fn path_file_name(path: &str) -> (r: Option<String>)
    ensures
        match (r, path_file_name_spec(path@)) {
            (Some(x), Some(y)) => x@ == y,
            (None, None) => true,
            _ => false,
        },
{
    std::path::Path::new(path).file_name().map(|n| n.to_string_lossy().into_owned())
}

/// Calls `PathBuf::set_file_name` on the path; the result is the named
/// [`path_with_file_name_spec`] of the path and the name. As std documents,
/// when the path has a file name, setting a plain name (see
/// [`plain_name`]) gives a path with that file name and the same parent:
/// the parent with the name pushed onto it. Of other paths and names
/// nothing more is said.
#[verifier::external_body]
pub(crate) fn path_with_file_name(path: &str, name: &str) -> (r: String)
    ensures
        r@ == path_with_file_name_spec(path@, name@),
        path_file_name_spec(path@) is Some && plain_name(name@) ==> {
            &&& path_file_name_spec(r@) == Some(name@)
            &&& path_parent_spec(r@) == path_parent_spec(path@)
            &&& (path_parent_spec(path@) matches Some(d) ==> r@ == path_join_spec(d, name@))
        },
{
    let mut p = std::path::PathBuf::from(path);
    p.set_file_name(name);
    p.to_string_lossy().into_owned()
}

/// Calls `Path::parent`; the result is the named [`path_parent_spec`] of
/// the path. The parent of a UTF-8 path is UTF-8.
#[verifier::external_body]
pub(crate) fn path_parent(path: &str) -> (r: Option<String>)
    ensures
        match (r, path_parent_spec(path@)) {
            (Some(x), Some(y)) => x@ == y,
            (None, None) => true,
            _ => false,
        },
{
    std::path::Path::new(path).parent().map(|d| d.to_string_lossy().into_owned())
}

} // verus!
