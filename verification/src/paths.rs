//! Path arithmetic, done by `std::path`. Nothing here touches the disk.

use vstd::prelude::*;
use vstd::string::*;

verus! {

/// The path that `Path::join` makes of `base` and `rel`.
pub uninterp spec fn joined_path(base: Seq<char>, rel: Seq<char>) -> Seq<char>;

/// Whether `Path::starts_with` finds `base` to be a prefix of `path`,
/// component by component.
pub uninterp spec fn path_within(path: Seq<char>, base: Seq<char>) -> bool;

/// The final component of `path`, as `Path::file_name` gives it.
pub uninterp spec fn path_file_name(path: Seq<char>) -> Option<Seq<char>>;

/// The final component of `path` without its extension, as `Path::file_stem`
/// gives it.
pub uninterp spec fn path_file_stem(path: Seq<char>) -> Option<Seq<char>>;

/// What is left of `path` behind `base`, as `Path::strip_prefix` gives it.
pub uninterp spec fn path_behind(path: Seq<char>, base: Seq<char>) -> Option<Seq<char>>;

/// The extension of `path`, as `Path::extension` gives it.
pub uninterp spec fn path_extension(path: Seq<char>) -> Option<Seq<char>>;

/// `Path::extension`: what follows the last dot of the final component.
#[verifier::external_body]
pub(crate) fn extension_of(path: &str) -> (r: Option<String>)
    ensures
        r.deep_view() == path_extension(path@),
{
    std::path::Path::new(path).extension().map(|s| s.to_string_lossy().to_string())
}

/// Whether `c` separates the components of a path, as
/// `std::path::is_separator` reports it.
pub uninterp spec fn path_separator(c: char) -> bool;

/// `std::path::is_separator`: whether `c` separates the components of a path
/// on this platform.
#[verifier::external_body]
pub(crate) fn is_separator(c: char) -> (r: bool)
    ensures
        r == path_separator(c),
{
    std::path::is_separator(c)
}

/// `Path::join`: `base` with `rel` adjoined.
#[verifier::external_body]
pub(crate) fn join_path(base: &str, rel: &str) -> (r: String)
    ensures
        r@ == joined_path(base@, rel@),
{
    std::path::Path::new(base).join(rel).to_string_lossy().to_string()
}

/// `Path::starts_with`: whether `base` is a prefix of `path`, whole
/// components only.
#[verifier::external_body]
pub(crate) fn starts_with_path(path: &str, base: &str) -> (r: bool)
    ensures
        r == path_within(path@, base@),
{
    std::path::Path::new(path).starts_with(base)
}

/// `Path::file_name`: the final component of `path`, if it has one.
#[verifier::external_body]
pub(crate) fn file_name_of(path: &str) -> (r: Option<String>)
    ensures
        r.deep_view() == path_file_name(path@),
{
    std::path::Path::new(path).file_name().map(|s| s.to_string_lossy().to_string())
}

/// `Path::file_stem`: the final component of `path` without its extension.
#[verifier::external_body]
pub(crate) fn file_stem_of(path: &str) -> (r: Option<String>)
    ensures
        r.deep_view() == path_file_stem(path@),
{
    std::path::Path::new(path).file_stem().map(|s| s.to_string_lossy().to_string())
}

/// `Path::strip_prefix`: `path` without the prefix `base`, if it has that
/// prefix.
#[verifier::external_body]
pub(crate) fn strip_path_prefix(path: &str, base: &str) -> (r: Option<String>)
    ensures
        r.deep_view() == path_behind(path@, base@),
{
    std::path::Path::new(path).strip_prefix(base).ok().map(|p| p.to_string_lossy().to_string())
}

} // verus!
