//! File-system path operations of std, on paths held as strings.

use vstd::prelude::*;

use crate::text::{eq_ascii_case_insensitive, eq_ignore_ascii_case};

verus! {

/// `std::path::Path::file_stem` of `path`, converted losslessly to a string.
pub uninterp spec fn file_stem_of(path: Seq<char>) -> Option<Seq<char>>;

/// `std::path::Path::extension` of `path`, converted losslessly to a string.
pub uninterp spec fn extension_of(path: Seq<char>) -> Option<Seq<char>>;

/// `std::path::Path::parent` of `path`.
pub uninterp spec fn parent_of(path: Seq<char>) -> Option<Seq<char>>;

/// `std::path::Path::join` of `base` and `rel`.
pub uninterp spec fn joined(base: Seq<char>, rel: Seq<char>) -> Seq<char>;

/// Calls `std::path::Path::file_stem` on `path` and converts the stem to a string.
/// Claimed: the result is `file_stem_of(path)`.
#[verifier::external_body]
pub(crate) fn file_stem(path: &str) -> (r: Option<String>)
    ensures
        r is Some <==> file_stem_of(path@) is Some,
        r matches Some(s) ==> s@ == file_stem_of(path@)->0,
{
    std::path::Path::new(path).file_stem().map(|s| s.to_string_lossy().into_owned())
}

/// Calls `std::path::Path::extension` on `path` and converts it to a string. Claimed: the
/// result is `extension_of(path)`.
#[verifier::external_body]
pub(crate) fn extension(path: &str) -> (r: Option<String>)
    ensures
        r is Some <==> extension_of(path@) is Some,
        r matches Some(s) ==> s@ == extension_of(path@)->0,
{
    std::path::Path::new(path).extension().map(|s| s.to_string_lossy().into_owned())
}

/// Whether the extension of `path` is `ext`, up to ASCII case.
pub fn has_extension(path: &str, ext: &str) -> (r: bool)
    ensures
        r == (extension_of(path@) is Some && eq_ascii_case_insensitive(
            extension_of(path@)->0,
            ext@,
        )),
{
    match extension(path) {
        Some(e) => eq_ignore_ascii_case(e.as_str(), ext),
        None => false,
    }
}

/// Calls `std::path::Path::parent` on `path`. Claimed: the result is `parent_of(path)`.
#[verifier::external_body]
pub(crate) fn parent(path: &str) -> (r: Option<String>)
    ensures
        r is Some <==> parent_of(path@) is Some,
        r matches Some(s) ==> s@ == parent_of(path@)->0,
{
    std::path::Path::new(path).parent().map(|p| p.to_string_lossy().into_owned())
}

/// Calls `std::path::Path::join` on `base` and `rel`. Claimed: the result is
/// `joined(base, rel)`.
#[verifier::external_body]
pub(crate) fn join(base: &str, rel: &str) -> (r: String)
    ensures
        r@ == joined(base@, rel@),
{
    std::path::Path::new(base).join(rel).to_string_lossy().into_owned()
}

} // verus!
