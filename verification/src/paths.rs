//! File names and extensions of paths given as text.
use vstd::prelude::*;

verus! {

/// What `Path::file_name` gives for `path`, when the name is valid Unicode.
pub uninterp spec fn spec_file_name(path: Seq<char>) -> Option<Seq<char>>;

/// What `Path::extension` gives for `path`, when it is valid Unicode.
pub uninterp spec fn spec_extension(path: Seq<char>) -> Option<Seq<char>>;

/// `Path::file_name`: the last component of `path`, as text. The contract
/// names the result; the rules by which std splits a path are left to std.
#[verifier::external_body]
pub(crate) fn file_name(path: &str) -> (r: Option<String>)
    ensures
        r.deep_view() == spec_file_name(path@),
{
    std::path::Path::new(path).file_name().and_then(|n| n.to_str()).map(|n| n.to_string())
}

/// `Path::extension`: the extension of the last component of `path`, as
/// text. The contract names the result; the rules by which std finds it are
/// left to std.
#[verifier::external_body]
pub(crate) fn extension(path: &str) -> (r: Option<String>)
    ensures
        r.deep_view() == spec_extension(path@),
{
    std::path::Path::new(path).extension().and_then(|e| e.to_str()).map(|e| e.to_string())
}

} // verus!
