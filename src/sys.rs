//! File-name helpers.
use vstd::prelude::*;

verus! {

/// The stem of a path given as text (its file name without the last
/// extension), if it has one.
pub uninterp spec fn file_stem_of(path: Seq<char>) -> Option<Seq<char>>;

/// Relies on `std::path::Path::file_stem`: the stem depends on the text of
/// the path alone.
#[verifier::external_body]
fn path_file_stem(path: &str) -> (r: Option<&str>)
    ensures
        match r {
            Some(s) => file_stem_of(path@) == Some(s@),
            None => file_stem_of(path@) is None,
        },
{
    std::path::Path::new(path).file_stem().and_then(|s| s.to_str())
}

/// The file name of `path` without its extension, or `None` where the path
/// names no file.
pub fn get_file_name(path: &str) -> (r: Option<&str>)
    ensures
        r is None <==> file_stem_of(path@) is None,
        r matches Some(s) ==> file_stem_of(path@) == Some(s@),
{
    path_file_stem(path)
}

} // verus!
