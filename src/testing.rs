//! Locating test classes.
use vstd::prelude::*;
use crate::text::has_char;

verus! {

/// The part of a bare file name before its last `.`, or the whole name
/// when it has no `.` after the first character.
pub open spec fn stem_spec(name: Seq<char>) -> Seq<char> {
    if exists|i: int| 0 < i < name.len() && name[i] == '.' {
        name.subrange(
            0,
            choose|i: int|
                0 < i < name.len() && name[i] == '.' && forall|j: int|
                    i < j < name.len() ==> name[j] != '.',
        )
    } else {
        name
    }
}

/// A file name without directory or drive: non-empty, not `.` or `..`, no
/// `/`, `\` or `:`.
pub open spec fn bare_name(p: Seq<char>) -> bool {
    p.len() > 0 && p != "."@ && p != ".."@ && !has_char(p, '/') && !has_char(p, '\\') && !has_char(
        p,
        ':',
    )
}

/// Relies on `Path::file_stem`: for a bare file name, the part before the
/// last `.` unless that `.` is the first character.
#[verifier::external_body]
fn file_stem(path: &str) -> (r: Option<String>)
    ensures
        bare_name(path@) ==> r is Some,
        bare_name(path@) ==> r->0@ == stem_spec(path@),
{
    std::path::Path::new(path).file_stem().and_then(|s| s.to_str()).map(|s| s.to_owned())
}

/// The class a test source file declares, named after the file: the file
/// name without its extension.
pub fn extract_class_name(path: &str) -> (r: Option<String>)
    ensures
        bare_name(path@) ==> (r matches Some(s) && s@ == stem_spec(path@)),
{
    file_stem(path)
}

} // verus!
