//! Deciding whether a dependency has a newer version.
use vstd::prelude::*;
use crate::descriptor::{latest_version_of, SearchResult};
use crate::text::str_eq;

verus! {

/// How a dependency compares with what the search reported.
#[derive(Debug, PartialEq, Eq)]
pub enum UpdateStatus {
    /// The latest version is the one required.
    UpToDate,
    /// A different latest version exists.
    Outdated(String),
    /// The search reported nothing for exactly this group and artifact.
    NotFound,
}

/// Compares the required `current` version of `group:artifact` with the
/// first search hit for exactly that group and artifact.
pub fn update_status(results: &Vec<SearchResult>, group: &str, artifact: &str, current: &str) -> (r: UpdateStatus)
    ensures
        (r == UpdateStatus::NotFound) <==> !exists|i: int|
            0 <= i < results@.len() && results@[i].g@ == group@ && results@[i].a@ == artifact@,
        r matches UpdateStatus::Outdated(v) ==> v@ != current@ && exists|i: int|
            0 <= i < results@.len() && results@[i].g@ == group@ && results@[i].a@ == artifact@
                && v@ == results@[i].latest_version@ && forall|j: int|
                0 <= j < i ==> !(#[trigger] results@[j].g@ == group@ && results@[j].a@ == artifact@),
        r == UpdateStatus::UpToDate ==> exists|i: int|
            0 <= i < results@.len() && results@[i].g@ == group@ && results@[i].a@ == artifact@
                && current@ == results@[i].latest_version@ && forall|j: int|
                0 <= j < i ==> !(#[trigger] results@[j].g@ == group@ && results@[j].a@ == artifact@),
{
    match latest_version_of(results, group, artifact) {
        None => UpdateStatus::NotFound,
        Some(v) => {
            if str_eq(v.as_str(), current) {
                UpdateStatus::UpToDate
            } else {
                UpdateStatus::Outdated(v)
            }
        },
    }
}

} // verus!
