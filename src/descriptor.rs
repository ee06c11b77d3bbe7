//! What the remote repository describes: per-artifact descriptors, the
//! version metadata of an artifact, and search results.
use vstd::prelude::*;
use crate::coordinate::{canonical_of, key2, key3};
use crate::text::{contains_pair, has_pair, str_eq};

verus! {

/// One dependency listed by a descriptor.
pub struct Dependency {
    pub group_id: String,
    pub artifact_id: String,
    pub version: Option<String>,
    pub scope: Option<String>,
}

/// The dependency list of a descriptor.
pub struct Dependencies {
    pub dependency: Vec<Dependency>,
}

/// A parsed descriptor.
pub struct Project {
    pub group_id: Option<String>,
    pub artifact_id: String,
    pub version: Option<String>,
    pub dependencies: Dependencies,
}

/// The version list of one artifact.
pub struct Versions {
    pub version: Vec<String>,
}

pub struct Versioning {
    pub latest: Option<String>,
    pub release: Option<String>,
    pub versions: Versions,
}

/// The metadata the repository keeps for one artifact.
pub struct MavenMetadata {
    pub group_id: String,
    pub artifact_id: String,
    pub versioning: Versioning,
}

/// One hit of a search: an artifact and its latest version.
pub struct SearchResult {
    pub id: String,
    pub g: String,
    pub a: String,
    pub latest_version: String,
}

/// A dependency as plain values.
pub struct DependencyView {
    pub group_id: Seq<char>,
    pub artifact_id: Seq<char>,
    pub version: Option<Seq<char>>,
    pub scope: Option<Seq<char>>,
}

pub open spec fn opt_view(o: Option<String>) -> Option<Seq<char>> {
    match o {
        Some(s) => Some(s@),
        None => None,
    }
}

impl View for Dependency {
    type V = DependencyView;

    open spec fn view(&self) -> DependencyView {
        DependencyView {
            group_id: self.group_id@,
            artifact_id: self.artifact_id@,
            version: opt_view(self.version),
            scope: opt_view(self.scope),
        }
    }
}

impl Project {
    /// The dependencies this descriptor lists, in order.
    pub open spec fn deps(&self) -> Seq<DependencyView> {
        self.dependencies.dependency@.map_values(|d: Dependency| d@)
    }
}

/// A version that names an upstream property, which is not evaluated.
pub open spec fn is_interpolated(v: Seq<char>) -> bool {
    has_pair(v, '$', '{')
}

pub open spec fn is_test_scope(d: DependencyView) -> bool {
    d.scope == Some("test"@)
}

/// A dependency that resolution follows: not test-scoped, with a literal
/// version.
pub open spec fn accepted(d: DependencyView) -> bool {
    !is_test_scope(d) && d.version is Some && !is_interpolated(d.version->0)
}

/// The coordinate a dependency with a version names.
pub open spec fn dep_key(d: DependencyView) -> Seq<char> {
    canonical_of(d.group_id, d.artifact_id, d.version->0)
}

impl Dependency {
    /// Whether resolution follows this dependency.
    pub fn is_accepted(&self) -> (r: bool)
        ensures
            r == accepted(self@),
    {
        if let Some(scope) = &self.scope {
            if str_eq(scope.as_str(), "test") {
                return false;
            }
        }
        match &self.version {
            Some(v) => !contains_pair(v.as_str(), '$', '{'),
            None => false,
        }
    }

    /// `group:artifact:version`, for a dependency that has a version.
    pub fn key(&self) -> (r: String)
        requires
            self.version is Some,
        ensures
            r@ == dep_key(self@),
    {
        match &self.version {
            Some(v) => key3(self.group_id.as_str(), self.artifact_id.as_str(), v.as_str()),
            None => String::new(),
        }
    }
}

impl SearchResult {
    /// `group:artifact (latest)`, how a hit is offered for selection.
    pub fn label(&self) -> (r: String)
        ensures
            r@ == self.g@ + seq![':'] + self.a@ + " ("@ + self.latest_version@ + ")"@,
    {
        let mut out = key2(self.g.as_str(), self.a.as_str());
        out.append(" (");
        out.append(self.latest_version.as_str());
        out.append(")");
        out
    }
}

/// The latest version that the search results give for `group:artifact`:
/// that of the first hit with exactly that group and artifact.
pub fn latest_version_of(results: &Vec<SearchResult>, group: &str, artifact: &str) -> (r: Option<String>)
    ensures
        r is Some <==> exists|i: int| 0 <= i < results@.len() && results@[i].g@ == group@ && results@[i].a@ == artifact@,
        r matches Some(v) ==> exists|i: int| 0 <= i < results@.len() && results@[i].g@ == group@
            && results@[i].a@ == artifact@ && v@ == results@[i].latest_version@
            && forall|j: int| 0 <= j < i ==> !(#[trigger] results@[j].g@ == group@ && results@[j].a@ == artifact@),
{
    let mut i: usize = 0;
    while i < results.len()
        invariant
            i <= results@.len(),
            forall|j: int| 0 <= j < i ==> !(#[trigger] results@[j].g@ == group@ && results@[j].a@ == artifact@),
        decreases results@.len() - i,
    {
        if str_eq(results[i].g.as_str(), group) && str_eq(results[i].a.as_str(), artifact) {
            return Some(results[i].latest_version.clone());
        }
        i = i + 1;
    }
    None
}

} // verus!
