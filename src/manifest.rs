//! The project manifest: package information and the direct dependencies,
//! a map from `group:artifact` to a literal version.
use vstd::prelude::*;
use crate::coordinate::key2;
use crate::table::{has_key, lemma_table_index, lemma_table_push, lemma_table_remove, lemma_table_set, table_map, unique_keys};
use crate::text::{ends_with, ends_with_spec, split_on, split_spec, str_eq, views};

verus! {

pub struct PackageInfo {
    pub name: String,
    pub version: String,
    pub description: Option<String>,
}

/// The manifest. `dependencies` holds each key at most once (see `wf`); its
/// order carries no meaning.
pub struct Manifest {
    pub package: PackageInfo,
    pub dependencies: Vec<(String, String)>,
}

/// A manifest that breaks its invariant.
#[derive(Debug, PartialEq, Eq)]
pub enum ManifestError {
    /// A dependency key that is not `group:artifact` with both parts non-empty.
    MalformedKey(String),
}

pub open spec fn entry_views(v: Seq<(String, String)>) -> Seq<(Seq<char>, Seq<char>)> {
    v.map_values(|e: (String, String)| (e.0@, e.1@))
}

/// A dependency key that is `group:artifact` with both parts non-empty.
pub open spec fn valid_dep_key(k: Seq<char>) -> bool {
    let p = split_spec(k, ':');
    p.len() == 2 && p[0].len() > 0 && p[1].len() > 0
}

/// Whether `k` designates the dependency `name`: `k` is `name`, or ends in
/// `:name`.
pub open spec fn designates(k: Seq<char>, name: Seq<char>) -> bool {
    k == name || ends_with_spec(k, seq![':'] + name)
}

impl Manifest {
    pub open spec fn entries(&self) -> Seq<(Seq<char>, Seq<char>)> {
        entry_views(self.dependencies@)
    }

    /// Keys are unique.
    pub open spec fn wf(&self) -> bool {
        unique_keys(self.entries())
    }

    /// The dependencies as a map from key to version.
    pub open spec fn deps(&self) -> Map<Seq<char>, Seq<char>> {
        table_map(self.entries())
    }

    /// A manifest for package `name` at `version`, with no dependencies.
    pub fn new(name: &str, version: &str) -> (r: Manifest)
        ensures
            r.package.name@ == name@,
            r.package.version@ == version@,
            r.package.description is None,
            r.dependencies@.len() == 0,
            r.wf(),
    {
        Manifest {
            package: PackageInfo {
                name: name.to_owned(),
                version: version.to_owned(),
                description: None,
            },
            dependencies: Vec::new(),
        }
    }

    /// The position of `key`, if present.
    pub fn position(&self, key: &str) -> (r: Option<usize>)
        requires
            self.wf(),
        ensures
            r matches Some(i) ==> i < self.dependencies@.len() && self.dependencies@[i as int].0@ == key@,
            r is None ==> !self.deps().contains_key(key@),
    {
        let mut i: usize = 0;
        while i < self.dependencies.len()
            invariant
                i <= self.dependencies@.len(),
                forall|j: int| 0 <= j < i ==> #[trigger] self.dependencies@[j].0@ != key@,
            decreases self.dependencies@.len() - i,
        {
            if str_eq(self.dependencies[i].0.as_str(), key) {
                return Some(i);
            }
            i = i + 1;
        }
        proof {
            if has_key(self.entries(), key@) {
                let j = choose|j: int| 0 <= j < self.entries().len() && #[trigger] self.entries()[j].0 == key@;
                assert(self.dependencies@[j].0@ == key@);
            }
        }
        None
    }

    /// The version required for `key`.
    pub fn version_of(&self, key: &str) -> (r: Option<String>)
        requires
            self.wf(),
        ensures
            match r {
                Some(v) => self.deps().contains_key(key@) && self.deps()[key@] == v@,
                None => !self.deps().contains_key(key@),
            },
    {
        match self.position(key) {
            Some(i) => {
                proof { self.lemma_index_in_deps(i as int); }
                Some(self.dependencies[i].1.clone())
            },
            None => None,
        }
    }

    pub proof fn lemma_index_in_deps(&self, i: int)
        requires
            self.wf(),
            0 <= i < self.dependencies@.len(),
        ensures
            self.deps().contains_key(self.dependencies@[i].0@),
            self.deps()[self.dependencies@[i].0@] == self.dependencies@[i].1@,
    {
        lemma_table_index(self.entries(), i);
    }

    /// Requires `version` for `key`, in place of any version it had.
    pub fn set_dependency(&mut self, key: String, version: String)
        requires
            old(self).wf(),
        ensures
            final(self).wf(),
            final(self).deps() == old(self).deps().insert(key@, version@),
            final(self).package == old(self).package,
    {
        let ghost before = self.entries();
        let ghost k = key@;
        let ghost v = version@;
        match self.position(key.as_str()) {
            Some(i) => {
                self.dependencies.set(i, (key, version));
                proof {
                    assert(self.entries() =~= before.update(i as int, (before[i as int].0, v)));
                    lemma_table_set(before, i as int, v);
                }
            },
            None => {
                self.dependencies.push((key, version));
                proof {
                    assert(self.entries() =~= before.push((k, v)));
                    lemma_table_push(before, k, v);
                }
            },
        }
    }

    /// Drops the dependency `key`; says whether it was there.
    pub fn remove_dependency(&mut self, key: &str) -> (r: bool)
        requires
            old(self).wf(),
        ensures
            final(self).wf(),
            r == old(self).deps().contains_key(key@),
            final(self).deps() == old(self).deps().remove(key@),
            final(self).package == old(self).package,
    {
        let ghost before = self.entries();
        match self.position(key) {
            Some(i) => {
                proof { self.lemma_index_in_deps(i as int); }
                self.dependencies.remove(i);
                proof {
                    assert(self.entries() =~= before.remove(i as int));
                    lemma_table_remove(before, i as int);
                }
                true
            },
            None => {
                assert(self.deps() =~= old(self).deps().remove(key@));
                false
            },
        }
    }

    /// The dependency that `name` designates: the key `name` itself if
    /// present, else the first key in order that ends in `:name`.
    pub fn find_dependency(&self, name: &str) -> (r: Option<String>)
        requires
            self.wf(),
        ensures
            self.deps().contains_key(name@) ==> (r matches Some(k) && k@ == name@),
            !self.deps().contains_key(name@) ==> match r {
                Some(k) => exists|i: int| 0 <= i < self.dependencies@.len() && self.dependencies@[i].0@ == k@
                    && designates(k@, name@)
                    && forall|j: int| 0 <= j < i ==> !designates(#[trigger] self.dependencies@[j].0@, name@),
                None => forall|j: int| 0 <= j < self.dependencies@.len() ==> !designates(#[trigger] self.dependencies@[j].0@, name@),
            },
    {
        if let Some(i) = self.position(name) {
            proof {
                self.lemma_index_in_deps(i as int);
            }
            return Some(name.to_owned());
        }
        let mut suffix = String::new();
        suffix.append(":");
        suffix.append(name);
        proof { reveal_strlit(":"); assert(suffix@ =~= seq![':'] + name@); }
        let mut i: usize = 0;
        while i < self.dependencies.len()
            invariant
                i <= self.dependencies@.len(),
                suffix@ == seq![':'] + name@,
                self.wf(),
                !self.deps().contains_key(name@),
                forall|j: int| 0 <= j < i ==> !designates(#[trigger] self.dependencies@[j].0@, name@),
            decreases self.dependencies@.len() - i,
        {
            proof { self.lemma_index_in_deps(i as int); }
            if ends_with(self.dependencies[i].0.as_str(), suffix.as_str()) {
                return Some(self.dependencies[i].0.clone());
            }
            i = i + 1;
        }
        None
    }

    /// Checks that every key is `group:artifact` with both parts non-empty;
    /// reports the first that is not.
    pub fn validate(&self) -> (r: Result<(), ManifestError>)
        ensures
            r is Ok <==> forall|i: int| 0 <= i < self.dependencies@.len() ==> valid_dep_key(#[trigger] self.dependencies@[i].0@),
            r matches Err(ManifestError::MalformedKey(k)) ==> !valid_dep_key(k@) && exists|i: int| 0 <= i < self.dependencies@.len() && self.dependencies@[i].0@ == k@,
    {
        let mut i: usize = 0;
        while i < self.dependencies.len()
            invariant
                i <= self.dependencies@.len(),
                forall|j: int| 0 <= j < i ==> valid_dep_key(#[trigger] self.dependencies@[j].0@),
            decreases self.dependencies@.len() - i,
        {
            if split_dep_key(self.dependencies[i].0.as_str()).is_none() {
                return Err(ManifestError::MalformedKey(self.dependencies[i].0.clone()));
            }
            i = i + 1;
        }
        Ok(())
    }
}

/// Splits a dependency key `group:artifact`.
pub fn split_dep_key(key: &str) -> (r: Option<(String, String)>)
    ensures
        r is Some <==> valid_dep_key(key@),
        r matches Some(p) ==> p.0@ == split_spec(key@, ':')[0] && p.1@ == split_spec(key@, ':')[1],
{
    let parts = split_on(key, ':');
    proof { assert(views(parts@).len() == parts@.len()); }
    if parts.len() == 2 {
        proof {
            assert(views(parts@)[0] == parts@[0]@);
            assert(views(parts@)[1] == parts@[1]@);
        }
        if parts[0].as_str().is_empty() || parts[1].as_str().is_empty() {
            return None;
        }
        Some((parts[0].clone(), parts[1].clone()))
    } else {
        None
    }
}

/// The key under which the manifest records `group:artifact`.
pub fn dep_key_of(group: &str, artifact: &str) -> (r: String)
    ensures
        r@ == group@ + seq![':'] + artifact@,
{
    key2(group, artifact)
}

} // verus!
