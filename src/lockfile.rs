//! The lock file: for each installed coordinate, its version and the
//! checksum of its archive.
use vstd::prelude::*;
use crate::checksum::{checksum, checksum_of, lemma_hex_injective, sha256_of};
use crate::table::{has_key, lemma_table_index, lemma_table_push, lemma_table_set, table_map, unique_keys};
use crate::text::{str_eq, views};

verus! {

/// The schema version this library writes.
pub const LOCK_SCHEMA_VERSION: &'static str = "1";

/// What the lock file records for one coordinate.
pub struct LockedPackage {
    pub version: String,
    /// Lowercase hex SHA-256 of the archive, or empty where the archive was
    /// absent when recorded.
    pub checksum: String,
    pub dependencies: Vec<String>,
}

pub struct LockedView {
    pub version: Seq<char>,
    pub checksum: Seq<char>,
    pub dependencies: Seq<Seq<char>>,
}

impl View for LockedPackage {
    type V = LockedView;

    open spec fn view(&self) -> LockedView {
        LockedView {
            version: self.version@,
            checksum: self.checksum@,
            dependencies: views(self.dependencies@),
        }
    }
}

/// The lock file. `packages` holds each canonical coordinate at most once
/// (see `wf`); its order carries no meaning.
pub struct LockFile {
    pub version: String,
    pub packages: Vec<(String, LockedPackage)>,
}

pub open spec fn package_views(v: Seq<(String, LockedPackage)>) -> Seq<(Seq<char>, LockedView)> {
    v.map_values(|e: (String, LockedPackage)| (e.0@, e.1@))
}

/// The checksum recorded for an archive: that of its contents, or empty
/// when it is absent.
pub open spec fn recorded_checksum(archive: Option<Seq<u8>>) -> Seq<char> {
    match archive {
        Some(b) => checksum_of(b),
        None => Seq::<char>::empty(),
    }
}

/// Whether an archive whose checksum is `actual` (`None`: absent) passes
/// against the lock `pkgs` for coordinate `key`: it does when the lock has
/// no entry for `key`, when the entry's checksum is empty, or when the
/// checksums agree.
pub open spec fn verify_spec(
    pkgs: Map<Seq<char>, LockedView>,
    key: Seq<char>,
    actual: Option<Seq<char>>,
) -> bool {
    !pkgs.contains_key(key) || pkgs[key].checksum.len() == 0 || actual == Some(
        pkgs[key].checksum,
    )
}

pub open spec fn opt_bytes(archive: Option<&[u8]>) -> Option<Seq<u8>> {
    match archive {
        Some(b) => Some(b@),
        None => None,
    }
}

pub open spec fn opt_checksum(archive: Option<Seq<u8>>) -> Option<Seq<char>> {
    match archive {
        Some(b) => Some(checksum_of(b)),
        None => None,
    }
}

impl LockFile {
    pub open spec fn entries(&self) -> Seq<(Seq<char>, LockedView)> {
        package_views(self.packages@)
    }

    /// Keys are unique.
    pub open spec fn wf(&self) -> bool {
        unique_keys(self.entries())
    }

    /// The packages as a map from canonical coordinate to record.
    pub open spec fn packages_map(&self) -> Map<Seq<char>, LockedView> {
        table_map(self.entries())
    }

    /// An empty lock file of the current schema.
    pub fn new() -> (r: LockFile)
        ensures
            r.wf(),
            r.version@ == LOCK_SCHEMA_VERSION@,
            r.packages_map() == Map::<Seq<char>, LockedView>::empty(),
    {
        let r = LockFile { version: LOCK_SCHEMA_VERSION.to_owned(), packages: Vec::new() };
        assert(r.packages_map() =~= Map::<Seq<char>, LockedView>::empty());
        r
    }

    fn position(&self, key: &str) -> (r: Option<usize>)
        ensures
            r matches Some(i) ==> i < self.packages@.len() && self.packages@[i as int].0@ == key@,
            r is None ==> !has_key(self.entries(), key@),
    {
        let mut i: usize = 0;
        while i < self.packages.len()
            invariant
                i <= self.packages@.len(),
                forall|j: int| 0 <= j < i ==> #[trigger] self.packages@[j].0@ != key@,
            decreases self.packages@.len() - i,
        {
            if str_eq(self.packages[i].0.as_str(), key) {
                return Some(i);
            }
            i = i + 1;
        }
        proof {
            if has_key(self.entries(), key@) {
                let j = choose|j: int| 0 <= j < self.entries().len() && #[trigger] self.entries()[j].0 == key@;
                assert(self.packages@[j].0@ == key@);
            }
        }
        None
    }

    /// Records `key` with the checksum of `archive` (the archive's contents,
    /// `None` when it is absent), in place of any earlier record.
    pub fn add_package(
        &mut self,
        key: String,
        version: String,
        archive: Option<&[u8]>,
        dependencies: Vec<String>,
    )
        requires
            old(self).wf(),
        ensures
            final(self).wf(),
            final(self).version == old(self).version,
            final(self).packages_map() == old(self).packages_map().insert(
                key@,
                LockedView {
                    version: version@,
                    checksum: recorded_checksum(opt_bytes(archive)),
                    dependencies: views(dependencies@),
                },
            ),
            archive is Some ==> final(self).packages_map()[key@].checksum.len() == 64,
    {
        let sum = match archive {
            Some(b) => checksum(b),
            None => String::new(),
        };
        let pkg = LockedPackage { version, checksum: sum, dependencies };
        self.insert(key, pkg);
    }

    /// Stores `pkg` as the record of `key`, in place of any earlier record.
    pub fn insert(&mut self, key: String, pkg: LockedPackage)
        requires
            old(self).wf(),
        ensures
            final(self).wf(),
            final(self).version == old(self).version,
            final(self).packages_map() == old(self).packages_map().insert(key@, pkg@),
    {
        let ghost before = self.entries();
        let ghost k = key@;
        let ghost w = pkg@;
        match self.position(key.as_str()) {
            Some(i) => {
                self.packages.set(i, (key, pkg));
                proof {
                    assert(self.entries() =~= before.update(i as int, (before[i as int].0, w)));
                    lemma_table_set(before, i as int, w);
                }
            },
            None => {
                self.packages.push((key, pkg));
                proof {
                    assert(self.entries() =~= before.push((k, w)));
                    lemma_table_push(before, k, w);
                }
            },
        }
    }

    /// The record of `key`.
    pub fn get(&self, key: &str) -> (r: Option<&LockedPackage>)
        requires
            self.wf(),
        ensures
            match r {
                Some(p) => self.packages_map().contains_key(key@) && self.packages_map()[key@] == p@,
                None => !self.packages_map().contains_key(key@),
            },
    {
        match self.position(key) {
            Some(i) => {
                proof {
                    lemma_table_index(self.entries(), i as int);
                }
                Some(&self.packages[i].1)
            },
            None => None,
        }
    }

    /// The version recorded for `key`.
    pub fn get_locked_version(&self, key: &str) -> (r: Option<&str>)
        requires
            self.wf(),
        ensures
            match r {
                Some(v) => self.packages_map().contains_key(key@) && self.packages_map()[key@].version == v@,
                None => !self.packages_map().contains_key(key@),
            },
    {
        match self.get(key) {
            Some(p) => Some(p.version.as_str()),
            None => None,
        }
    }

    /// Checks an archive whose checksum is `actual` (`None`: absent) against
    /// the record of `key`.
    pub fn verify_checksum(&self, key: &str, actual: Option<&str>) -> (r: bool)
        requires
            self.wf(),
        ensures
            r == verify_spec(
                self.packages_map(),
                key@,
                match actual {
                    Some(a) => Some(a@),
                    None => None,
                },
            ),
    {
        match self.get(key) {
            None => true,
            Some(p) => {
                if p.checksum.as_str().is_empty() {
                    true
                } else {
                    match actual {
                        Some(a) => str_eq(a, p.checksum.as_str()),
                        None => false,
                    }
                }
            },
        }
    }

    /// Checks the archive with contents `archive` (`None`: absent) against the
    /// record of `key`; the archive is hashed only when a checksum is
    /// recorded.
    pub fn verify_package(&self, key: &str, archive: Option<&[u8]>) -> (r: bool)
        requires
            self.wf(),
        ensures
            r == verify_spec(self.packages_map(), key@, opt_checksum(opt_bytes(archive))),
    {
        match self.get(key) {
            None => true,
            Some(p) => {
                if p.checksum.as_str().is_empty() {
                    true
                } else {
                    match archive {
                        Some(b) => {
                            let sum = checksum(b);
                            str_eq(sum.as_str(), p.checksum.as_str())
                        },
                        None => false,
                    }
                }
            },
        }
    }
}

/// A recorded non-empty checksum rejects an archive that hashes otherwise,
/// and an absent archive.
pub proof fn lemma_frozen_rejects_tampering(lock: &LockFile, key: Seq<char>, data: Option<Seq<u8>>)
    requires
        lock.packages_map().contains_key(key),
        lock.packages_map()[key].checksum.len() > 0,
        match data {
            Some(b) => checksum_of(b) != lock.packages_map()[key].checksum,
            None => true,
        },
    ensures
        !verify_spec(lock.packages_map(), key, opt_checksum(data)),
{
}

/// An archive recorded by `add_package` fails verification once its bytes
/// are replaced by bytes with another SHA-256 digest.
pub proof fn lemma_replaced_archive_rejected(lock: &LockFile, key: Seq<char>, b: Seq<u8>, b2: Seq<u8>)
    requires
        lock.packages_map().contains_key(key),
        lock.packages_map()[key].checksum == checksum_of(b),
        lock.packages_map()[key].checksum.len() > 0,
        sha256_of(b2) != sha256_of(b),
    ensures
        !verify_spec(lock.packages_map(), key, opt_checksum(Some(b2))),
{
    if checksum_of(b2) == checksum_of(b) {
        lemma_hex_injective(sha256_of(b2), sha256_of(b));
    }
}

/// An empty recorded checksum accepts any archive, present or not.
pub proof fn lemma_empty_checksum_accepts(lock: &LockFile, key: Seq<char>, data: Option<Seq<u8>>)
    requires
        lock.packages_map().contains_key(key),
        lock.packages_map()[key].checksum.len() == 0,
    ensures
        verify_spec(lock.packages_map(), key, opt_checksum(data)),
{
}

} // verus!
