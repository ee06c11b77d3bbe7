use std::collections::HashMap;

use jpkg::coordinate::Coordinate;
use jpkg::installer::{FileOp, InstallConfig, InstallError, Installer};
use jpkg::lockfile::LockFile;

const BASE: &str = "https://repo1.maven.org/maven2";

fn config(frozen: bool, offline: bool) -> InstallConfig {
    InstallConfig {
        lib_dir: "proj/lib".to_string(),
        cache_root: "home/.jpkg/cache".to_string(),
        remote_base: BASE.to_string(),
        frozen,
        offline,
    }
}

/// Files by path, and what the remote serves by address.
struct World {
    files: HashMap<String, Vec<u8>>,
    remote: HashMap<String, Vec<u8>>,
    downloads: usize,
}

impl World {
    fn new() -> World {
        let mut remote = HashMap::new();
        remote.insert(format!("{}/org/json/json/20210307/json-20210307.jar", BASE), b"json archive".to_vec());
        World { files: HashMap::new(), remote, downloads: 0 }
    }

    fn perform(&mut self, ops: Vec<FileOp>) {
        for op in ops {
            match op {
                FileOp::Copy { from, to } => {
                    let bytes = self.files.get(&from).cloned().expect("copy source exists");
                    self.files.insert(to, bytes);
                }
                FileOp::Download { url, to } => {
                    self.downloads += 1;
                    let bytes = self.remote.get(&url).cloned().expect("remote has the archive");
                    self.files.insert(to, bytes);
                }
            }
        }
    }

    /// One install of `coords`; the lock file on success.
    fn install(&mut self, coords: &[&str], frozen: bool, offline: bool, reference: LockFile) -> Result<LockFile, InstallError> {
        let mut inst = Installer::new(config(frozen, offline), reference);
        for text in coords {
            let c = Coordinate::parse(text).unwrap();
            let dest = inst.destination(&c);
            let cached = self.files.contains_key(&inst.cache_path(&c));
            let current = self.files.get(&dest).cloned();
            let ops = inst.plan(&c, current.as_deref(), cached)?;
            self.perform(ops);
            let after = self.files.get(&dest).cloned();
            inst.record(&c, after.as_deref());
        }
        Ok(inst.into_lock())
    }
}

fn sorted_entries(l: &LockFile) -> Vec<(String, String, String)> {
    let mut v: Vec<_> = l
        .packages
        .iter()
        .map(|(k, p)| (k.clone(), p.version.clone(), p.checksum.clone()))
        .collect();
    v.sort();
    v
}

#[test]
fn empty_install_writes_empty_lock() {
    let mut w = World::new();
    let lock = w.install(&[], false, false, LockFile::new()).unwrap();
    assert_eq!(lock.version, "1");
    assert!(lock.packages.is_empty());
}

#[test]
fn online_install_downloads_and_caches() {
    let mut w = World::new();
    let lock = w.install(&["org.json:json:20210307"], false, false, LockFile::new()).unwrap();
    assert_eq!(w.downloads, 1);
    assert_eq!(w.files.get("proj/lib/json-20210307.jar").unwrap(), b"json archive");
    assert_eq!(
        w.files.get("home/.jpkg/cache/org/json/json/20210307/json-20210307.jar").unwrap(),
        b"json archive"
    );
    let p = lock.get("org.json:json:20210307").unwrap();
    assert_eq!(p.version, "20210307");
    assert_eq!(p.checksum.len(), 64);
    assert!(p.checksum.chars().all(|c| c.is_ascii_hexdigit() && !c.is_ascii_uppercase()));
}

#[test]
fn offline_install_repopulates_library_from_cache() {
    let mut w = World::new();
    let first = w.install(&["org.json:json:20210307"], false, false, LockFile::new()).unwrap();
    w.files.retain(|k, _| !k.starts_with("proj/lib/"));
    let second = w.install(&["org.json:json:20210307"], false, true, LockFile::new()).unwrap();
    assert_eq!(w.downloads, 1);
    assert_eq!(w.files.get("proj/lib/json-20210307.jar").unwrap(), b"json archive");
    assert_eq!(sorted_entries(&first), sorted_entries(&second));
}

#[test]
fn offline_miss_fails() {
    let mut w = World::new();
    let r = w.install(&["org.json:json:20210307"], false, true, LockFile::new());
    assert_eq!(r.err(), Some(InstallError::MissingInCacheOffline("org.json:json:20210307".to_string())));
    assert_eq!(w.downloads, 0);
}

#[test]
fn frozen_install_detects_tampering() {
    let mut w = World::new();
    let lock = w.install(&["org.json:json:20210307"], false, false, LockFile::new()).unwrap();
    w.files.insert("proj/lib/json-20210307.jar".to_string(), b"arbitrary bytes".to_vec());
    let r = w.install(&["org.json:json:20210307"], true, false, lock);
    assert_eq!(r.err(), Some(InstallError::ChecksumMismatch("org.json:json:20210307".to_string())));
}

#[test]
fn frozen_install_accepts_untouched_library() {
    let mut w = World::new();
    let lock = w.install(&["org.json:json:20210307"], false, false, LockFile::new()).unwrap();
    let again = w.install(&["org.json:json:20210307"], true, true, lock).unwrap();
    assert_eq!(again.packages.len(), 1);
}

#[test]
fn second_install_over_full_cache_gives_same_lock() {
    let mut w = World::new();
    let first = w.install(&["org.json:json:20210307"], false, false, LockFile::new()).unwrap();
    let files_after_first = w.files.clone();
    let second = w.install(&["org.json:json:20210307"], false, false, LockFile::new()).unwrap();
    assert_eq!(w.files, files_after_first);
    assert_eq!(w.downloads, 1);
    assert_eq!(sorted_entries(&first), sorted_entries(&second));
}

#[test]
fn cached_archive_is_never_rewritten() {
    let mut w = World::new();
    let cache = "home/.jpkg/cache/org/json/json/20210307/json-20210307.jar".to_string();
    w.files.insert(cache.clone(), b"cached bytes".to_vec());
    w.files.insert("proj/lib/json-20210307.jar".to_string(), b"other bytes".to_vec());
    let inst = Installer::new(config(false, false), LockFile::new());
    let c = Coordinate::parse("org.json:json:20210307").unwrap();
    let ops = inst.plan(&c, Some(b"other bytes"), true).unwrap();
    assert!(ops.is_empty());
    let ops = inst.plan(&c, None, true).unwrap();
    assert_eq!(ops.len(), 1);
    match &ops[0] {
        FileOp::Copy { from, to } => {
            assert_eq!(from, &cache);
            assert_eq!(to, "proj/lib/json-20210307.jar");
        }
        FileOp::Download { .. } => panic!("no download for a cached archive"),
    }
}

#[test]
fn miss_plans_download_then_cache_insert() {
    let inst = Installer::new(config(false, false), LockFile::new());
    let c = Coordinate::parse("org.json:json:20210307").unwrap();
    let ops = inst.plan(&c, None, false).unwrap();
    assert_eq!(ops.len(), 2);
    match (&ops[0], &ops[1]) {
        (FileOp::Download { url, to }, FileOp::Copy { from, to: cache }) => {
            assert_eq!(url, "https://repo1.maven.org/maven2/org/json/json/20210307/json-20210307.jar");
            assert_eq!(to, "proj/lib/json-20210307.jar");
            assert_eq!(from, "proj/lib/json-20210307.jar");
            assert_eq!(cache, "home/.jpkg/cache/org/json/json/20210307/json-20210307.jar");
        }
        _ => panic!("expected a download followed by a copy"),
    }
}
