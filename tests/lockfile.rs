use jpkg::checksum::checksum;
use jpkg::lockfile::{LockFile, LockedPackage};

const ABC_SHA256: &str = "ba7816bf8f01cfea414140de5dae2223b00361a396177a9cb410ff61f20015ad";
const EMPTY_SHA256: &str = "e3b0c44298fc1c149afbf4c8996fb92427ae41e4649b934ca495991b7852b855";

#[test]
fn checksum_is_lowercase_hex_sha256() {
    assert_eq!(checksum(b"abc"), ABC_SHA256);
    assert_eq!(checksum(b""), EMPTY_SHA256);
}

#[test]
fn new_lock_file_is_empty_schema_one() {
    let l = LockFile::new();
    assert_eq!(l.version, "1");
    assert!(l.packages.is_empty());
}

#[test]
fn add_package_records_checksum() {
    let mut l = LockFile::new();
    l.add_package("org.json:json:20210307".to_string(), "20210307".to_string(), Some(b"abc"), Vec::new());
    l.add_package("g:absent:1".to_string(), "1".to_string(), None, Vec::new());
    assert_eq!(l.packages.len(), 2);
    assert_eq!(l.get("org.json:json:20210307").unwrap().checksum, ABC_SHA256);
    assert_eq!(l.get("g:absent:1").unwrap().checksum, "");
    assert_eq!(l.get_locked_version("org.json:json:20210307"), Some("20210307"));
    assert_eq!(l.get_locked_version("nope:nope:1"), None);
}

#[test]
fn add_package_overwrites_prior_entry() {
    let mut l = LockFile::new();
    l.add_package("g:a:1".to_string(), "1".to_string(), Some(b"abc"), Vec::new());
    l.add_package("g:a:1".to_string(), "1".to_string(), Some(b""), vec!["g:b:2".to_string()]);
    assert_eq!(l.packages.len(), 1);
    let p = l.get("g:a:1").unwrap();
    assert_eq!(p.checksum, EMPTY_SHA256);
    assert_eq!(p.dependencies, vec!["g:b:2".to_string()]);
}

#[test]
fn verify_rules() {
    let mut l = LockFile::new();
    l.add_package("g:a:1".to_string(), "1".to_string(), Some(b"abc"), Vec::new());
    l.add_package("g:empty:1".to_string(), "1".to_string(), None, Vec::new());
    // unrecorded coordinates pass
    assert!(l.verify_package("g:other:1", None));
    assert!(l.verify_package("g:other:1", Some(b"xyz")));
    // empty checksum passes whatever the file
    assert!(l.verify_package("g:empty:1", None));
    assert!(l.verify_package("g:empty:1", Some(b"anything")));
    // recorded checksum must match
    assert!(l.verify_package("g:a:1", Some(b"abc")));
    assert!(!l.verify_package("g:a:1", Some(b"tampered")));
    assert!(!l.verify_package("g:a:1", None));
}

#[test]
fn verify_checksum_compares_text() {
    let mut l = LockFile::new();
    l.insert(
        "g:a:1".to_string(),
        LockedPackage { version: "1".to_string(), checksum: ABC_SHA256.to_string(), dependencies: Vec::new() },
    );
    assert!(l.verify_checksum("g:a:1", Some(ABC_SHA256)));
    assert!(!l.verify_checksum("g:a:1", Some(EMPTY_SHA256)));
    assert!(!l.verify_checksum("g:a:1", None));
    assert!(l.verify_checksum("g:b:1", None));
}
