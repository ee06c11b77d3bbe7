use jpkg::manifest::{dep_key_of, split_dep_key, Manifest, ManifestError};

fn sample() -> Manifest {
    let mut m = Manifest::new("demo", "0.1.0");
    m.set_dependency("org.json:json".to_string(), "20210307".to_string());
    m.set_dependency("com.google.guava:guava".to_string(), "31.1-jre".to_string());
    m
}

#[test]
fn new_manifest_is_empty() {
    let m = Manifest::new("testproject", "0.1.0");
    assert_eq!(m.package.name, "testproject");
    assert_eq!(m.package.version, "0.1.0");
    assert!(m.package.description.is_none());
    assert!(m.dependencies.is_empty());
}

#[test]
fn set_dependency_replaces_version() {
    let mut m = sample();
    m.set_dependency("org.json:json".to_string(), "20230227".to_string());
    assert_eq!(m.dependencies.len(), 2);
    assert_eq!(m.version_of("org.json:json"), Some("20230227".to_string()));
    assert_eq!(m.version_of("com.google.guava:guava"), Some("31.1-jre".to_string()));
    assert_eq!(m.version_of("missing:thing"), None);
}

#[test]
fn remove_dependency_reports_presence() {
    let mut m = sample();
    assert!(m.remove_dependency("org.json:json"));
    assert!(!m.remove_dependency("org.json:json"));
    assert_eq!(m.dependencies.len(), 1);
}

#[test]
fn find_dependency_by_key_or_artifact() {
    let m = sample();
    assert_eq!(m.find_dependency("org.json:json"), Some("org.json:json".to_string()));
    assert_eq!(m.find_dependency("guava"), Some("com.google.guava:guava".to_string()));
    assert_eq!(m.find_dependency("son"), None);
    assert_eq!(m.find_dependency("junit"), None);
}

#[test]
fn validate_reports_malformed_keys() {
    let mut m = sample();
    assert_eq!(m.validate(), Ok(()));
    m.set_dependency("nogroup".to_string(), "1".to_string());
    assert_eq!(m.validate(), Err(ManifestError::MalformedKey("nogroup".to_string())));
    let mut m2 = Manifest::new("x", "1");
    m2.set_dependency("a:b:c".to_string(), "1".to_string());
    assert_eq!(m2.validate(), Err(ManifestError::MalformedKey("a:b:c".to_string())));
}

#[test]
fn dependency_keys_split_and_join() {
    assert_eq!(split_dep_key("org.json:json"), Some(("org.json".to_string(), "json".to_string())));
    assert_eq!(split_dep_key("org.json"), None);
    assert_eq!(split_dep_key(":json"), None);
    assert_eq!(dep_key_of("org.json", "json"), "org.json:json");
}
