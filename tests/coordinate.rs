use jpkg::coordinate::{metadata_url, Coordinate, CoordinateError};

#[test]
fn parse_accepts_three_segments() {
    let c = Coordinate::parse("org.json:json:20210307").unwrap();
    assert_eq!(c.group, "org.json");
    assert_eq!(c.artifact, "json");
    assert_eq!(c.version, "20210307");
}

#[test]
fn parse_rejects_malformed_text() {
    assert_eq!(Coordinate::parse("org.json:json").err(), Some(CoordinateError::Malformed));
    assert_eq!(Coordinate::parse("a:b:c:d").err(), Some(CoordinateError::Malformed));
    assert_eq!(Coordinate::parse("a::c").err(), Some(CoordinateError::Malformed));
    assert_eq!(Coordinate::parse(":b:c").err(), Some(CoordinateError::Malformed));
    assert_eq!(Coordinate::parse("a:b:").err(), Some(CoordinateError::Malformed));
    assert_eq!(Coordinate::parse("").err(), Some(CoordinateError::Malformed));
}

#[test]
fn canonical_round_trip() {
    let text = "com.google.guava:guava:31.1-jre";
    let c = Coordinate::parse(text).unwrap();
    assert_eq!(c.canonical(), text);
    let again = Coordinate::parse(&c.canonical()).unwrap();
    assert_eq!(again.group, c.group);
    assert_eq!(again.artifact, c.artifact);
    assert_eq!(again.version, c.version);
}

#[test]
fn repository_paths() {
    let c = Coordinate::parse("org.json:json:20210307").unwrap();
    assert_eq!(c.group_path(), "org/json");
    assert_eq!(c.archive_file_name(), "json-20210307.jar");
    assert_eq!(c.repo_path("jar"), "org/json/json/20210307/json-20210307.jar");
    assert_eq!(
        c.descriptor_url("https://repo1.maven.org/maven2"),
        "https://repo1.maven.org/maven2/org/json/json/20210307/json-20210307.pom"
    );
    assert_eq!(
        c.archive_url("https://repo1.maven.org/maven2"),
        "https://repo1.maven.org/maven2/org/json/json/20210307/json-20210307.jar"
    );
}

#[test]
fn group_path_replaces_every_dot() {
    let c = Coordinate::parse("com.fasterxml.jackson.core:jackson-core:2.15.0").unwrap();
    assert_eq!(c.group_path(), "com/fasterxml/jackson/core");
}

#[test]
fn metadata_address() {
    assert_eq!(
        metadata_url("https://repo1.maven.org/maven2", "org.json", "json"),
        "https://repo1.maven.org/maven2/org/json/json/maven-metadata.xml"
    );
}
