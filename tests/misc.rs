use jpkg::descriptor::{latest_version_of, Dependency, SearchResult};
use jpkg::packager::{include_dependency_entry, jar_manifest, output_jar_path};
use jpkg::testing::extract_class_name;
use jpkg::updater::{update_status, UpdateStatus};

fn hit(g: &str, a: &str, v: &str) -> SearchResult {
    SearchResult { id: format!("{}:{}", g, a), g: g.to_string(), a: a.to_string(), latest_version: v.to_string() }
}

#[test]
fn dependency_acceptance() {
    let d = |v: Option<&str>, s: Option<&str>| Dependency {
        group_id: "g".to_string(),
        artifact_id: "a".to_string(),
        version: v.map(|x| x.to_string()),
        scope: s.map(|x| x.to_string()),
    };
    assert!(d(Some("1.0"), None).is_accepted());
    assert!(d(Some("1.0"), Some("compile")).is_accepted());
    assert!(!d(Some("1.0"), Some("test")).is_accepted());
    assert!(!d(None, None).is_accepted());
    assert!(!d(Some("${junit.version}"), None).is_accepted());
    assert!(d(Some("$1{"), None).is_accepted());
    assert_eq!(d(Some("1.0"), None).key(), "g:a:1.0");
}

#[test]
fn search_hits() {
    let results = vec![hit("org.json", "json-ext", "2"), hit("org.json", "json", "20231013"), hit("org.json", "json", "1")];
    assert_eq!(latest_version_of(&results, "org.json", "json"), Some("20231013".to_string()));
    assert_eq!(latest_version_of(&results, "com.x", "json"), None);
    assert_eq!(results[1].label(), "org.json:json (20231013)");
}

#[test]
fn update_statuses() {
    let results = vec![hit("org.json", "json", "20231013")];
    assert_eq!(update_status(&results, "org.json", "json", "20231013"), UpdateStatus::UpToDate);
    assert_eq!(
        update_status(&results, "org.json", "json", "20210307"),
        UpdateStatus::Outdated("20231013".to_string())
    );
    assert_eq!(update_status(&results, "org.other", "json", "1"), UpdateStatus::NotFound);
}

#[test]
fn packaged_manifest_text() {
    assert_eq!(jar_manifest(None), "Manifest-Version: 1.0\nMain-Class: Main\nCreated-By: jpkg\n");
    assert_eq!(
        jar_manifest(Some("com.example.App")),
        "Manifest-Version: 1.0\nMain-Class: com.example.App\nCreated-By: jpkg\n"
    );
    assert_eq!(output_jar_path(None), "target/app.jar");
    assert_eq!(output_jar_path(Some("x.jar")), "target/x.jar");
}

#[test]
fn dependency_entries_to_copy() {
    assert!(include_dependency_entry("org/json/JSONObject.class", false));
    assert!(!include_dependency_entry("META-INF/MANIFEST.MF", false));
    assert!(!include_dependency_entry("org/json/", true));
    assert!(include_dependency_entry("META-INFO.txt", false));
}

#[test]
fn class_names_from_files() {
    assert_eq!(extract_class_name("FooTest.java"), Some("FooTest".to_string()));
    assert_eq!(extract_class_name("src/test/java/BarTest.java"), Some("BarTest".to_string()));
    assert_eq!(extract_class_name("archive.tar.gz"), Some("archive.tar".to_string()));
    assert_eq!(extract_class_name(".hidden"), Some(".hidden".to_string()));
}
