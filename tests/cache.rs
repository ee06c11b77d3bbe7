use jpkg::cache::{cache_size, get_cached_jar, list_cached};

fn parts(p: &[&str]) -> Vec<String> {
    p.iter().map(|s| s.to_string()).collect()
}

#[test]
fn cached_archive_path() {
    assert_eq!(
        get_cached_jar("/home/u/.jpkg/cache", "org.json", "json", "20210307"),
        "/home/u/.jpkg/cache/org/json/json/20210307/json-20210307.jar"
    );
}

#[test]
fn listing_rebuilds_coordinates() {
    let files = vec![
        parts(&["org", "json", "json", "20210307", "json-20210307.jar"]),
        parts(&["x", "y.jar"]),
        parts(&["a", "1", "a-1.jar"]),
        parts(&["com", "google", "guava", "guava", "31.1-jre", "guava-31.1-jre.jar"]),
    ];
    assert_eq!(
        list_cached(&files),
        vec![
            "org.json:json:20210307".to_string(),
            ":a:1".to_string(),
            "com.google.guava:guava:31.1-jre".to_string(),
        ]
    );
    assert!(list_cached(&Vec::new()).is_empty());
}

#[test]
fn size_sums_and_detects_overflow() {
    assert_eq!(cache_size(&vec![]), Some(0));
    assert_eq!(cache_size(&vec![10, 20, 30]), Some(60));
    assert_eq!(cache_size(&vec![u64::MAX, 0]), Some(u64::MAX));
    assert_eq!(cache_size(&vec![u64::MAX, 1]), None);
}
