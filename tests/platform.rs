use jpkg::platform::{
    build_classpath, build_classpath_for, classpath_separator, classpath_separator_for, join_paths,
    platform_path, platform_path_for, Platform,
};

fn on_windows() -> bool {
    std::path::MAIN_SEPARATOR == '\\'
}

#[test]
fn test_classpath_separator() {
    let sep = classpath_separator();
    if on_windows() {
        assert_eq!(sep, ";");
    } else {
        assert_eq!(sep, ":");
    }
}

#[test]
fn test_build_classpath() {
    let paths = vec!["bin", "lib/*"];
    let cp = build_classpath(&paths);

    if on_windows() {
        assert_eq!(cp, "bin;lib/*");
    } else {
        assert_eq!(cp, "bin:lib/*");
    }
}

#[test]
fn test_platform_path() {
    let path = "lib/test";
    let result = platform_path(path);

    if on_windows() {
        assert_eq!(result, "lib\\test");
    } else {
        assert_eq!(result, "lib/test");
    }
}

#[test]
fn separator_per_platform() {
    assert_eq!(classpath_separator_for(Platform::Windows), ";");
    assert_eq!(classpath_separator_for(Platform::Unix), ":");
}

#[test]
fn classpath_for_each_platform() {
    let paths = vec!["bin", "lib/*", "extra"];
    assert_eq!(build_classpath_for(Platform::Unix, &paths), "bin:lib/*:extra");
    assert_eq!(build_classpath_for(Platform::Windows, &paths), "bin;lib/*;extra");
    assert_eq!(build_classpath_for(Platform::Unix, &[]), "");
    assert_eq!(build_classpath_for(Platform::Unix, &["only"]), "only");
}

#[test]
fn windows_paths_use_backslashes() {
    assert_eq!(platform_path_for(Platform::Windows, "lib/*"), "lib\\*");
    assert_eq!(platform_path_for(Platform::Windows, "a/b/c"), "a\\b\\c");
    assert_eq!(platform_path_for(Platform::Unix, "a/b/c"), "a/b/c");
}

#[test]
fn join_paths_appends_each_part() {
    assert_eq!(join_paths("base", &[]), "base");
    let joined = join_paths("base", &["lib", "x.jar"]);
    assert!(joined.ends_with("x.jar"));
    if !on_windows() {
        assert_eq!(joined, "base/lib/x.jar");
    }
}
