use jpkg::descriptor::{Dependencies, Dependency, Project};
use jpkg::manifest::Manifest;
use jpkg::resolver::{ResolveError, Resolver};

fn dep(g: &str, a: &str, v: Option<&str>, scope: Option<&str>) -> Dependency {
    Dependency {
        group_id: g.to_string(),
        artifact_id: a.to_string(),
        version: v.map(|s| s.to_string()),
        scope: scope.map(|s| s.to_string()),
    }
}

fn project(artifact: &str, deps: Vec<Dependency>) -> Project {
    Project {
        group_id: None,
        artifact_id: artifact.to_string(),
        version: None,
        dependencies: Dependencies { dependency: deps },
    }
}

/// Expands every pending coordinate with the descriptor `graph` gives it.
fn run<F: Fn(&str) -> Option<Project>>(manifest: &Manifest, graph: &F) -> Resolver {
    let mut r = Resolver::new(manifest);
    while let Some(key) = r.next_pending() {
        let d = graph(&key);
        r.expand(d.as_ref()).unwrap();
    }
    r
}

/// The selection in sorted order; it never holds a coordinate twice.
fn sorted(mut v: Vec<String>) -> Vec<String> {
    v.sort();
    let n = v.len();
    v.dedup();
    assert_eq!(v.len(), n);
    v
}

#[test]
fn empty_manifest_resolves_to_nothing() {
    let m = Manifest::new("demo", "0.1.0");
    let mut r = run(&m, &|_| None);
    assert_eq!(r.solve(), Ok(Vec::new()));
}

#[test]
fn single_leaf_is_selected() {
    let mut m = Manifest::new("demo", "0.1.0");
    m.set_dependency("org.json:json".to_string(), "20210307".to_string());
    let mut r = run(&m, &|_| None);
    assert_eq!(r.solve().unwrap(), vec!["org.json:json:20210307".to_string()]);
}

#[test]
fn transitive_dependencies_are_followed() {
    let mut m = Manifest::new("demo", "0.1.0");
    m.set_dependency("g:a".to_string(), "1".to_string());
    let graph = |key: &str| match key {
        "g:a:1" => Some(project("a", vec![dep("g", "b", Some("2"), None)])),
        "g:b:2" => Some(project("b", vec![dep("g", "c", Some("3"), Some("compile"))])),
        "g:c:3" => Some(project("c", vec![dep("g", "a", Some("1"), None)])),
        _ => None,
    };
    let mut r = run(&m, &graph);
    let out = sorted(r.solve().unwrap());
    assert_eq!(out, vec!["g:a:1".to_string(), "g:b:2".to_string(), "g:c:3".to_string()]);
}

#[test]
fn test_scope_and_interpolated_versions_are_skipped() {
    let mut m = Manifest::new("demo", "0.1.0");
    m.set_dependency("g:a".to_string(), "1".to_string());
    let graph = |key: &str| match key {
        "g:a:1" => Some(project(
            "a",
            vec![
                dep("junit", "junit", Some("4.13"), Some("test")),
                dep("g", "prop", Some("${project.version}"), None),
                dep("g", "noversion", None, None),
                dep("g", "kept", Some("5"), Some("runtime")),
            ],
        )),
        _ => None,
    };
    let mut r = run(&m, &graph);
    let out = sorted(r.solve().unwrap());
    assert_eq!(out, vec!["g:a:1".to_string(), "g:kept:5".to_string()]);
}

#[test]
fn test_scoped_coordinate_kept_when_required_elsewhere() {
    let mut m = Manifest::new("demo", "0.1.0");
    m.set_dependency("g:a".to_string(), "1".to_string());
    m.set_dependency("junit:junit".to_string(), "4.13".to_string());
    let graph = |key: &str| match key {
        "g:a:1" => Some(project("a", vec![dep("junit", "junit", Some("4.13"), Some("test"))])),
        _ => None,
    };
    let mut r = run(&m, &graph);
    let out = sorted(r.solve().unwrap());
    assert_eq!(out, vec!["g:a:1".to_string(), "junit:junit:4.13".to_string()]);
}

#[test]
fn two_versions_of_one_artifact_are_both_selected() {
    let mut m = Manifest::new("demo", "0.1.0");
    m.set_dependency("g:a".to_string(), "1".to_string());
    m.set_dependency("g:b".to_string(), "1".to_string());
    let graph = |key: &str| match key {
        "g:a:1" => Some(project("a", vec![dep("g", "x", Some("1"), None)])),
        "g:b:1" => Some(project("b", vec![dep("g", "x", Some("2"), None)])),
        _ => None,
    };
    let mut r = run(&m, &graph);
    let out = sorted(r.solve().unwrap());
    assert_eq!(
        out,
        vec!["g:a:1".to_string(), "g:b:1".to_string(), "g:x:1".to_string(), "g:x:2".to_string()]
    );
}

#[test]
fn contradictory_constraints_are_unsatisfiable() {
    let mut m = Manifest::new("demo", "0.1.0");
    m.set_dependency("g:a".to_string(), "1".to_string());
    m.set_dependency("g:b".to_string(), "1".to_string());
    let graph = |key: &str| match key {
        "g:a:1" => Some(project("a", vec![dep("g", "x", Some("1"), None)])),
        "g:b:1" => Some(project("b", vec![dep("g", "y", Some("1"), None)])),
        _ => None,
    };
    let mut r = run(&m, &graph);
    r.forbid("g:x:1".to_string()).unwrap();
    assert_eq!(r.solve(), Err(ResolveError::Unsatisfiable));
}

#[test]
fn forbidding_an_unneeded_coordinate_keeps_it_out() {
    let mut m = Manifest::new("demo", "0.1.0");
    m.set_dependency("g:a".to_string(), "1".to_string());
    let mut r = run(&m, &|_| None);
    r.forbid("g:other:1".to_string()).unwrap();
    assert_eq!(r.solve().unwrap(), vec!["g:a:1".to_string()]);
}

#[test]
fn failed_descriptor_fetch_adds_nothing() {
    let mut m = Manifest::new("demo", "0.1.0");
    m.set_dependency("g:a".to_string(), "1".to_string());
    let mut r = Resolver::new(&m);
    assert_eq!(r.next_pending(), Some("g:a:1".to_string()));
    r.expand(None).unwrap();
    assert_eq!(r.next_pending(), None);
    assert_eq!(r.solve().unwrap(), vec!["g:a:1".to_string()]);
}
