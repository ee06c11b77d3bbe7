//! What goes into a packaged application archive.
use vstd::prelude::*;
use vstd::string::*;

verus! {

pub open spec fn starts_with_spec(s: Seq<char>, prefix: Seq<char>) -> bool {
    s.len() >= prefix.len() && s.subrange(0, prefix.len() as int) == prefix
}

/// The manifest text of a packaged archive whose entry point is
/// `main_class` (`Main` when none is given).
pub open spec fn jar_manifest_spec(main_class: Seq<char>) -> Seq<char> {
    "Manifest-Version: 1.0\nMain-Class: "@ + main_class + "\nCreated-By: jpkg\n"@
}

/// The archive manifest naming the entry point.
pub fn jar_manifest(main_class: Option<&str>) -> (r: String)
    ensures
        r@ == jar_manifest_spec(
            match main_class {
                Some(m) => m@,
                None => "Main"@,
            },
        ),
{
    let mut out = String::new();
    out.append("Manifest-Version: 1.0\nMain-Class: ");
    match main_class {
        Some(m) => out.append(m),
        None => out.append("Main"),
    }
    out.append("\nCreated-By: jpkg\n");
    out
}

/// Where the packaged archive is written: `target/<name>`, with `app.jar`
/// when no name is given.
pub fn output_jar_path(name: Option<&str>) -> (r: String)
    ensures
        r@ == "target/"@ + match name {
            Some(n) => n@,
            None => "app.jar"@,
        },
{
    let mut out = String::new();
    out.append("target/");
    match name {
        Some(n) => out.append(n),
        None => out.append("app.jar"),
    }
    out
}

/// Whether `s` starts with `prefix`.
pub fn starts_with(s: &str, prefix: &str) -> (r: bool)
    ensures
        r == starts_with_spec(s@, prefix@),
{
    let n = s.unicode_len();
    let m = prefix.unicode_len();
    if m > n {
        return false;
    }
    let mut i: usize = 0;
    while i < m
        invariant
            n == s@.len(),
            m == prefix@.len(),
            m <= n,
            i <= m,
            forall|k: int| 0 <= k < i ==> s@[k] == prefix@[k],
        decreases m - i,
    {
        if s.get_char(i) != prefix.get_char(i) {
            assert(s@.subrange(0, m as int)[i as int] != prefix@[i as int]);
            return false;
        }
        i = i + 1;
    }
    assert(s@.subrange(0, m as int) =~= prefix@);
    true
}

/// Whether an entry of a dependency archive is copied into the packaged
/// archive: files only, and nothing under `META-INF/`, whose manifest and
/// signatures belong to the dependency.
pub fn include_dependency_entry(name: &str, is_dir: bool) -> (r: bool)
    ensures
        r == (!is_dir && !starts_with_spec(name@, "META-INF/"@)),
{
    !is_dir && !starts_with(name, "META-INF/")
}

} // verus!
