//! Paths and class search paths on the host platform.
use vstd::prelude::*;
use crate::text::{ends_with_spec, has_char, join_spec, replace_char, replace_spec};
use vstd::string::*;

verus! {

/// The two path conventions the tool knows.
#[derive(Debug, Clone, Copy, PartialEq, Eq, Structural)]
pub enum Platform {
    Unix,
    Windows,
}

/// Relies on std::path::MAIN_SEPARATOR: `\` on Windows, `/` elsewhere.
#[verifier::external_body]
fn main_separator() -> (c: char)
    ensures
        c == '/' || c == '\\',
{
    std::path::MAIN_SEPARATOR
}

/// A single path component: non-empty, not `.` or `..`, no separator.
pub open spec fn plain_component(p: Seq<char>) -> bool {
    p.len() > 0 && p != "."@ && p != ".."@ && !has_char(p, '/') && !has_char(p, '\\')
}

/// Relies on `PathBuf::push`: a pushed single component ends the resulting
/// path, whether it is appended or replaces the path.
#[verifier::external_body]
fn push_path(buf: &mut String, part: &str)
    ensures
        plain_component(part@) ==> ends_with_spec(final(buf)@, part@),
{
    let mut p = std::path::PathBuf::from(buf.as_str());
    p.push(part);
    *buf = p.to_string_lossy().into_owned();
}

/// The platform this program runs on.
pub fn host_platform() -> Platform {
    if main_separator() == '\\' {
        Platform::Windows
    } else {
        Platform::Unix
    }
}

pub open spec fn separator_of(p: Platform) -> Seq<char> {
    match p {
        Platform::Windows => ";"@,
        Platform::Unix => ":"@,
    }
}

pub open spec fn str_views(s: Seq<&str>) -> Seq<Seq<char>> {
    s.map_values(|p: &str| p@)
}

/// The class search path separator of platform `p`.
pub fn classpath_separator_for(p: Platform) -> (r: &'static str)
    ensures
        r@ == separator_of(p),
{
    match p {
        Platform::Windows => ";",
        Platform::Unix => ":",
    }
}

/// The class search path separator of the host: `;` on Windows, `:`
/// elsewhere.
pub fn classpath_separator() -> (r: &'static str)
    ensures
        r@ == separator_of(Platform::Unix) || r@ == separator_of(Platform::Windows),
{
    classpath_separator_for(host_platform())
}

/// `paths` joined with the separator of platform `p`.
pub fn build_classpath_for(p: Platform, paths: &[&str]) -> (r: String)
    ensures
        r@ == join_spec(str_views(paths@), separator_of(p)),
{
    let sep = classpath_separator_for(p);
    let mut out = String::new();
    let mut i: usize = 0;
    while i < paths.len()
        invariant
            i <= paths@.len(),
            sep@ == separator_of(p),
            out@ == join_spec(str_views(paths@).subrange(0, i as int), separator_of(p)),
        decreases paths@.len() - i,
    {
        let ghost pre = str_views(paths@).subrange(0, i as int);
        if i > 0 {
            out.append(sep);
        }
        out.append(paths[i]);
        proof {
            let post = str_views(paths@).subrange(0, i + 1);
            assert(post.drop_last() =~= pre);
            if i == 0 {
                assert(out@ =~= post[0]);
            }
        }
        i = i + 1;
    }
    assert(str_views(paths@).subrange(0, paths@.len() as int) =~= str_views(paths@));
    out
}

/// `paths` joined with the host's class search path separator.
pub fn build_classpath(paths: &[&str]) -> (r: String)
    ensures
        r@ == join_spec(str_views(paths@), separator_of(Platform::Unix)) || r@ == join_spec(
            str_views(paths@),
            separator_of(Platform::Windows),
        ),
{
    build_classpath_for(host_platform(), paths)
}

/// A `/`-separated path in the convention of platform `p`.
pub open spec fn platform_path_spec(p: Platform, path: Seq<char>) -> Seq<char> {
    match p {
        Platform::Windows => replace_spec(path, '/', "\\"@),
        Platform::Unix => path,
    }
}

pub fn platform_path_for(p: Platform, path: &str) -> (r: String)
    ensures
        r@ == platform_path_spec(p, path@),
{
    match p {
        Platform::Windows => replace_char(path, '/', "\\"),
        Platform::Unix => path.to_owned(),
    }
}

/// A `/`-separated path in the host's convention: `lib/*` is `lib\*` on
/// Windows.
pub fn platform_path(path: &str) -> (r: String)
    ensures
        r@ == platform_path_spec(Platform::Unix, path@) || r@ == platform_path_spec(
            Platform::Windows,
            path@,
        ),
{
    platform_path_for(host_platform(), path)
}

/// `base` with each of `paths` pushed onto it in turn.
pub fn join_paths(base: &str, paths: &[&str]) -> (r: String)
    ensures
        paths@.len() == 0 ==> r@ == base@,
        paths@.len() > 0 && plain_component(paths@[paths@.len() - 1]@) ==> ends_with_spec(
            r@,
            paths@[paths@.len() - 1]@,
        ),
{
    let mut out = base.to_owned();
    let mut i: usize = 0;
    while i < paths.len()
        invariant
            i <= paths@.len(),
            i == 0 ==> out@ == base@,
            i > 0 && plain_component(paths@[i - 1]@) ==> ends_with_spec(out@, paths@[i - 1]@),
        decreases paths@.len() - i,
    {
        push_path(&mut out, paths[i]);
        i = i + 1;
    }
    out
}

} // verus!
