//! Artifact coordinates `group:artifact:version` and the repository paths
//! derived from them.
use vstd::prelude::*;
use vstd::string::*;
use crate::text::{has_char, lemma_split_concat, lemma_split_no_sep, lemma_split_pieces, replace_char, replace_spec, split_on, split_spec, views};

verus! {

/// One revision of one artifact.
pub struct Coordinate {
    pub group: String,
    pub artifact: String,
    pub version: String,
}

/// The text did not consist of three non-empty colon-separated segments.
#[derive(Debug, PartialEq, Eq, Structural)]
pub enum CoordinateError {
    Malformed,
}

/// `group:artifact:version`.
pub open spec fn canonical_of(g: Seq<char>, a: Seq<char>, v: Seq<char>) -> Seq<char> {
    g + seq![':'] + a + seq![':'] + v
}

/// A field of a coordinate: non-empty, without a colon.
pub open spec fn valid_field(f: Seq<char>) -> bool {
    f.len() > 0 && !has_char(f, ':')
}

/// What `parse` accepts: exactly three colon-separated pieces, none empty.
pub open spec fn parse_spec(s: Seq<char>) -> Option<(Seq<char>, Seq<char>, Seq<char>)> {
    let p = split_spec(s, ':');
    if p.len() == 3 && p[0].len() > 0 && p[1].len() > 0 && p[2].len() > 0 {
        Some((p[0], p[1], p[2]))
    } else {
        None
    }
}

/// The group written as a path: every `.` becomes `/`.
pub open spec fn group_path_of(g: Seq<char>) -> Seq<char> {
    replace_spec(g, '.', "/"@)
}

/// `<artifact>-<version>.<ext>`.
pub open spec fn file_name_of(a: Seq<char>, v: Seq<char>, ext: Seq<char>) -> Seq<char> {
    a + "-"@ + v + "."@ + ext
}

/// `<group-path>/<artifact>/<version>/<artifact>-<version>.<ext>`, the
/// layout shared by the remote repository and the content cache.
pub open spec fn repo_path_of(g: Seq<char>, a: Seq<char>, v: Seq<char>, ext: Seq<char>) -> Seq<
    char,
> {
    group_path_of(g) + "/"@ + a + "/"@ + v + "/"@ + file_name_of(a, v, ext)
}

pub open spec fn archive_ext() -> Seq<char> {
    "jar"@
}

pub open spec fn descriptor_ext() -> Seq<char> {
    "pom"@
}

/// Parsing the canonical form of a well-formed coordinate gives the
/// coordinate back.
pub proof fn lemma_coordinate_round_trip(g: Seq<char>, a: Seq<char>, v: Seq<char>)
    requires
        valid_field(g),
        valid_field(a),
        valid_field(v),
    ensures
        parse_spec(canonical_of(g, a, v)) == Some((g, a, v)),
{
    lemma_split_concat(g + seq![':'] + a, v, ':');
    lemma_split_concat(g, a, ':');
    lemma_split_no_sep(g, ':');
    lemma_split_no_sep(a, ':');
    lemma_split_no_sep(v, ':');
    let p = split_spec(canonical_of(g, a, v), ':');
    assert(p =~= seq![g, a, v]);
}

impl Coordinate {
    pub open spec fn canonical_spec(&self) -> Seq<char> {
        canonical_of(self.group@, self.artifact@, self.version@)
    }

    pub open spec fn wf(&self) -> bool {
        valid_field(self.group@) && valid_field(self.artifact@) && valid_field(self.version@)
    }

    /// Reads `group:artifact:version`.
    pub fn parse(s: &str) -> (r: Result<Coordinate, CoordinateError>)
        ensures
            match parse_spec(s@) {
                Some(t) => r matches Ok(c) && c.group@ == t.0 && c.artifact@ == t.1
                    && c.version@ == t.2,
                None => r == Err::<Coordinate, CoordinateError>(CoordinateError::Malformed),
            },
            r matches Ok(c) ==> c.wf(),
    {
        let parts = split_on(s, ':');
        proof {
            assert(views(parts@).len() == parts@.len());
            lemma_split_pieces(s@, ':');
        }
        if parts.len() == 3 {
            proof {
                assert(views(parts@)[0] == parts@[0]@);
                assert(views(parts@)[1] == parts@[1]@);
                assert(views(parts@)[2] == parts@[2]@);
            }
            if parts[0].as_str().is_empty() || parts[1].as_str().is_empty()
                || parts[2].as_str().is_empty() {
                return Err(CoordinateError::Malformed);
            }
            Ok(
                Coordinate {
                    group: parts[0].clone(),
                    artifact: parts[1].clone(),
                    version: parts[2].clone(),
                },
            )
        } else {
            Err(CoordinateError::Malformed)
        }
    }

    /// `group:artifact:version`.
    pub fn canonical(&self) -> (r: String)
        ensures
            r@ == self.canonical_spec(),
    {
        key3(self.group.as_str(), self.artifact.as_str(), self.version.as_str())
    }

    /// The group with each `.` turned into `/`.
    pub fn group_path(&self) -> (r: String)
        ensures
            r@ == group_path_of(self.group@),
    {
        replace_char(self.group.as_str(), '.', "/")
    }

    /// The archive's file name, `<artifact>-<version>.jar`.
    pub fn archive_file_name(&self) -> (r: String)
        ensures
            r@ == file_name_of(self.artifact@, self.version@, archive_ext()),
    {
        file_name(self.artifact.as_str(), self.version.as_str(), "jar")
    }

    /// The path of a file of this coordinate relative to a repository root.
    pub fn repo_path(&self, ext: &str) -> (r: String)
        ensures
            r@ == repo_path_of(self.group@, self.artifact@, self.version@, ext@),
    {
        let mut out = self.group_path();
        out.append("/");
        out.append(self.artifact.as_str());
        out.append("/");
        out.append(self.version.as_str());
        out.append("/");
        let name = file_name(self.artifact.as_str(), self.version.as_str(), ext);
        out.append(name.as_str());
        out
    }

    /// The descriptor's address under the repository base `base`.
    pub fn descriptor_url(&self, base: &str) -> (r: String)
        ensures
            r@ == base@ + "/"@ + repo_path_of(
                self.group@,
                self.artifact@,
                self.version@,
                descriptor_ext(),
            ),
    {
        under(base, self.repo_path("pom").as_str())
    }

    /// The archive's address under the repository base `base`.
    pub fn archive_url(&self, base: &str) -> (r: String)
        ensures
            r@ == base@ + "/"@ + repo_path_of(
                self.group@,
                self.artifact@,
                self.version@,
                archive_ext(),
            ),
    {
        under(base, self.repo_path("jar").as_str())
    }
}

/// The address of the version metadata of `group:artifact` under the
/// repository base `base`.
pub fn metadata_url(base: &str, group: &str, artifact: &str) -> (r: String)
    ensures
        r@ == base@ + "/"@ + group_path_of(group@) + "/"@ + artifact@ + "/maven-metadata.xml"@,
{
    let mut out = under(base, replace_char(group, '.', "/").as_str());
    out.append("/");
    out.append(artifact);
    out.append("/maven-metadata.xml");
    out
}

/// `a:b:c`.
pub fn key3(a: &str, b: &str, c: &str) -> (r: String)
    ensures
        r@ == canonical_of(a@, b@, c@),
{
    proof {
        reveal_strlit(":");
    }
    let mut out = key2(a, b);
    out.append(":");
    out.append(c);
    assert(":"@ =~= seq![':']);
    out
}

/// `a:b`.
pub fn key2(a: &str, b: &str) -> (r: String)
    ensures
        r@ == a@ + seq![':'] + b@,
{
    proof {
        reveal_strlit(":");
    }
    let mut out = a.to_owned();
    out.append(":");
    out.append(b);
    assert(":"@ =~= seq![':']);
    out
}

/// `<artifact>-<version>.<ext>`.
pub fn file_name(artifact: &str, version: &str, ext: &str) -> (r: String)
    ensures
        r@ == file_name_of(artifact@, version@, ext@),
{
    let mut out = artifact.to_owned();
    out.append("-");
    out.append(version);
    out.append(".");
    out.append(ext);
    out
}

/// `<dir>/<rel>`.
pub fn under(dir: &str, rel: &str) -> (r: String)
    ensures
        r@ == dir@ + "/"@ + rel@,
{
    let mut out = dir.to_owned();
    out.append("/");
    out.append(rel);
    out
}

} // verus!
