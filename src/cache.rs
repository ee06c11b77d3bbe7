//! The content cache: a per-user store of archives laid out like the remote
//! repository, `<root>/<group-path>/<artifact>/<version>/<artifact>-<version>.jar`.
//! Walking the directory tree is the caller's part; this module computes the
//! paths, the listing and the total size from what the walk found.
use vstd::prelude::*;
use crate::coordinate::{archive_ext, canonical_of, key3, repo_path_of, under, Coordinate};
use crate::text::{join_spec, join_with, views};

verus! {

/// Where the cache rooted at `cache_root` keeps the archive of
/// `group:artifact:version`. Whether a file is there is for the caller to
/// look up; its contents are not checked here.
pub fn get_cached_jar(cache_root: &str, group: &str, artifact: &str, version: &str) -> (r: String)
    ensures
        r@ == cache_root@ + "/"@ + repo_path_of(group@, artifact@, version@, archive_ext()),
{
    let c = Coordinate {
        group: group.to_owned(),
        artifact: artifact.to_owned(),
        version: version.to_owned(),
    };
    let rel = c.repo_path("jar");
    under(cache_root, rel.as_str())
}

/// The coordinate of an archive found at the path components `parts` below
/// the cache root: the group is the components before the last three joined
/// with `.`, then the artifact and the version directories. Fewer than three
/// components give nothing.
pub open spec fn cached_entry(parts: Seq<Seq<char>>) -> Option<Seq<char>> {
    if parts.len() >= 3 {
        Some(
            canonical_of(
                join_spec(parts.subrange(0, parts.len() - 3), "."@),
                parts[parts.len() - 3],
                parts[parts.len() - 2],
            ),
        )
    } else {
        None
    }
}

/// The canonical coordinates of the archives at `paths`, in order.
pub open spec fn listing(paths: Seq<Seq<Seq<char>>>) -> Seq<Seq<char>>
    decreases paths.len(),
{
    if paths.len() == 0 {
        Seq::<Seq<char>>::empty()
    } else {
        listing(paths.drop_last()) + match cached_entry(paths.last()) {
            Some(e) => seq![e],
            None => Seq::<Seq<char>>::empty(),
        }
    }
}

pub open spec fn path_views(paths: Seq<Vec<String>>) -> Seq<Seq<Seq<char>>> {
    paths.map_values(|p: Vec<String>| views(p@))
}

/// The canonical coordinates of the cached archives, one per archive file;
/// `jar_files` holds the path components of each archive file below the
/// cache root, as the walk found them.
pub fn list_cached(jar_files: &Vec<Vec<String>>) -> (r: Vec<String>)
    ensures
        views(r@) == listing(path_views(jar_files@)),
{
    let mut out: Vec<String> = Vec::new();
    let mut i: usize = 0;
    while i < jar_files.len()
        invariant
            i <= jar_files@.len(),
            views(out@) == listing(path_views(jar_files@).subrange(0, i as int)),
        decreases jar_files@.len() - i,
    {
        let parts = &jar_files[i];
        let ghost pv = views(parts@);
        proof {
            let s = path_views(jar_files@).subrange(0, i + 1);
            assert(s.drop_last() =~= path_views(jar_files@).subrange(0, i as int));
            assert(s.last() == pv);
        }
        let n = parts.len();
        if n >= 3 {
            let mut group_parts: Vec<String> = Vec::new();
            let mut j: usize = 0;
            while j < n - 3
                invariant
                    n == parts@.len(),
                    n >= 3,
                    j <= n - 3,
                    views(group_parts@) == views(parts@).subrange(0, j as int),
                decreases n - 3 - j,
            {
                let ghost before = views(group_parts@);
                let piece = parts[j].clone();
                assert(piece@ == parts@[j as int]@);
                group_parts.push(piece);
                assert(views(group_parts@) =~= before.push(parts@[j as int]@));
                assert(views(group_parts@) =~= views(parts@).subrange(0, j + 1));
                j = j + 1;
            }
            let group = join_with(&group_parts, ".");
            let entry = key3(group.as_str(), parts[n - 3].as_str(), parts[n - 2].as_str());
            let ghost before = views(out@);
            out.push(entry);
            proof {
                assert(views(out@) =~= before.push(entry@));
                assert(pv[n - 3] == parts@[n - 3]@);
                assert(pv[n - 2] == parts@[n - 2]@);
                assert(cached_entry(pv) == Some(entry@));
                assert(before + seq![entry@] =~= before.push(entry@));
            }
        } else {
            proof {
                assert(cached_entry(pv) is None);
                assert(views(out@) + Seq::<Seq<char>>::empty() =~= views(out@));
            }
        }
        i = i + 1;
    }
    assert(path_views(jar_files@).subrange(0, i as int) =~= path_views(jar_files@));
    out
}

/// The sum of a sequence of sizes.
pub open spec fn total(s: Seq<u64>) -> int
    decreases s.len(),
{
    if s.len() == 0 {
        0
    } else {
        total(s.drop_last()) + s.last()
    }
}

proof fn lemma_total_prefix(s: Seq<u64>, i: int)
    requires
        0 <= i <= s.len(),
    ensures
        total(s.subrange(0, i)) <= total(s),
    decreases s.len() - i,
{
    if i < s.len() {
        lemma_total_prefix(s, i + 1);
        assert(s.subrange(0, i + 1).drop_last() =~= s.subrange(0, i));
    } else {
        assert(s.subrange(0, i) =~= s);
    }
}

/// The total size in bytes of the cached files whose sizes are
/// `file_sizes`; `None` when it exceeds `u64::MAX`.
pub fn cache_size(file_sizes: &Vec<u64>) -> (r: Option<u64>)
    ensures
        total(file_sizes@) <= u64::MAX ==> r == Some(total(file_sizes@) as u64),
        total(file_sizes@) > u64::MAX ==> r is None,
{
    let mut sum: u64 = 0;
    let mut i: usize = 0;
    assert(file_sizes@.subrange(0, 0) =~= Seq::<u64>::empty());
    while i < file_sizes.len()
        invariant
            i <= file_sizes@.len(),
            sum == total(file_sizes@.subrange(0, i as int)),
        decreases file_sizes@.len() - i,
    {
        proof {
            assert(file_sizes@.subrange(0, i + 1).drop_last() =~= file_sizes@.subrange(0, i as int));
        }
        if file_sizes[i] > u64::MAX - sum {
            proof {
                lemma_total_prefix(file_sizes@, i + 1);
            }
            return None;
        }
        sum = sum + file_sizes[i];
        i = i + 1;
    }
    assert(file_sizes@.subrange(0, i as int) =~= file_sizes@);
    Some(sum)
}

} // verus!
