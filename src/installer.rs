//! The installer's decisions. For each selected coordinate the caller
//! observes the project library and the cache, asks `plan` which file
//! operations to perform, performs them, and hands the resulting archive to
//! `record`. The lock file built this way is what gets saved.
use vstd::prelude::*;
use crate::coordinate::{archive_ext, file_name_of, repo_path_of, under, Coordinate};
use crate::lockfile::{
    opt_bytes, opt_checksum, recorded_checksum, verify_spec, LockFile, LockedView,
};
use crate::text::views;

verus! {

/// A file operation the installer asks for.
pub enum FileOp {
    /// Copy the file at `from` to `to`, creating `to`'s directories.
    Copy { from: String, to: String },
    /// Download `url` into the file `to`.
    Download { url: String, to: String },
}

pub enum FileOpView {
    Copy { from: Seq<char>, to: Seq<char> },
    Download { url: Seq<char>, to: Seq<char> },
}

impl View for FileOp {
    type V = FileOpView;

    open spec fn view(&self) -> FileOpView {
        match self {
            FileOp::Copy { from, to } => FileOpView::Copy { from: from@, to: to@ },
            FileOp::Download { url, to } => FileOpView::Download { url: url@, to: to@ },
        }
    }
}

#[derive(Debug, PartialEq, Eq)]
pub enum InstallError {
    /// Frozen mode: the archive does not match the lock file.
    ChecksumMismatch(String),
    /// Offline mode: the archive is not in the cache.
    MissingInCacheOffline(String),
}

/// Where the installer works.
pub struct InstallConfig {
    /// The project library directory.
    pub lib_dir: String,
    /// The root of the content cache.
    pub cache_root: String,
    /// The remote repository's base address.
    pub remote_base: String,
    /// Verify archives against the reference lock file.
    pub frozen: bool,
    /// Never download.
    pub offline: bool,
}

pub struct ConfigView {
    pub lib_dir: Seq<char>,
    pub cache_root: Seq<char>,
    pub remote_base: Seq<char>,
    pub frozen: bool,
    pub offline: bool,
}

impl View for InstallConfig {
    type V = ConfigView;

    open spec fn view(&self) -> ConfigView {
        ConfigView {
            lib_dir: self.lib_dir@,
            cache_root: self.cache_root@,
            remote_base: self.remote_base@,
            frozen: self.frozen,
            offline: self.offline,
        }
    }
}

/// A coordinate as `(group, artifact, version)`.
pub type CoordView = (Seq<char>, Seq<char>, Seq<char>);

pub open spec fn coord_view(c: &Coordinate) -> CoordView {
    (c.group@, c.artifact@, c.version@)
}

pub open spec fn key_of(c: CoordView) -> Seq<char> {
    c.0 + seq![':'] + c.1 + seq![':'] + c.2
}

/// `<lib>/<artifact>-<version>.jar`.
pub open spec fn dest_of(cfg: ConfigView, c: CoordView) -> Seq<char> {
    cfg.lib_dir + "/"@ + file_name_of(c.1, c.2, archive_ext())
}

/// The archive's place in the cache.
pub open spec fn cache_of(cfg: ConfigView, c: CoordView) -> Seq<char> {
    cfg.cache_root + "/"@ + repo_path_of(c.0, c.1, c.2, archive_ext())
}

/// The archive's remote address.
pub open spec fn url_of(cfg: ConfigView, c: CoordView) -> Seq<char> {
    cfg.remote_base + "/"@ + repo_path_of(c.0, c.1, c.2, archive_ext())
}

/// What `plan` decides.
pub enum Outcome {
    Ops(Seq<FileOpView>),
    Mismatch(Seq<char>),
    Missing(Seq<char>),
}

/// The decision for coordinate `c` given the library's archive `dest`
/// (`None`: absent) and whether the cache holds it: in frozen mode the
/// archive must pass against the reference lock; a cache hit is copied into
/// the library unless an archive is already there; a miss fails offline and
/// is otherwise downloaded into the library and then copied into the cache.
pub open spec fn plan_spec(
    cfg: ConfigView,
    reference: Map<Seq<char>, LockedView>,
    c: CoordView,
    dest: Option<Seq<u8>>,
    cached: bool,
) -> Outcome {
    if cfg.frozen && !verify_spec(reference, key_of(c), opt_checksum(dest)) {
        Outcome::Mismatch(key_of(c))
    } else if cached {
        if dest is None {
            Outcome::Ops(seq![FileOpView::Copy { from: cache_of(cfg, c), to: dest_of(cfg, c) }])
        } else {
            Outcome::Ops(Seq::empty())
        }
    } else if cfg.offline {
        Outcome::Missing(key_of(c))
    } else {
        Outcome::Ops(
            seq![
                FileOpView::Download { url: url_of(cfg, c), to: dest_of(cfg, c) },
                FileOpView::Copy { from: dest_of(cfg, c), to: cache_of(cfg, c) },
            ],
        )
    }
}

pub open spec fn outcome_of(r: Result<Vec<FileOp>, InstallError>) -> Outcome {
    match r {
        Ok(ops) => Outcome::Ops(ops@.map_values(|o: FileOp| o@)),
        Err(InstallError::ChecksumMismatch(k)) => Outcome::Mismatch(k@),
        Err(InstallError::MissingInCacheOffline(k)) => Outcome::Missing(k@),
    }
}

/// What the lock file records for `c` when its archive in the library is
/// `archive`.
pub open spec fn locked_entry(c: CoordView, archive: Option<Seq<u8>>) -> LockedView {
    LockedView {
        version: c.2,
        checksum: recorded_checksum(archive),
        dependencies: Seq::<Seq<char>>::empty(),
    }
}

pub struct Installer {
    config: InstallConfig,
    reference: LockFile,
    lock: LockFile,
}

impl Installer {
    pub closed spec fn config_view(&self) -> ConfigView {
        self.config@
    }

    /// The lock file that frozen mode verifies against.
    pub closed spec fn reference_map(&self) -> Map<Seq<char>, LockedView> {
        self.reference.packages_map()
    }

    /// The lock file built so far.
    pub closed spec fn lock_map(&self) -> Map<Seq<char>, LockedView> {
        self.lock.packages_map()
    }

    pub closed spec fn wf(&self) -> bool {
        self.reference.wf() && self.lock.wf()
    }

    /// An installer that verifies against `reference` in frozen mode and
    /// builds a fresh lock file.
    pub fn new(config: InstallConfig, reference: LockFile) -> (r: Installer)
        requires
            reference.wf(),
        ensures
            r.wf(),
            r.config_view() == config@,
            r.reference_map() == reference.packages_map(),
            r.lock_map() == Map::<Seq<char>, LockedView>::empty(),
    {
        Installer { config, reference, lock: LockFile::new() }
    }

    /// `<lib>/<artifact>-<version>.jar`.
    pub fn destination(&self, c: &Coordinate) -> (r: String)
        ensures
            r@ == dest_of(self.config_view(), coord_view(c)),
    {
        let name = c.archive_file_name();
        under(self.config.lib_dir.as_str(), name.as_str())
    }

    /// The archive's place in the cache.
    pub fn cache_path(&self, c: &Coordinate) -> (r: String)
        ensures
            r@ == cache_of(self.config_view(), coord_view(c)),
    {
        let rel = c.repo_path("jar");
        under(self.config.cache_root.as_str(), rel.as_str())
    }

    /// What to do for coordinate `c`, given the library's archive `dest`
    /// (`None`: absent) and whether the cache holds the archive.
    pub fn plan(&self, c: &Coordinate, dest: Option<&[u8]>, cached: bool) -> (r: Result<
        Vec<FileOp>,
        InstallError,
    >)
        requires
            self.wf(),
        ensures
            outcome_of(r) == plan_spec(
                self.config_view(),
                self.reference_map(),
                coord_view(c),
                opt_bytes(dest),
                cached,
            ),
    {
        let key = c.canonical();
        if self.config.frozen && !self.reference.verify_package(key.as_str(), dest) {
            return Err(InstallError::ChecksumMismatch(key));
        }
        let to = self.destination(c);
        let cache = self.cache_path(c);
        let mut ops: Vec<FileOp> = Vec::new();
        if cached {
            if dest.is_none() {
                ops.push(FileOp::Copy { from: cache, to });
            }
        } else if self.config.offline {
            return Err(InstallError::MissingInCacheOffline(key));
        } else {
            let url = c.archive_url(self.config.remote_base.as_str());
            let to2 = to.clone();
            ops.push(FileOp::Download { url, to });
            ops.push(FileOp::Copy { from: to2, to: cache });
        }
        let ghost expected = plan_spec(
            self.config_view(),
            self.reference_map(),
            coord_view(c),
            opt_bytes(dest),
            cached,
        );
        assert(outcome_of(Ok::<Vec<FileOp>, InstallError>(ops)) == expected) by {
            if let Outcome::Ops(e) = expected {
                assert(ops@.map_values(|o: FileOp| o@) =~= e);
            }
        }
        Ok(ops)
    }

    /// Records `c` with its library archive `archive` (`None`: absent).
    pub fn record(&mut self, c: &Coordinate, archive: Option<&[u8]>)
        requires
            old(self).wf(),
        ensures
            final(self).wf(),
            final(self).config_view() == old(self).config_view(),
            final(self).reference_map() == old(self).reference_map(),
            final(self).lock_map() == old(self).lock_map().insert(
                key_of(coord_view(c)),
                locked_entry(coord_view(c), opt_bytes(archive)),
            ),
    {
        let key = c.canonical();
        let deps: Vec<String> = Vec::new();
        assert(views(deps@) =~= Seq::<Seq<char>>::empty());
        self.lock.add_package(key, c.version.clone(), archive, deps);
    }

    /// The lock file built by the `record` calls.
    pub fn into_lock(self) -> (r: LockFile)
        requires
            self.wf(),
        ensures
            r.wf(),
            r.packages_map() == self.lock_map(),
    {
        self.lock
    }
}

/// The file at `path`, if any.
pub open spec fn lookup(fs: Map<Seq<char>, Seq<u8>>, path: Seq<char>) -> Option<Seq<u8>> {
    if fs.contains_key(path) {
        Some(fs[path])
    } else {
        None
    }
}

/// The files after `op`; `net` is what the remote serves at each address.
pub open spec fn apply_op(
    fs: Map<Seq<char>, Seq<u8>>,
    net: Map<Seq<char>, Seq<u8>>,
    op: FileOpView,
) -> Map<Seq<char>, Seq<u8>> {
    match op {
        FileOpView::Copy { from, to } => if fs.contains_key(from) {
            fs.insert(to, fs[from])
        } else {
            fs
        },
        FileOpView::Download { url, to } => if net.contains_key(url) {
            fs.insert(to, net[url])
        } else {
            fs
        },
    }
}

pub open spec fn apply_ops(
    fs: Map<Seq<char>, Seq<u8>>,
    net: Map<Seq<char>, Seq<u8>>,
    ops: Seq<FileOpView>,
) -> Map<Seq<char>, Seq<u8>>
    decreases ops.len(),
{
    if ops.len() == 0 {
        fs
    } else {
        apply_op(apply_ops(fs, net, ops.drop_last()), net, ops.last())
    }
}

/// An install of `coords`, in order, over the files `fs`: for each
/// coordinate, plan, perform the operations, record the library archive.
/// `None` when some plan fails; else the files and the lock file after.
pub open spec fn run_spec(
    cfg: ConfigView,
    reference: Map<Seq<char>, LockedView>,
    coords: Seq<CoordView>,
    fs: Map<Seq<char>, Seq<u8>>,
    net: Map<Seq<char>, Seq<u8>>,
) -> Option<(Map<Seq<char>, Seq<u8>>, Map<Seq<char>, LockedView>)>
    decreases coords.len(),
{
    if coords.len() == 0 {
        Some((fs, Map::empty()))
    } else {
        match run_spec(cfg, reference, coords.drop_last(), fs, net) {
            None => None,
            Some((fs1, lock1)) => {
                let c = coords.last();
                match plan_spec(
                    cfg,
                    reference,
                    c,
                    lookup(fs1, dest_of(cfg, c)),
                    fs1.contains_key(cache_of(cfg, c)),
                ) {
                    Outcome::Ops(ops) => {
                        let fs2 = apply_ops(fs1, net, ops);
                        Some((fs2, lock1.insert(key_of(c), locked_entry(c, lookup(fs2, dest_of(cfg, c))))))
                    },
                    _ => None,
                }
            },
        }
    }
}

/// The lock file that records each of `coords` with its archive in `fs`.
pub open spec fn lock_of(coords: Seq<CoordView>, cfg: ConfigView, fs: Map<Seq<char>, Seq<u8>>) -> Map<
    Seq<char>,
    LockedView,
>
    decreases coords.len(),
{
    if coords.len() == 0 {
        Map::empty()
    } else {
        lock_of(coords.drop_last(), cfg, fs).insert(
            key_of(coords.last()),
            locked_entry(coords.last(), lookup(fs, dest_of(cfg, coords.last()))),
        )
    }
}

/// `b` holds every file of `a`, unchanged.
pub open spec fn extends(a: Map<Seq<char>, Seq<u8>>, b: Map<Seq<char>, Seq<u8>>) -> bool {
    forall|p: Seq<char>| a.contains_key(p) ==> #[trigger] b.contains_key(p) && b[p] == a[p]
}

/// With every archive in the cache, an install only adds files, leaves each
/// selected archive in the library, and records each as the library holds
/// it in any extension of the result.
proof fn lemma_run_full_cache(
    cfg: ConfigView,
    reference: Map<Seq<char>, LockedView>,
    coords: Seq<CoordView>,
    fs0: Map<Seq<char>, Seq<u8>>,
    net: Map<Seq<char>, Seq<u8>>,
    fs1: Map<Seq<char>, Seq<u8>>,
    lock1: Map<Seq<char>, LockedView>,
    big: Map<Seq<char>, Seq<u8>>,
)
    requires
        run_spec(cfg, reference, coords, fs0, net) == Some((fs1, lock1)),
        forall|i: int| 0 <= i < coords.len() ==> fs0.contains_key(#[trigger] cache_of(cfg, coords[i])),
        extends(fs1, big),
    ensures
        extends(fs0, fs1),
        forall|i: int| 0 <= i < coords.len() ==> fs1.contains_key(#[trigger] dest_of(cfg, coords[i])),
        lock1 == lock_of(coords, cfg, big),
        cfg.frozen ==> forall|i: int|
            0 <= i < coords.len() ==> verify_spec(
                reference,
                key_of(coords[i]),
                opt_checksum(lookup(big, dest_of(cfg, #[trigger] coords[i]))),
            ),
    decreases coords.len(),
{
    if coords.len() > 0 {
        let prefix = coords.drop_last();
        let c = coords.last();
        let (fsp, lockp) = run_spec(cfg, reference, prefix, fs0, net)->0;
        let dest = dest_of(cfg, c);
        let cache = cache_of(cfg, c);
        assert(fs0.contains_key(cache_of(cfg, coords[coords.len() - 1])));
        let outcome = plan_spec(cfg, reference, c, lookup(fsp, dest), fsp.contains_key(cache));
        let ops = outcome->Ops_0;
        assert(fs1 == apply_ops(fsp, net, ops));
        // The cache already held the archive before this step.
        assert(extends(fs0, fsp) && forall|i: int| 0 <= i < prefix.len() ==> fsp.contains_key(#[trigger] dest_of(cfg, prefix[i]))) by {
            assert forall|i: int| 0 <= i < prefix.len() implies fs0.contains_key(#[trigger] cache_of(cfg, prefix[i])) by {
                assert(prefix[i] == coords[i]);
            }
            lemma_run_full_cache(cfg, reference, prefix, fs0, net, fsp, lockp, fsp);
        }
        assert(fsp.contains_key(cache));
        if lookup(fsp, dest) is None {
            assert(ops =~= seq![FileOpView::Copy { from: cache, to: dest }]);
            assert(ops.drop_last() =~= Seq::<FileOpView>::empty());
            assert(apply_ops(fsp, net, ops.drop_last()) == fsp);
            assert(fs1 == fsp.insert(dest, fsp[cache]));
        } else {
            assert(ops =~= Seq::<FileOpView>::empty());
            assert(fs1 == fsp);
        }
        assert(extends(fsp, fs1));
        assert forall|p: Seq<char>| fs0.contains_key(p) implies #[trigger] fs1.contains_key(p) && fs1[p] == fs0[p] by {
            assert(fsp.contains_key(p));
        }
        assert(extends(fsp, big)) by {
            assert forall|p: Seq<char>| fsp.contains_key(p) implies #[trigger] big.contains_key(p) && big[p] == fsp[p] by {
                assert(fs1.contains_key(p));
            }
        }
        assert forall|i: int| 0 <= i < prefix.len() implies fs0.contains_key(#[trigger] cache_of(cfg, prefix[i])) by {
            assert(prefix[i] == coords[i]);
        }
        lemma_run_full_cache(cfg, reference, prefix, fs0, net, fsp, lockp, big);
        assert forall|i: int| 0 <= i < coords.len() implies fs1.contains_key(#[trigger] dest_of(cfg, coords[i])) by {
            if i < prefix.len() {
                assert(prefix[i] == coords[i]);
                assert(fsp.contains_key(dest_of(cfg, prefix[i])));
            }
        }
        assert(lookup(fs1, dest) == lookup(big, dest));
        assert(lock1 == lockp.insert(key_of(c), locked_entry(c, lookup(fs1, dest))));
        if cfg.frozen {
            assert forall|i: int| 0 <= i < coords.len() implies verify_spec(
                reference,
                key_of(coords[i]),
                opt_checksum(lookup(big, dest_of(cfg, #[trigger] coords[i]))),
            ) by {
                if i < prefix.len() {
                    assert(prefix[i] == coords[i]);
                    assert(verify_spec(reference, key_of(prefix[i]), opt_checksum(lookup(big, dest_of(cfg, prefix[i])))));
                } else {
                    assert(verify_spec(reference, key_of(c), opt_checksum(lookup(fsp, dest))));
                    if lookup(fsp, dest) is Some {
                        assert(lookup(big, dest) == lookup(fsp, dest));
                    }
                }
            }
        }
    }
}

/// Over files where each archive is already in the library and in the
/// cache (and passes in frozen mode), an install performs no operation and
/// records each archive as it is.
proof fn lemma_run_settled(
    cfg: ConfigView,
    reference: Map<Seq<char>, LockedView>,
    coords: Seq<CoordView>,
    fs: Map<Seq<char>, Seq<u8>>,
    net: Map<Seq<char>, Seq<u8>>,
)
    requires
        forall|i: int| 0 <= i < coords.len() ==> fs.contains_key(#[trigger] dest_of(cfg, coords[i])),
        forall|i: int| 0 <= i < coords.len() ==> fs.contains_key(#[trigger] cache_of(cfg, coords[i])),
        cfg.frozen ==> forall|i: int|
            0 <= i < coords.len() ==> verify_spec(
                reference,
                key_of(coords[i]),
                opt_checksum(lookup(fs, dest_of(cfg, #[trigger] coords[i]))),
            ),
    ensures
        run_spec(cfg, reference, coords, fs, net) == Some((fs, lock_of(coords, cfg, fs))),
    decreases coords.len(),
{
    if coords.len() > 0 {
        let prefix = coords.drop_last();
        let c = coords.last();
        let n = coords.len() - 1;
        assert(c == coords[n]);
        assert(fs.contains_key(dest_of(cfg, coords[n])));
        assert(fs.contains_key(cache_of(cfg, coords[n])));
        if cfg.frozen {
            assert(verify_spec(reference, key_of(coords[n]), opt_checksum(lookup(fs, dest_of(cfg, coords[n])))));
        }
        assert forall|i: int| 0 <= i < prefix.len() implies fs.contains_key(#[trigger] dest_of(cfg, prefix[i])) by {
            assert(prefix[i] == coords[i]);
        }
        assert forall|i: int| 0 <= i < prefix.len() implies fs.contains_key(#[trigger] cache_of(cfg, prefix[i])) by {
            assert(prefix[i] == coords[i]);
        }
        if cfg.frozen {
            assert forall|i: int| 0 <= i < prefix.len() implies verify_spec(
                reference,
                key_of(prefix[i]),
                opt_checksum(lookup(fs, dest_of(cfg, #[trigger] prefix[i]))),
            ) by {
                assert(prefix[i] == coords[i]);
            }
        }
        lemma_run_settled(cfg, reference, prefix, fs, net);
        let outcome = plan_spec(cfg, reference, c, lookup(fs, dest_of(cfg, c)), true);
        assert(outcome == Outcome::Ops(Seq::<FileOpView>::empty()));
        assert(apply_ops(fs, net, Seq::<FileOpView>::empty()) == fs);
    }
}

/// Installing twice in a row over a full cache, with the same configuration
/// and reference lock, leaves the files as the first install left them and
/// records the same lock file.
pub proof fn lemma_install_idempotent(
    cfg: ConfigView,
    reference: Map<Seq<char>, LockedView>,
    coords: Seq<CoordView>,
    fs0: Map<Seq<char>, Seq<u8>>,
    net: Map<Seq<char>, Seq<u8>>,
    fs1: Map<Seq<char>, Seq<u8>>,
    lock1: Map<Seq<char>, LockedView>,
)
    requires
        run_spec(cfg, reference, coords, fs0, net) == Some((fs1, lock1)),
        forall|i: int| 0 <= i < coords.len() ==> fs0.contains_key(#[trigger] cache_of(cfg, coords[i])),
    ensures
        run_spec(cfg, reference, coords, fs1, net) == Some((fs1, lock1)),
{
    lemma_run_full_cache(cfg, reference, coords, fs0, net, fs1, lock1, fs1);
    assert forall|i: int| 0 <= i < coords.len() implies fs1.contains_key(#[trigger] cache_of(cfg, coords[i])) by {
        assert(fs0.contains_key(cache_of(cfg, coords[i])));
    }
    lemma_run_settled(cfg, reference, coords, fs1, net);
}

/// A plan for an archive the cache already holds never writes to the
/// cache: the cached bytes stay as they are.
pub proof fn lemma_cache_not_overwritten(
    cfg: ConfigView,
    reference: Map<Seq<char>, LockedView>,
    c: CoordView,
    dest: Option<Seq<u8>>,
    fs: Map<Seq<char>, Seq<u8>>,
    net: Map<Seq<char>, Seq<u8>>,
)
    requires
        fs.contains_key(cache_of(cfg, c)),
        dest_of(cfg, c) != cache_of(cfg, c),
        plan_spec(cfg, reference, c, dest, true) is Ops,
    ensures
        apply_ops(fs, net, plan_spec(cfg, reference, c, dest, true)->Ops_0).contains_key(cache_of(cfg, c)),
        apply_ops(fs, net, plan_spec(cfg, reference, c, dest, true)->Ops_0)[cache_of(cfg, c)] == fs[cache_of(cfg, c)],
{
    let ops = plan_spec(cfg, reference, c, dest, true)->Ops_0;
    if ops.len() > 0 {
        assert(ops.drop_last() =~= Seq::<FileOpView>::empty());
        assert(apply_ops(fs, net, ops.drop_last()) == fs);
    }
}

} // verus!
