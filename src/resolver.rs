//! The dependency resolver. Each coordinate met while walking the graph gets
//! a SAT variable; root coordinates are asserted, and each accepted
//! dependency `D` of an expanded coordinate `C` adds the clause `!C | D`.
//! Fetching descriptors is left to the caller: `next_pending` names the next
//! coordinate to expand, and `expand` takes what the fetch produced.
use vstd::prelude::*;
use crate::coordinate::{key2, lemma_coordinate_round_trip, valid_field};
use crate::descriptor::{accepted, dep_key, is_interpolated, is_test_scope, Dependency, DependencyView, Project};
use crate::manifest::Manifest;
use crate::sat::{
    clause_holds, is_model, lit_ok, sat_add_clause, sat_clauses, sat_model, sat_new, sat_solve, satisfiable,
    MAX_VARS,
};
use crate::text::{str_eq, views};

verus! {

#[derive(Debug, PartialEq, Eq, Structural)]
pub enum ResolveError {
    /// The constraints admit no selection.
    Unsatisfiable,
    /// The graph holds more coordinates than the SAT engine supports.
    TooManyCoordinates,
}

/// `group:artifact:version` of a manifest entry `group:artifact -> version`.
pub open spec fn root_key(e: (Seq<char>, Seq<char>)) -> Seq<char> {
    e.0 + seq![':'] + e.1
}

/// The coordinates that a manifest's entries name.
pub open spec fn root_keys(entries: Seq<(Seq<char>, Seq<char>)>) -> Set<Seq<char>> {
    Set::new(
        |k: Seq<char>| exists|i: int| 0 <= i < entries.len() && k == #[trigger] root_key(entries[i]),
    )
}

/// `k` is an accepted dependency of some expanded descriptor.
pub open spec fn by_expansion(exps: Seq<(Seq<char>, Seq<DependencyView>)>, k: Seq<char>) -> bool {
    exists|t: int, j: int|
        0 <= t < exps.len() && 0 <= j < exps[t].1.len() && accepted(#[trigger] exps[t].1[j])
            && dep_key(exps[t].1[j]) == k
}

/// `k` is required independently of any other dependency: a root, or an
/// accepted dependency of an expanded descriptor.
pub open spec fn required(
    roots: Set<Seq<char>>,
    exps: Seq<(Seq<char>, Seq<DependencyView>)>,
    k: Seq<char>,
) -> bool {
    roots.contains(k) || by_expansion(exps, k)
}

/// The unit clause asserting variable `i`.
pub open spec fn root_clause(i: int) -> Seq<int> {
    seq![i + 1]
}

/// The unit clause denying variable `i`.
pub open spec fn ban_clause(i: int) -> Seq<int> {
    seq![-(i + 1)]
}

/// The clause `!t | c`: variable `t` implies variable `c`.
pub open spec fn edge_clause(t: int, c: int) -> Seq<int> {
    seq![-(t + 1), c + 1]
}

pub open spec fn has_clause(f: Seq<Seq<int>>, c: Seq<int>) -> bool {
    exists|q: int| 0 <= q < f.len() && #[trigger] f[q] == c
}

/// The clause has a positive literal of a registered variable, or it is the
/// exclusion of a forbidden coordinate.
pub open spec fn clause_ok(c: Seq<int>, keys: Seq<Seq<char>>, forbidden: Set<Seq<char>>) -> bool {
    (exists|k: int| 0 <= k < c.len() && 1 <= #[trigger] c[k] <= keys.len()) || (c.len() == 1 && 1
        <= -c[0] <= keys.len() && forbidden.contains(keys[-c[0] - 1]))
}

/// The coordinates whose variables the assignment `m` sets.
pub open spec fn chosen(keys: Seq<Seq<char>>, m: Seq<int>, k: Seq<char>) -> bool {
    exists|i: int| 0 <= i < keys.len() && keys[i] == k && m.contains(i + 1)
}

/// Among the first `n` of `deps`, an accepted one names `k`.
pub open spec fn lists_accepted(deps: Seq<DependencyView>, n: int, k: Seq<char>) -> bool {
    exists|j: int| 0 <= j < n && accepted(#[trigger] deps[j]) && dep_key(deps[j]) == k
}

/// `b` starts with `a`.
pub open spec fn extends_seq(a: Seq<Seq<char>>, b: Seq<Seq<char>>) -> bool {
    a.len() <= b.len() && forall|i: int| 0 <= i < a.len() ==> #[trigger] b[i] == a[i]
}

/// The dependencies a descriptor lists; none for a failed fetch.
pub open spec fn deps_of(descriptor: Option<&Project>) -> Seq<DependencyView> {
    match descriptor {
        Some(p) => p.deps(),
        None => Seq::empty(),
    }
}

pub struct Resolver {
    solver: varisat::Solver<'static>,
    keys: Vec<String>,
    next: usize,
    roots: Ghost<Set<Seq<char>>>,
    forbidden: Ghost<Set<Seq<char>>>,
    expansions: Ghost<Seq<(Seq<char>, Seq<DependencyView>)>>,
}

impl Resolver {
    /// The coordinates that have a variable; variable `i` is the `i`-th.
    pub closed spec fn registered(&self) -> Seq<Seq<char>> {
        views(self.keys@)
    }

    /// The coordinates the manifest asserts.
    pub closed spec fn roots(&self) -> Set<Seq<char>> {
        self.roots@
    }

    /// The coordinates excluded by `forbid`.
    pub closed spec fn forbidden(&self) -> Set<Seq<char>> {
        self.forbidden@
    }

    /// Each expanded coordinate, in order, with the dependencies its
    /// descriptor listed (none where the fetch failed).
    pub closed spec fn expansions(&self) -> Seq<(Seq<char>, Seq<DependencyView>)> {
        self.expansions@
    }

    /// The clauses handed to the SAT engine.
    pub closed spec fn formula(&self) -> Seq<Seq<int>> {
        sat_clauses(self.solver)
    }

    /// How many registered coordinates have been expanded.
    pub closed spec fn expanded(&self) -> nat {
        self.next as nat
    }

    /// `out` is what solving yields: the coordinates whose variables some
    /// model of the formula sets.
    pub open spec fn selects(&self, out: Seq<Seq<char>>) -> bool {
        exists|m: Seq<int>|
            is_model(m, self.formula()) && forall|k: Seq<char>|
                out.contains(k) <==> chosen(self.registered(), m, k)
    }

    pub closed spec fn inv(&self, t0: int, j0: int) -> bool {
        let keys = self.registered();
        let f = self.formula();
        let n = keys.len();
        let exps = self.expansions@;
        &&& n <= MAX_VARS
        &&& forall|i: int, j: int| 0 <= i < j < n ==> #[trigger] keys[i] != #[trigger] keys[j]
        &&& self.next <= n
        &&& exps.len() == self.next
        &&& forall|t: int| 0 <= t < exps.len() ==> #[trigger] exps[t].0 == keys[t]
        &&& forall|r: Seq<char>|
            self.roots@.contains(r) ==> exists|i: int|
                0 <= i < n && keys[i] == r && #[trigger] has_clause(f, root_clause(i))
        &&& forall|x: Seq<char>|
            self.forbidden@.contains(x) ==> exists|i: int|
                0 <= i < n && keys[i] == x && #[trigger] has_clause(f, ban_clause(i))
        &&& forall|i: int|
            0 <= i < n ==> self.roots@.contains(#[trigger] keys[i]) || self.forbidden@.contains(
                keys[i],
            ) || by_expansion(exps, keys[i])
        &&& forall|t: int, j: int|
            0 <= t < exps.len() && 0 <= j < exps[t].1.len() && !(t == t0 && j >= j0) && accepted(
                #[trigger] exps[t].1[j],
            ) ==> exists|c: int|
                0 <= c < n && keys[c] == dep_key(exps[t].1[j]) && #[trigger] has_clause(
                    f,
                    edge_clause(t, c),
                )
        &&& forall|q: int| 0 <= q < f.len() ==> clause_ok(#[trigger] f[q], keys, self.forbidden@)
    }

    /// The resolver's invariant.
    pub open spec fn wf(&self) -> bool {
        self.inv(-1, 0)
    }

    /// A resolver seeded with the manifest's dependencies, each asserted.
    pub fn new(manifest: &Manifest) -> (r: Resolver)
        requires
            manifest.dependencies@.len() <= MAX_VARS,
        ensures
            r.wf(),
            r.roots() == root_keys(manifest.entries()),
            r.forbidden().is_empty(),
            r.expansions().len() == 0,
            r.expanded() == 0,
            r.registered().len() <= manifest.dependencies@.len(),
            forall|k: Seq<char>| r.registered().contains(k) <==> r.roots().contains(k),
    {
        let mut r = Resolver {
            solver: sat_new(),
            keys: Vec::new(),
            next: 0,
            roots: Ghost(Set::empty()),
            forbidden: Ghost(Set::empty()),
            expansions: Ghost(Seq::empty()),
        };
        let ghost entries = manifest.entries();
        let mut i: usize = 0;
        assert(root_keys(entries.subrange(0, 0)) =~= Set::<Seq<char>>::empty());
        assert(r.registered() =~= Seq::<Seq<char>>::empty());
        while i < manifest.dependencies.len()
            invariant
                entries == manifest.entries(),
                entries.len() == manifest.dependencies@.len(),
                manifest.dependencies@.len() <= MAX_VARS,
                i <= manifest.dependencies@.len(),
                r.inv(-1, 0),
                r.registered().len() <= i,
                r.next == 0,
                r.roots@ == root_keys(entries.subrange(0, i as int)),
                r.forbidden@.is_empty(),
                forall|x: Seq<char>| r.registered().contains(x) <==> r.roots@.contains(x),
            decreases manifest.dependencies@.len() - i,
        {
            let key = key2(manifest.dependencies[i].0.as_str(), manifest.dependencies[i].1.as_str());
            let ghost k = key@;
            assert(k == root_key(entries[i as int]));
            let ghost r0 = r;
            let idx = r.register(key);
            proof {
                assert forall|x: Seq<char>| r.registered().contains(x) <==> (r0.registered().contains(x) || x == k) by {
                    if r.registered().contains(x) {
                        let w = choose|w: int| 0 <= w < r.registered().len() && r.registered()[w] == x;
                        if w < r0.registered().len() {
                            assert(r0.registered()[w] == x);
                        }
                    }
                    if r0.registered().contains(x) {
                        let w = choose|w: int| 0 <= w < r0.registered().len() && r0.registered()[w] == x;
                        assert(r.registered()[w] == x);
                    }
                    if x == k {
                        assert(r.registered()[idx as int] == x);
                    }
                }
            }
            let mut clause: Vec<isize> = Vec::new();
            clause.push((idx + 1) as isize);
            r.add_clause(&clause);
            proof {
                assert(clause@.map_values(|l: isize| l as int) =~= root_clause(idx as int));
                r.roots@ = r.roots@.insert(k);
                let f = r.formula();
                assert(f[f.len() - 1] == root_clause(idx as int));
                assert(has_clause(f, root_clause(idx as int)));
                assert(clause_ok(f[f.len() - 1], r.registered(), r.forbidden@)) by {
                    assert(1 <= f[f.len() - 1][0] <= r.registered().len());
                }
                r.lemma_grow(&r0, -1, 0);
                assert(root_keys(entries.subrange(0, i + 1)) =~= root_keys(
                    entries.subrange(0, i as int),
                ).insert(k)) by {
                    assert forall|x: Seq<char>|
                        #[trigger] root_keys(entries.subrange(0, i + 1)).contains(x) implies root_keys(
                        entries.subrange(0, i as int),
                    ).insert(k).contains(x) by {
                        let w = choose|w: int|
                            0 <= w < i + 1 && x == #[trigger] root_key(
                                entries.subrange(0, i + 1)[w],
                            );
                        if w < i {
                            assert(entries.subrange(0, i as int)[w] == entries.subrange(
                                0,
                                i + 1,
                            )[w]);
                        }
                    }
                    assert forall|x: Seq<char>|
                        #[trigger] root_keys(entries.subrange(0, i as int)).insert(k).contains(
                            x,
                        ) implies root_keys(entries.subrange(0, i + 1)).contains(x) by {
                        if x == k {
                            assert(x == root_key(entries.subrange(0, i + 1)[i as int]));
                        } else {
                            let w = choose|w: int|
                                0 <= w < i && x == #[trigger] root_key(
                                    entries.subrange(0, i as int)[w],
                                );
                            assert(entries.subrange(0, i as int)[w] == entries.subrange(
                                0,
                                i + 1,
                            )[w]);
                        }
                    }
                }
            }
            i = i + 1;
        }
        assert(entries.subrange(0, i as int) =~= entries);
        r
    }

    /// The variable of `key`, registering it if it is new.
    fn register(&mut self, key: String) -> (idx: usize)
        requires
            old(self).registered().len() < MAX_VARS || old(self).registered().contains(key@),
        ensures
            idx < final(self).registered().len(),
            final(self).registered()[idx as int] == key@,
            final(self).registered() == old(self).registered() || final(self).registered()
                == old(self).registered().push(key@),
            final(self).registered() == old(self).registered() ==> idx < old(self).registered().len(),
            final(self).registered().len() <= old(self).registered().len() + 1,
            old(self).registered().len() <= MAX_VARS ==> final(self).registered().len() <= MAX_VARS,
            (forall|i: int, j: int|
                0 <= i < j < old(self).registered().len() ==> #[trigger] old(self).registered()[i]
                    != #[trigger] old(self).registered()[j]) ==> (forall|i: int, j: int|
                0 <= i < j < final(self).registered().len() ==> #[trigger] final(self).registered()[i] != #[trigger] final(self).registered()[j]),
            final(self).solver == old(self).solver,
            final(self).next == old(self).next,
            final(self).roots == old(self).roots,
            final(self).forbidden == old(self).forbidden,
            final(self).expansions == old(self).expansions,
    {
        if let Some(i) = self.find(key.as_str()) {
            return i;
        }
        let ghost before = self.keys@;
        let i = self.keys.len();
        self.keys.push(key);
        proof {
            assert(views(self.keys@) =~= views(before).push(self.keys@[i as int]@));
        }
        i
    }

    fn add_clause(&mut self, clause: &Vec<isize>)
        requires
            forall|k: int| 0 <= k < clause@.len() ==> lit_ok(#[trigger] clause@[k] as int),
        ensures
            final(self).formula() == old(self).formula().push(
                clause@.map_values(|l: isize| l as int),
            ),
            final(self).keys == old(self).keys,
            final(self).next == old(self).next,
            final(self).roots == old(self).roots,
            final(self).forbidden == old(self).forbidden,
            final(self).expansions == old(self).expansions,
    {
        sat_add_clause(&mut self.solver, clause);
    }

    /// The next coordinate to expand, if any is left.
    pub fn next_pending(&self) -> (r: Option<String>)
        requires
            self.wf(),
        ensures
            r is Some <==> self.expanded() < self.registered().len(),
            r matches Some(k) ==> k@ == self.registered()[self.expanded() as int],
    {
        if self.next < self.keys.len() {
            Some(self.keys[self.next].clone())
        } else {
            None
        }
    }

    /// Expands the next pending coordinate with the dependencies that its
    /// descriptor lists; `None` stands for a descriptor that could not be
    /// fetched or parsed, which adds no dependency. Each accepted dependency
    /// gets a variable (if new) and the clause `!parent | dependency`.
    pub fn expand(&mut self, descriptor: Option<&Project>) -> (r: Result<(), ResolveError>)
        requires
            old(self).wf(),
        ensures
            final(self).wf(),
            final(self).roots() == old(self).roots(),
            final(self).forbidden() == old(self).forbidden(),
            r is Ok <==> (old(self).expanded() == old(self).registered().len()
                || old(self).registered().len() + deps_of(descriptor).len() <= MAX_VARS),
            r is Err ==> r == Err::<(), ResolveError>(ResolveError::TooManyCoordinates),
            (r is Ok && old(self).expanded() < old(self).registered().len())
                ==> final(self).expansions() == old(self).expansions().push(
                (old(self).registered()[old(self).expanded() as int], deps_of(descriptor)),
            ),
            !(r is Ok && old(self).expanded() < old(self).registered().len())
                ==> final(self).expansions() == old(self).expansions() && final(self).expanded()
                == old(self).expanded() && final(self).registered() == old(self).registered(),
            (r is Ok && old(self).expanded() < old(self).registered().len()) ==> final(self).expanded()
                == old(self).expanded() + 1,
            extends_seq(old(self).registered(), final(self).registered()),
            final(self).registered().len() <= old(self).registered().len() + deps_of(descriptor).len(),
            forall|k: Seq<char>|
                final(self).registered().contains(k) <==> (old(self).registered().contains(k) || (
                r is Ok && old(self).expanded() < old(self).registered().len() && lists_accepted(
                    deps_of(descriptor),
                    deps_of(descriptor).len() as int,
                    k,
                ))),
    {
        let p = self.next;
        if p >= self.keys.len() {
            return Ok(());
        }
        let empty: Vec<Dependency> = Vec::new();
        let deps: &Vec<Dependency> = match descriptor {
            Some(d) => &d.dependencies.dependency,
            None => &empty,
        };
        let ghost dv = deps@.map_values(|d: Dependency| d@);
        assert(dv == deps_of(descriptor));
        if deps.len() > MAX_VARS - self.keys.len() {
            return Err(ResolveError::TooManyCoordinates);
        }
        let ghost start = *self;
        let ghost parent = self.registered()[p as int];
        self.next = p + 1;
        proof {
            self.expansions@ = self.expansions@.push((parent, dv));
            self.lemma_begin_expansion(&start);
        }
        let mut j: usize = 0;
        while j < deps.len()
            invariant
                self.inv(p as int, j as int),
                self.next == p + 1,
                self.expansions@.len() == p + 1,
                self.expansions@[p as int] == (parent, dv),
                self.expansions@ == start.expansions@.push((parent, dv)),
                dv == deps@.map_values(|d: Dependency| d@),
                j <= deps@.len(),
                self.registered().len() <= start.registered().len() + j,
                start.registered().len() + deps@.len() <= MAX_VARS,
                self.roots@ == start.roots@,
                self.forbidden@ == start.forbidden@,
                extends_seq(start.registered(), self.registered()),
                forall|x: Seq<char>|
                    self.registered().contains(x) <==> (start.registered().contains(x)
                        || lists_accepted(dv, j as int, x)),
            decreases deps@.len() - j,
        {
            let ghost s0 = *self;
            if deps[j].is_accepted() {
                let key = deps[j].key();
                let ghost k = key@;
                let c = self.register(key);
                proof {
                    assert(dv[j as int] == deps@[j as int]@);
                    assert(k == dep_key(dv[j as int]));
                    assert forall|x: Seq<char>|
                        self.registered().contains(x) <==> (start.registered().contains(x)
                            || lists_accepted(dv, j + 1, x)) by {
                        if self.registered().contains(x) {
                            let w = choose|w: int| 0 <= w < self.registered().len() && self.registered()[w] == x;
                            if w < s0.registered().len() {
                                assert(s0.registered()[w] == x);
                                assert(s0.registered().contains(x));
                                if lists_accepted(dv, j as int, x) {
                                    let jj = choose|jj: int| 0 <= jj < j && accepted(#[trigger] dv[jj]) && dep_key(dv[jj]) == x;
                                    assert(lists_accepted(dv, j + 1, x));
                                }
                            } else {
                                assert(accepted(dv[j as int]));
                                assert(lists_accepted(dv, j + 1, x));
                            }
                        }
                        if start.registered().contains(x) {
                            let w = choose|w: int| 0 <= w < start.registered().len() && start.registered()[w] == x;
                            assert(s0.registered()[w] == x);
                            assert(self.registered()[w] == x);
                        }
                        if lists_accepted(dv, j + 1, x) {
                            let jj = choose|jj: int| 0 <= jj < j + 1 && accepted(#[trigger] dv[jj]) && dep_key(dv[jj]) == x;
                            if jj < j {
                                assert(lists_accepted(dv, j as int, x));
                                assert(s0.registered().contains(x));
                                let w = choose|w: int| 0 <= w < s0.registered().len() && s0.registered()[w] == x;
                                assert(self.registered()[w] == x);
                            } else {
                                assert(self.registered()[c as int] == x);
                            }
                        }
                    }
                }
                let mut clause: Vec<isize> = Vec::new();
                clause.push(-((p + 1) as isize));
                clause.push((c + 1) as isize);
                self.add_clause(&clause);
                proof {
                    assert(clause@.map_values(|l: isize| l as int) =~= edge_clause(p as int, c as int));
                    let f = self.formula();
                    assert(f[f.len() - 1] == edge_clause(p as int, c as int));
                    assert(has_clause(f, edge_clause(p as int, c as int)));
                    assert(clause_ok(f[f.len() - 1], self.registered(), self.forbidden@)) by {
                        assert(1 <= f[f.len() - 1][1] <= self.registered().len());
                    }
                    assert(self.expansions@[p as int].1[j as int] == dv[j as int]);
                    assert(by_expansion(self.expansions@, k));
                    self.lemma_grow(&s0, p as int, j as int);
                    self.lemma_inv_step(p as int, j as int, c as int);
                }
            } else {
                proof {
                    assert(dv[j as int] == deps@[j as int]@);
                    assert(!accepted(self.expansions@[p as int].1[j as int]));
                    self.lemma_inv_step(p as int, j as int, 0);
                    assert forall|x: Seq<char>| lists_accepted(dv, j + 1, x) implies lists_accepted(dv, j as int, x) by {
                        let jj = choose|jj: int| 0 <= jj < j + 1 && accepted(#[trigger] dv[jj]) && dep_key(dv[jj]) == x;
                        assert(jj < j);
                    }
                }
            }
            j = j + 1;
        }
        proof {
            self.lemma_inv_close(p as int, j as int);
        }
        Ok(())
    }

    /// Excludes the coordinate `key`: its variable must be false. This can
    /// make the constraints unsatisfiable.
    pub fn forbid(&mut self, key: String) -> (r: Result<(), ResolveError>)
        requires
            old(self).wf(),
        ensures
            final(self).wf(),
            final(self).roots() == old(self).roots(),
            final(self).expansions() == old(self).expansions(),
            r is Ok <==> (old(self).registered().len() < MAX_VARS || old(self).registered().contains(key@)),
            r is Ok ==> final(self).forbidden() == old(self).forbidden().insert(key@),
            r is Err ==> r == Err::<(), ResolveError>(ResolveError::TooManyCoordinates)
                && final(self).forbidden() == old(self).forbidden(),
    {
        if self.keys.len() >= MAX_VARS && self.find(key.as_str()).is_none() {
            return Err(ResolveError::TooManyCoordinates);
        }
        let ghost s0 = *self;
        let ghost k = key@;
        let c = self.register(key);
        let mut clause: Vec<isize> = Vec::new();
        clause.push(-((c + 1) as isize));
        assert(clause@[0] as int == -(c + 1));
        self.add_clause(&clause);
        proof {
            self.forbidden@ = self.forbidden@.insert(k);
            assert(clause@.map_values(|l: isize| l as int) =~= ban_clause(c as int));
            let f = self.formula();
            assert(f[f.len() - 1] == ban_clause(c as int));
            assert(has_clause(f, ban_clause(c as int)));
            assert(clause_ok(f[f.len() - 1], self.registered(), self.forbidden@));
            self.lemma_grow(&s0, -1, 0);
        }
        Ok(())
    }

    /// Solves the constraints. The answer is owed: `Ok` exactly when the
    /// formula is satisfiable, holding each coordinate whose variable the
    /// model found sets, once, in the model's order; `Unsatisfiable`
    /// otherwise.
    pub fn solve(&mut self) -> (r: Result<Vec<String>, ResolveError>)
        requires
            old(self).wf(),
        ensures
            final(self).wf(),
            final(self).registered() == old(self).registered(),
            final(self).roots() == old(self).roots(),
            final(self).forbidden() == old(self).forbidden(),
            final(self).expansions() == old(self).expansions(),
            final(self).expanded() == old(self).expanded(),
            final(self).formula() == old(self).formula(),
            r is Ok <==> satisfiable(old(self).formula()),
            r is Err ==> r == Err::<Vec<String>, ResolveError>(ResolveError::Unsatisfiable),
            r matches Ok(out) ==> final(self).selects(views(out@)) && views(out@).no_duplicates(),
    {
        let answer = sat_solve(&mut self.solver);
        proof {
            assert(self.formula() == old(self).formula());
            assert(self.registered() == old(self).registered());
            assert(self.wf());
        }
        match answer {
            Some(true) => {},
            _ => {
                return Err(ResolveError::Unsatisfiable);
            },
        }
        let model = sat_model(&self.solver);
        let m = match model {
            Some(m) => m,
            None => {
                return Err(ResolveError::Unsatisfiable);
            },
        };
        proof {
            assert(self.formula() == old(self).formula());
            assert(self.registered() == old(self).registered());
            assert(self.wf());
        }
        let ghost mv = m@.map_values(|l: isize| l as int);
        let ghost keys = self.registered();
        let n = self.keys.len();
        let mut seen: Vec<bool> = Vec::new();
        while seen.len() < n
            invariant
                n == self.keys@.len(),
                seen@.len() <= n,
                forall|i: int| 0 <= i < seen@.len() ==> !#[trigger] seen@[i],
            decreases n - seen@.len(),
        {
            seen.push(false);
        }
        let mut out: Vec<String> = Vec::new();
        let mut t: usize = 0;
        proof {
            assert(views(out@) =~= Seq::<Seq<char>>::empty());
        }
        while t < m.len()
            invariant
                self.wf(),
                keys == self.registered(),
                n == keys.len(),
                mv == m@.map_values(|l: isize| l as int),
                t <= m@.len(),
                seen@.len() == n,
                forall|i: int| 0 <= i < n ==> (#[trigger] seen@[i] <==> views(out@).contains(keys[i])),
                views(out@).no_duplicates(),
                forall|k: Seq<char>|
                    views(out@).contains(k) <==> exists|u: int|
                        0 <= u < t && 1 <= #[trigger] mv[u] <= keys.len() && keys[mv[u] - 1] == k,
            decreases m@.len() - t,
        {
            let l = m[t];
            if l > 0 && (l as usize) <= n {
                let idx = (l as usize) - 1;
                assert(keys[idx as int] == self.keys@[idx as int]@);
                if !seen[idx] {
                    let ghost before = views(out@);
                    let ghost seen0 = seen@;
                    out.push(self.keys[idx].clone());
                    seen.set(idx, true);
                    proof {
                        assert(views(out@) =~= before.push(keys[idx as int]));
                        assert(!before.contains(keys[idx as int]));
                        assert forall|i: int, j: int|
                            0 <= i < views(out@).len() && 0 <= j < views(out@).len() && i != j implies views(out@)[i] != views(out@)[j] by {
                            if i < before.len() && j < before.len() {
                            } else if i < before.len() {
                                assert(before.contains(views(out@)[i]));
                            } else {
                                assert(before.contains(views(out@)[j]));
                            }
                        }
                        assert forall|i: int| 0 <= i < n implies (#[trigger] seen@[i] <==> views(out@).contains(keys[i])) by {
                            if i != idx {
                                assert(seen@[i] == seen0[i]);
                                assert(keys[i] != keys[idx as int]);
                                if views(out@).contains(keys[i]) {
                                    let w = choose|w: int| 0 <= w < views(out@).len() && views(out@)[w] == keys[i];
                                    assert(w < before.len());
                                    assert(before.contains(keys[i]));
                                }
                                if before.contains(keys[i]) {
                                    let w = choose|w: int| 0 <= w < before.len() && before[w] == keys[i];
                                    assert(views(out@)[w] == keys[i]);
                                }
                            } else {
                                assert(views(out@)[before.len() as int] == keys[i]);
                            }
                        }
                        assert forall|k: Seq<char>|
                            views(out@).contains(k) <==> exists|u: int|
                                0 <= u < t + 1 && 1 <= #[trigger] mv[u] <= keys.len() && keys[mv[u] - 1] == k by {
                            if views(out@).contains(k) {
                                let w = choose|w: int| 0 <= w < views(out@).len() && views(out@)[w] == k;
                                if w < before.len() {
                                    assert(before[w] == k);
                                    assert(before.contains(k));
                                } else {
                                    assert(1 <= mv[t as int] <= keys.len() && keys[mv[t as int] - 1] == k);
                                }
                            }
                            if exists|u: int| 0 <= u < t + 1 && 1 <= #[trigger] mv[u] <= keys.len() && keys[mv[u] - 1] == k {
                                let u = choose|u: int| 0 <= u < t + 1 && 1 <= #[trigger] mv[u] <= keys.len() && keys[mv[u] - 1] == k;
                                if u < t {
                                    assert(before.contains(k));
                                    let w = choose|w: int| 0 <= w < before.len() && before[w] == k;
                                    assert(views(out@)[w] == k);
                                } else {
                                    assert(views(out@)[before.len() as int] == k);
                                }
                            }
                        }
                    }
                } else {
                    proof {
                        assert(views(out@).contains(keys[idx as int]));
                        assert forall|k: Seq<char>|
                            views(out@).contains(k) <==> exists|u: int|
                                0 <= u < t + 1 && 1 <= #[trigger] mv[u] <= keys.len() && keys[mv[u] - 1] == k by {
                            if exists|u: int| 0 <= u < t + 1 && 1 <= #[trigger] mv[u] <= keys.len() && keys[mv[u] - 1] == k {
                                let u = choose|u: int| 0 <= u < t + 1 && 1 <= #[trigger] mv[u] <= keys.len() && keys[mv[u] - 1] == k;
                                if u == t {
                                    assert(k == keys[idx as int]);
                                }
                            }
                            if views(out@).contains(k) {
                                let u = choose|u: int| 0 <= u < t && 1 <= #[trigger] mv[u] <= keys.len() && keys[mv[u] - 1] == k;
                                assert(u < t + 1);
                            }
                        }
                    }
                }
            } else {
                proof {
                    assert forall|k: Seq<char>|
                        views(out@).contains(k) <==> exists|u: int|
                            0 <= u < t + 1 && 1 <= #[trigger] mv[u] <= keys.len() && keys[mv[u] - 1] == k by {
                        if exists|u: int| 0 <= u < t + 1 && 1 <= #[trigger] mv[u] <= keys.len() && keys[mv[u] - 1] == k {
                            let u = choose|u: int| 0 <= u < t + 1 && 1 <= #[trigger] mv[u] <= keys.len() && keys[mv[u] - 1] == k;
                            assert(u < t);
                        }
                    }
                }
            }
            t = t + 1;
        }
        proof {
            assert(is_model(mv, self.formula()));
            assert forall|k: Seq<char>| views(out@).contains(k) <==> chosen(keys, mv, k) by {
                if views(out@).contains(k) {
                    let u = choose|u: int| 0 <= u < t && 1 <= #[trigger] mv[u] <= keys.len() && keys[mv[u] - 1] == k;
                    assert(mv.contains(mv[u] - 1 + 1));
                }
                if chosen(keys, mv, k) {
                    let i = choose|i: int| 0 <= i < keys.len() && keys[i] == k && mv.contains(i + 1);
                    let u = choose|u: int| 0 <= u < mv.len() && mv[u] == i + 1;
                    assert(1 <= mv[u] <= keys.len() && keys[mv[u] - 1] == k);
                }
            }
        }
        Ok(out)
    }

    /// The variable of `key`, if registered.
    fn find(&self, key: &str) -> (r: Option<usize>)
        ensures
            r matches Some(i) ==> i < self.registered().len() && self.registered()[i as int] == key@,
            r is None ==> !self.registered().contains(key@),
    {
        let mut i: usize = 0;
        while i < self.keys.len()
            invariant
                i <= self.keys@.len(),
                forall|j: int| 0 <= j < i ==> #[trigger] self.keys@[j]@ != key@,
            decreases self.keys@.len() - i,
        {
            if str_eq(self.keys[i].as_str(), key) {
                return Some(i);
            }
            i = i + 1;
        }
        proof {
            if views(self.keys@).contains(key@) {
                let w = choose|w: int| 0 <= w < views(self.keys@).len() && views(self.keys@)[w] == key@;
                assert(self.keys@[w]@ == key@);
            }
        }
        None
    }

    /// Opening the expansion of the next coordinate keeps the invariant, with
    /// that expansion's dependencies not yet linked.
    proof fn lemma_begin_expansion(&self, prev: &Resolver)
        requires
            prev.wf(),
            prev.next < prev.registered().len(),
            self.next == prev.next + 1,
            self.keys == prev.keys,
            self.solver == prev.solver,
            self.roots == prev.roots,
            self.forbidden == prev.forbidden,
            self.expansions@.len() == prev.expansions@.len() + 1,
            forall|t: int| 0 <= t < prev.expansions@.len() ==> #[trigger] self.expansions@[t] == prev.expansions@[t],
            self.expansions@[prev.next as int].0 == prev.registered()[prev.next as int],
        ensures
            self.inv(prev.next as int, 0),
    {
        let exps = self.expansions@;
        let pexps = prev.expansions@;
        let keys = self.registered();
        assert forall|i: int| 0 <= i < keys.len() implies self.roots@.contains(#[trigger] keys[i])
            || self.forbidden@.contains(keys[i]) || by_expansion(exps, keys[i]) by {
            if by_expansion(pexps, keys[i]) {
                let (t, j) = choose|t: int, j: int|
                    0 <= t < pexps.len() && 0 <= j < pexps[t].1.len() && accepted(#[trigger] pexps[t].1[j])
                        && dep_key(pexps[t].1[j]) == keys[i];
                assert(exps[t] == pexps[t]);
                assert(accepted(exps[t].1[j]));
            }
        }
        assert forall|t: int| 0 <= t < exps.len() implies #[trigger] exps[t].0 == keys[t] by {
            if t < pexps.len() {
                assert(exps[t] == pexps[t]);
            }
        }
        let t0 = prev.next as int;
        assert forall|t: int, j: int|
            0 <= t < exps.len() && 0 <= j < exps[t].1.len() && !(t == t0 && j >= 0) && accepted(
                #[trigger] exps[t].1[j],
            ) implies exists|c: int|
                0 <= c < keys.len() && keys[c] == dep_key(exps[t].1[j]) && #[trigger] has_clause(
                    self.formula(),
                    edge_clause(t, c),
                ) by {
            assert(t < pexps.len());
            assert(exps[t] == pexps[t]);
            assert(accepted(pexps[t].1[j]));
            let c = choose|c: int|
                0 <= c < prev.registered().len() && prev.registered()[c] == dep_key(pexps[t].1[j])
                    && #[trigger] has_clause(prev.formula(), edge_clause(t, c));
            assert(has_clause(self.formula(), edge_clause(t, c)));
        }
        assert(self.registered() == prev.registered());
        assert(self.formula() == prev.formula());
    }

    /// Linking dependency `j0` of expansion `t0` (or finding it not
    /// accepted) advances the exemption past it.
    proof fn lemma_inv_step(&self, t0: int, j0: int, c: int)
        requires
            self.inv(t0, j0),
            0 <= t0 < self.expansions@.len(),
            0 <= j0 < self.expansions@[t0].1.len(),
            accepted(self.expansions@[t0].1[j0]) ==> 0 <= c < self.registered().len()
                && self.registered()[c] == dep_key(self.expansions@[t0].1[j0])
                && has_clause(self.formula(), edge_clause(t0, c)),
        ensures
            self.inv(t0, j0 + 1),
    {
        let exps = self.expansions@;
        let keys = self.registered();
        assert forall|t: int, j: int|
            0 <= t < exps.len() && 0 <= j < exps[t].1.len() && !(t == t0 && j >= j0 + 1) && accepted(
                #[trigger] exps[t].1[j],
            ) implies exists|c: int|
                0 <= c < keys.len() && keys[c] == dep_key(exps[t].1[j]) && #[trigger] has_clause(
                    self.formula(),
                    edge_clause(t, c),
                ) by {
            if t == t0 && j == j0 {
                assert(has_clause(self.formula(), edge_clause(t0, c)));
            }
        }
    }

    /// Once every dependency of expansion `t0` is linked, the full invariant
    /// holds.
    proof fn lemma_inv_close(&self, t0: int, j0: int)
        requires
            self.inv(t0, j0),
            0 <= t0 < self.expansions@.len(),
            j0 >= self.expansions@[t0].1.len(),
        ensures
            self.wf(),
    {
        let exps = self.expansions@;
        let keys = self.registered();
        assert forall|t: int, j: int|
            0 <= t < exps.len() && 0 <= j < exps[t].1.len() && !(t == -1 && j >= 0) && accepted(
                #[trigger] exps[t].1[j],
            ) implies exists|c: int|
                0 <= c < keys.len() && keys[c] == dep_key(exps[t].1[j]) && #[trigger] has_clause(
                    self.formula(),
                    edge_clause(t, c),
                ) by {
            assert(!(t == t0 && j >= j0));
        }
    }

    /// What the invariant keeps when keys and clauses only grow and the last
    /// clause added satisfies `clause_ok`.
    proof fn lemma_grow(&self, prev: &Resolver, t0: int, j0: int)
        requires
            prev.inv(t0, j0),
            self.next == prev.next,
            self.expansions == prev.expansions,
            prev.forbidden@.subset_of(self.forbidden@),
            forall|x: Seq<char>| #[trigger] self.forbidden@.contains(x) && !prev.forbidden@.contains(x) ==> exists|i: int|
                0 <= i < self.registered().len() && self.registered()[i] == x && #[trigger] has_clause(self.formula(), ban_clause(i)),
            prev.roots@.subset_of(self.roots@),
            self.registered().len() <= MAX_VARS,
            prev.registered().len() <= self.registered().len(),
            forall|i: int| 0 <= i < prev.registered().len() ==> #[trigger] self.registered()[i] == prev.registered()[i],
            forall|i: int, j: int|
                0 <= i < j < self.registered().len() ==> #[trigger] self.registered()[i] != #[trigger] self.registered()[j],
            prev.formula().len() <= self.formula().len(),
            forall|q: int| 0 <= q < prev.formula().len() ==> #[trigger] self.formula()[q] == prev.formula()[q],
            forall|q: int| prev.formula().len() <= q < self.formula().len() ==> clause_ok(#[trigger] self.formula()[q], self.registered(), self.forbidden@),
            forall|r: Seq<char>| #[trigger] self.roots@.contains(r) && !prev.roots@.contains(r) ==> exists|i: int|
                0 <= i < self.registered().len() && self.registered()[i] == r && #[trigger] has_clause(self.formula(), root_clause(i)),
            forall|i: int| prev.registered().len() <= i < self.registered().len() ==> self.roots@.contains(#[trigger] self.registered()[i]) || self.forbidden@.contains(self.registered()[i]) || by_expansion(self.expansions@, self.registered()[i]),
        ensures
            self.inv(t0, j0),
    {
        let keys = self.registered();
        let f = self.formula();
        let pk = prev.registered();
        let pf = prev.formula();
        assert forall|c: Seq<int>| has_clause(pf, c) implies has_clause(f, c) by {
            let q = choose|q: int| 0 <= q < pf.len() && #[trigger] pf[q] == c;
            assert(f[q] == c);
        }
        assert forall|r: Seq<char>| self.roots@.contains(r) implies exists|i: int|
            0 <= i < keys.len() && keys[i] == r && #[trigger] has_clause(f, root_clause(i)) by {
            if prev.roots@.contains(r) {
                let i = choose|i: int| 0 <= i < pk.len() && pk[i] == r && #[trigger] has_clause(pf, root_clause(i));
                assert(keys[i] == r);
                assert(has_clause(f, root_clause(i)));
            }
        }
        assert forall|x: Seq<char>| self.forbidden@.contains(x) implies exists|i: int|
            0 <= i < keys.len() && keys[i] == x && #[trigger] has_clause(f, ban_clause(i)) by {
            if prev.forbidden@.contains(x) {
            let i = choose|i: int| 0 <= i < pk.len() && pk[i] == x && #[trigger] has_clause(pf, ban_clause(i));
            assert(keys[i] == x);
            assert(has_clause(f, ban_clause(i)));
            }
        }
        assert forall|i: int| 0 <= i < keys.len() implies self.roots@.contains(#[trigger] keys[i]) || self.forbidden@.contains(keys[i]) || by_expansion(self.expansions@, keys[i]) by {
            if i < pk.len() {
                assert(keys[i] == pk[i]);
                if prev.forbidden@.contains(pk[i]) {
                    assert(self.forbidden@.contains(pk[i]));
                }
            }
        }
        let exps = self.expansions@;
        assert forall|t: int, j: int|
            0 <= t < exps.len() && 0 <= j < exps[t].1.len() && !(t == t0 && j >= j0) && accepted(
                #[trigger] exps[t].1[j],
            ) implies exists|c: int|
                0 <= c < keys.len() && keys[c] == dep_key(exps[t].1[j]) && #[trigger] has_clause(
                    f,
                    edge_clause(t, c),
                ) by {
            let c = choose|c: int|
                0 <= c < pk.len() && pk[c] == dep_key(exps[t].1[j]) && #[trigger] has_clause(
                    pf,
                    edge_clause(t, c),
                );
            assert(keys[c] == pk[c]);
            assert(has_clause(f, edge_clause(t, c)));
        }
        assert forall|q: int| 0 <= q < f.len() implies clause_ok(#[trigger] f[q], keys, self.forbidden@) by {
            if q < pf.len() {
                assert(f[q] == pf[q]);
                assert(clause_ok(pf[q], pk, self.forbidden@));
                if exists|k: int| 0 <= k < pf[q].len() && 1 <= #[trigger] pf[q][k] <= pk.len() {
                    let k = choose|k: int| 0 <= k < pf[q].len() && 1 <= #[trigger] pf[q][k] <= pk.len();
                    assert(1 <= f[q][k] <= keys.len());
                } else {
                    assert(keys[-pf[q][0] - 1] == pk[-pf[q][0] - 1]);
                    assert(prev.forbidden@.contains(pk[-pf[q][0] - 1]));
                    assert(self.forbidden@.contains(pk[-pf[q][0] - 1]));
                }
            }
        }
        assert forall|t: int| 0 <= t < exps.len() implies #[trigger] exps[t].0 == keys[t] by {
            assert(prev.expansions@[t].0 == pk[t]);
        }
    }
}

/// What the invariant tells about the registered coordinates: no repeats,
/// within the engine's limit, expanded ones first and in order.
pub proof fn lemma_wf_facts(r: &Resolver)
    requires
        r.wf(),
    ensures
        r.registered().no_duplicates(),
        r.registered().len() <= MAX_VARS,
        r.expanded() <= r.registered().len(),
        r.expansions().len() == r.expanded(),
        forall|t: int| 0 <= t < r.expansions().len() ==> #[trigger] r.expansions()[t].0 == r.registered()[t],
{
    let keys = r.registered();
    assert forall|i: int, j: int| 0 <= i < keys.len() && 0 <= j < keys.len() && i != j implies keys[i] != keys[j] by {
        if i < j {
            assert(keys[i] != keys[j]);
        } else {
            assert(keys[j] != keys[i]);
        }
    }
}

/// Every coordinate the manifest names is in every selection.
pub proof fn lemma_roots_selected(r: &Resolver, out: Seq<Seq<char>>, root: Seq<char>)
    requires
        r.wf(),
        r.selects(out),
        r.roots().contains(root),
    ensures
        out.contains(root),
{
    let keys = r.registered();
    let f = r.formula();
    let i = choose|i: int| 0 <= i < keys.len() && keys[i] == root && #[trigger] has_clause(f, root_clause(i));
    let m = choose|m: Seq<int>| is_model(m, f) && forall|k: Seq<char>| out.contains(k) <==> chosen(keys, m, k);
    let q = choose|q: int| 0 <= q < f.len() && #[trigger] f[q] == root_clause(i);
    assert(clause_holds(m, f[q]));
    let w = choose|w: int| 0 <= w < f[q].len() && m.contains(#[trigger] f[q][w]);
    assert(f[q][w] == i + 1);
    assert(chosen(keys, m, root));
}

/// Every dependency the manifest lists, `group:artifact -> version`, gives
/// the coordinate `group:artifact:version`, and that coordinate is selected.
pub proof fn lemma_manifest_entry_selected(
    r: &Resolver,
    out: Seq<Seq<char>>,
    entries: Seq<(Seq<char>, Seq<char>)>,
    i: int,
)
    requires
        r.wf(),
        r.selects(out),
        r.roots() == root_keys(entries),
        0 <= i < entries.len(),
    ensures
        out.contains(root_key(entries[i])),
{
    assert(root_keys(entries).contains(root_key(entries[i])));
    lemma_roots_selected(r, out, root_key(entries[i]));
}

/// A selected coordinate brings each accepted dependency of its descriptor
/// into the selection.
pub proof fn lemma_dependency_selected(r: &Resolver, out: Seq<Seq<char>>, t: int, j: int)
    requires
        r.wf(),
        r.selects(out),
        0 <= t < r.expansions().len(),
        0 <= j < r.expansions()[t].1.len(),
        accepted(r.expansions()[t].1[j]),
        out.contains(r.expansions()[t].0),
    ensures
        out.contains(dep_key(r.expansions()[t].1[j])),
{
    let keys = r.registered();
    let f = r.formula();
    let exps = r.expansions();
    let d = exps[t].1[j];
    let c = choose|c: int| 0 <= c < keys.len() && keys[c] == dep_key(d) && #[trigger] has_clause(f, edge_clause(t, c));
    let m = choose|m: Seq<int>| is_model(m, f) && forall|k: Seq<char>| out.contains(k) <==> chosen(keys, m, k);
    assert(chosen(keys, m, exps[t].0));
    let i = choose|i: int| 0 <= i < keys.len() && keys[i] == exps[t].0 && m.contains(i + 1);
    assert(i == t);
    let q = choose|q: int| 0 <= q < f.len() && #[trigger] f[q] == edge_clause(t, c);
    assert(clause_holds(m, f[q]));
    let w = choose|w: int| 0 <= w < f[q].len() && m.contains(#[trigger] f[q][w]);
    if w == 0 {
        let a = choose|a: int| 0 <= a < m.len() && m[a] == t + 1;
        let b = choose|b: int| 0 <= b < m.len() && m[b] == -(t + 1);
        assert(m[a] == -m[b]);
    }
    assert(m.contains(c + 1));
    assert(chosen(keys, m, dep_key(d)));
}

/// Only required coordinates are selected, and never a forbidden one.
pub proof fn lemma_selected_required(r: &Resolver, out: Seq<Seq<char>>, k: Seq<char>)
    requires
        r.wf(),
        r.selects(out),
        out.contains(k),
    ensures
        required(r.roots(), r.expansions(), k),
        !r.forbidden().contains(k),
{
    let keys = r.registered();
    let f = r.formula();
    let m = choose|m: Seq<int>| is_model(m, f) && forall|k: Seq<char>| out.contains(k) <==> chosen(keys, m, k);
    assert(chosen(keys, m, k));
    let i = choose|i: int| 0 <= i < keys.len() && keys[i] == k && m.contains(i + 1);
    assert(r.roots@.contains(keys[i]) || r.forbidden@.contains(keys[i]) || by_expansion(r.expansions@, keys[i]));
    if r.forbidden@.contains(k) {
        let i2 = choose|i2: int| 0 <= i2 < keys.len() && keys[i2] == k && #[trigger] has_clause(f, ban_clause(i2));
        assert(i2 == i);
        let q = choose|q: int| 0 <= q < f.len() && #[trigger] f[q] == ban_clause(i);
        assert(clause_holds(m, f[q]));
        let w = choose|w: int| 0 <= w < f[q].len() && m.contains(#[trigger] f[q][w]);
        let a = choose|a: int| 0 <= a < m.len() && m[a] == i + 1;
        let b = choose|b: int| 0 <= b < m.len() && m[b] == f[q][w];
        assert(m[a] == -m[b]);
    }
}

/// A test-scoped dependency is not followed: its coordinate is selected
/// only if something else requires it.
pub proof fn lemma_test_scope_omitted(r: &Resolver, out: Seq<Seq<char>>, d: DependencyView)
    requires
        r.wf(),
        r.selects(out),
        is_test_scope(d),
        d.version is Some,
        !required(r.roots(), r.expansions(), dep_key(d)),
    ensures
        !accepted(d),
        !out.contains(dep_key(d)),
{
    if out.contains(dep_key(d)) {
        lemma_selected_required(r, out, dep_key(d));
    }
}

/// A dependency whose version names a property (`${...}`) is not followed:
/// its coordinate is selected only if something else requires it.
pub proof fn lemma_interpolation_omitted(r: &Resolver, out: Seq<Seq<char>>, d: DependencyView)
    requires
        r.wf(),
        r.selects(out),
        d.version is Some,
        is_interpolated(d.version->0),
        !required(r.roots(), r.expansions(), dep_key(d)),
    ensures
        !accepted(d),
        !out.contains(dep_key(d)),
{
    if out.contains(dep_key(d)) {
        lemma_selected_required(r, out, dep_key(d));
    }
}

/// A dependency whose group, artifact and version (when given) are valid
/// coordinate fields.
pub open spec fn valid_dependency(d: DependencyView) -> bool {
    valid_field(d.group_id) && valid_field(d.artifact_id) && (d.version matches Some(v)
        ==> valid_field(v))
}

/// A dependency whose version names a property (`${...}`) is never
/// selected through any descriptor: among valid dependencies, only a
/// manifest entry can bring its coordinate in.
pub proof fn lemma_interpolated_never_selected(r: &Resolver, out: Seq<Seq<char>>, d: DependencyView)
    requires
        r.wf(),
        r.selects(out),
        valid_dependency(d),
        d.version is Some,
        is_interpolated(d.version->0),
        forall|t: int, j: int|
            0 <= t < r.expansions().len() && 0 <= j < r.expansions()[t].1.len() ==> valid_dependency(
                #[trigger] r.expansions()[t].1[j],
            ),
        !r.roots().contains(dep_key(d)),
    ensures
        !out.contains(dep_key(d)),
{
    if out.contains(dep_key(d)) {
        lemma_selected_required(r, out, dep_key(d));
        let exps = r.expansions();
        let (t, j) = choose|t: int, j: int|
            0 <= t < exps.len() && 0 <= j < exps[t].1.len() && accepted(#[trigger] exps[t].1[j])
                && dep_key(exps[t].1[j]) == dep_key(d);
        let e = exps[t].1[j];
        assert(valid_dependency(e));
        lemma_coordinate_round_trip(e.group_id, e.artifact_id, e.version->0);
        lemma_coordinate_round_trip(d.group_id, d.artifact_id, d.version->0);
        assert(e.version->0 == d.version->0);
    }
}

/// Without exclusions the constraints always have a model (select
/// everything), so solving can fail as unsatisfiable only after `forbid`.
pub proof fn lemma_satisfiable_without_exclusions(r: &Resolver)
    requires
        r.wf(),
        r.forbidden().is_empty(),
    ensures
        satisfiable(r.formula()),
{
    let keys = r.registered();
    let f = r.formula();
    let m = Seq::new(keys.len(), |i: int| i + 1);
    assert forall|j: int| 0 <= j < f.len() implies clause_holds(m, #[trigger] f[j]) by {
        assert(clause_ok(f[j], keys, r.forbidden@));
        if !(exists|k: int| 0 <= k < f[j].len() && 1 <= #[trigger] f[j][k] <= keys.len()) {
            assert(r.forbidden@.contains(keys[-f[j][0] - 1]));
        }
        let k = choose|k: int| 0 <= k < f[j].len() && 1 <= #[trigger] f[j][k] <= keys.len();
        assert(m[f[j][k] - 1] == f[j][k]);
    }
    assert(is_model(m, f));
}

} // verus!
