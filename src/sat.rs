//! The SAT engine, varisat, behind trusted items. Literals are handed over in
//! DIMACS form: variable `i` (0-based) is `i + 1`, its negation `-(i + 1)`.
use vstd::prelude::*;

verus! {

#[verifier::external_type_specification]
#[verifier::external_body]
pub struct ExSolver<'a>(varisat::Solver<'a>);

/// The largest number of variables varisat supports (`Var::max_count`).
pub const MAX_VARS: usize = 268435456;

/// The clauses added to a solver so far, in order of addition.
pub uninterp spec fn sat_clauses(s: varisat::Solver<'static>) -> Seq<Seq<int>>;

/// The last call of `solve` on this solver found the formula satisfiable.
pub uninterp spec fn sat_found(s: varisat::Solver<'static>) -> bool;

pub open spec fn lit_ok(l: int) -> bool {
    l != 0 && -(MAX_VARS as int) <= l <= MAX_VARS as int
}

/// No variable occurs in `m` with both signs.
pub open spec fn consistent(m: Seq<int>) -> bool {
    forall|i: int, j: int| 0 <= i < m.len() && 0 <= j < m.len() ==> #[trigger] m[i] != -#[trigger] m[j]
}

/// Some literal of clause `c` is in `m`.
pub open spec fn clause_holds(m: Seq<int>, c: Seq<int>) -> bool {
    exists|k: int| 0 <= k < c.len() && m.contains(#[trigger] c[k])
}

/// `m` is a consistent set of literals that makes every clause true.
pub open spec fn is_model(m: Seq<int>, f: Seq<Seq<int>>) -> bool {
    consistent(m) && forall|j: int| 0 <= j < f.len() ==> clause_holds(m, #[trigger] f[j])
}

pub open spec fn satisfiable(f: Seq<Seq<int>>) -> bool {
    exists|m: Seq<int>| is_model(m, f)
}

/// Relies on varisat::Solver::new: a fresh solver holds no clause.
#[verifier::external_body]
pub(crate) fn sat_new() -> (s: varisat::Solver<'static>)
    ensures
        sat_clauses(s) == Seq::<Seq<int>>::empty(),
{
    varisat::Solver::new()
}

/// Relies on varisat's `ExtendFormula::add_clause` for `Solver`: the clause
/// joins the formula. `Lit::from_dimacs` supports indices up to `MAX_VARS`.
#[verifier::external_body]
pub(crate) fn sat_add_clause(s: &mut varisat::Solver<'static>, clause: &Vec<isize>)
    requires
        forall|k: int| 0 <= k < clause@.len() ==> lit_ok(#[trigger] clause@[k] as int),
    ensures
        sat_clauses(*final(s)) == sat_clauses(*old(s)).push(
            clause@.map_values(|l: isize| l as int),
        ),
{
    let lits: Vec<varisat::Lit> = clause.iter().map(|&l| varisat::Lit::from_dimacs(l)).collect();
    varisat::ExtendFormula::add_clause(s, &lits)
}

/// Relies on varisat::Solver::solve: `Ok(true)` when the formula is
/// satisfiable, `Ok(false)` when it is not (no assumptions are ever set
/// here). It fails only with a proof writer or processor attached, which
/// this crate never does, so the answer always comes.
#[verifier::external_body]
pub(crate) fn sat_solve(s: &mut varisat::Solver<'static>) -> (r: Option<bool>)
    ensures
        sat_clauses(*final(s)) == sat_clauses(*old(s)),
        r is Some,
        r == Some(true) ==> sat_found(*final(s)),
        r == Some(true) ==> satisfiable(sat_clauses(*old(s))),
        r == Some(false) ==> !satisfiable(sat_clauses(*old(s))),
{
    s.solve().ok()
}

/// Relies on varisat::Solver::model: after a satisfiable `solve`, a set of
/// literals that satisfies the formula.
#[verifier::external_body]
pub(crate) fn sat_model(s: &varisat::Solver<'static>) -> (r: Option<Vec<isize>>)
    ensures
        sat_found(*s) ==> r is Some,
        sat_found(*s) ==> is_model(r->0@.map_values(|l: isize| l as int), sat_clauses(*s)),
{
    s.model().map(|m| m.iter().map(|l| l.to_dimacs()).collect())
}

} // verus!
