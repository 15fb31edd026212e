//! The SAT solver, as far as the equivalence check relies on it.

use cat_solver::Solver;
use vstd::prelude::*;

verus! {

#[verifier::external_type_specification]
#[verifier::external_body]
pub struct ExSolver(cat_solver::Solver);

/// The clauses that were added to the solver, in the order in which they
/// were added.
pub uninterp spec fn solver_clauses(solver: Solver) -> Seq<Seq<i32>>;

/// Whether the solver has searched for a solution. It searches once: a
/// solver that has searched takes no clause and searches no more.
pub uninterp spec fn solver_searched(solver: Solver) -> bool;

/// The largest number that the solver takes for a variable.
pub const MAX_VARIABLE: i32 = 0x3fff_ffff;

/// Whether the solver takes the number as a literal: a variable from 1 to
/// `MAX_VARIABLE`, or the negation of one.
pub open spec fn is_literal(lit: i32) -> bool {
    lit != 0 && -MAX_VARIABLE <= lit <= MAX_VARIABLE
}

/// Whether a literal holds under an assignment of the variables.
pub open spec fn literal_holds(lit: i32, assignment: spec_fn(int) -> bool) -> bool {
    if lit > 0 {
        assignment(lit as int)
    } else {
        !assignment(-lit)
    }
}

/// Whether the assignment makes some literal of the clause hold.
pub open spec fn satisfies_clause(assignment: spec_fn(int) -> bool, clause: Seq<i32>) -> bool {
    exists|k: int| 0 <= k < clause.len() && literal_holds(#[trigger] clause[k], assignment)
}

/// Whether the assignment makes some literal of each clause hold.
pub open spec fn satisfies(assignment: spec_fn(int) -> bool, clauses: Seq<Seq<i32>>) -> bool {
    forall|i: int| 0 <= i < clauses.len() ==> satisfies_clause(assignment, #[trigger] clauses[i])
}

/// Whether some assignment of the variables satisfies the clauses.
pub open spec fn satisfiable(clauses: Seq<Seq<i32>>) -> bool {
    exists|assignment: spec_fn(int) -> bool| satisfies(assignment, clauses)
}

/// `cat_solver::Solver::new`: a solver that holds no clause and has not
/// searched.
#[verifier::external_body]
pub(crate) fn solver_new() -> (solver: Solver)
    ensures
        solver_clauses(solver) == Seq::<Seq<i32>>::empty(),
        !solver_searched(solver),
{
    Solver::new()
}

/// `cat_solver::Solver::add_clause`: the solver holds one clause more. The
/// solver stops the process on a number that is no literal, and on any
/// clause after it has searched.
#[verifier::external_body]
pub(crate) fn solver_add_clause(solver: &mut Solver, clause: &Vec<i32>)
    requires
        !solver_searched(*old(solver)),
        forall|k: int| 0 <= k < clause@.len() ==> is_literal(#[trigger] clause@[k]),
    ensures
        solver_clauses(*final(solver)) == solver_clauses(*old(solver)).push(clause@),
        !solver_searched(*final(solver)),
{
    solver.add_clause(clause.iter().copied())
}

/// `cat_solver::Solver::solve`: searches for an assignment that satisfies
/// the clauses. The answer is `Some(true)` only where there is one,
/// `Some(false)` only where there is none, and `None` where the solver
/// gave up. The solver stops the process on a second search.
#[verifier::external_body]
pub(crate) fn solver_solve(solver: &mut Solver) -> (answer: Option<bool>)
    requires
        !solver_searched(*old(solver)),
    ensures
        solver_searched(*final(solver)),
        solver_clauses(*final(solver)) == solver_clauses(*old(solver)),
        answer == Some(true) ==> satisfiable(solver_clauses(*old(solver))),
        answer == Some(false) ==> !satisfiable(solver_clauses(*old(solver))),
{
    solver.solve()
}

/// `cat_solver::Solver::value`: the value of a literal in the solution that
/// the solver found, if it has one for it. Nothing is claimed of it.
#[verifier::external_body]
pub(crate) fn solver_value(solver: &Solver, lit: i32) -> (value: Option<bool>)
    requires
        is_literal(lit),
{
    solver.value(lit)
}

} // verus!
