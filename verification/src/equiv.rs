//! Equivalence checking: networks as clauses, and the verdict of a SAT
//! solver on them.

use crate::meaning::{
    flat, flat_outputs, lemma_flat_len, lemma_flat_outputs, lemma_flat_outputs_same,
    lemma_miter_meaning, lemma_unrolled_run,
};
use crate::miter::{lemma_miter_same, lemma_miter_sound, miter, miter_of, miter_signal};
use crate::network::eval::lemma_valuation_follows;
use crate::network::aig::Aig;
use crate::network::view::AigView;
use crate::network::eval::trace_view;
use crate::network::gates::Gate;
use crate::network::signal::{Signal, SignalKind, Valuation};
use crate::solver::{
    is_literal, literal_holds, satisfiable, satisfies, satisfies_clause, solver_add_clause,
    solver_clauses, solver_new, solver_solve, solver_value, MAX_VARIABLE,
};
use crate::unroll::{lemma_unrolled_sound, lemma_unrolled_upto, unroll};
use cat_solver::Solver;
use core::ops::Not;
use vstd::prelude::*;

verus! {

/// Whether some signal of the clause holds under the valuation.
pub open spec fn clause_holds(clause: Seq<Signal>, v: Valuation) -> bool {
    exists|k: int| 0 <= k < clause.len() && (#[trigger] clause[k]).eval(v)
}

/// Whether every clause holds under the valuation.
pub open spec fn clauses_hold(clauses: Seq<Seq<Signal>>, v: Valuation) -> bool {
    forall|i: int| 0 <= i < clauses.len() ==> clause_holds(#[trigger] clauses[i], v)
}

/// The clauses that tie the signal `n` to the value of a combinational
/// gate over its operands; none for a flip-flop.
pub open spec fn gate_clauses(n: Signal, g: Gate) -> Seq<Seq<Signal>> {
    let m = n.complement();
    match g {
        Gate::And(a, b) => seq![seq![a, m], seq![b, m], seq![a.complement(), b.complement(), n]],
        Gate::Xor(a, b) => seq![
            seq![a, b, m],
            seq![a.complement(), b.complement(), m],
            seq![a.complement(), b, n],
            seq![a, b.complement(), n],
        ],
        Gate::And3(a, b, c) => seq![
            seq![a, m],
            seq![b, m],
            seq![c, m],
            seq![a.complement(), b.complement(), c.complement(), n],
        ],
        Gate::Xor3(a, b, c) => seq![
            seq![a, b, c, m],
            seq![a, b, c.complement(), n],
            seq![a, b.complement(), c, n],
            seq![a, b.complement(), c.complement(), m],
            seq![a.complement(), b, c, n],
            seq![a.complement(), b, c.complement(), m],
            seq![a.complement(), b.complement(), c, m],
            seq![a.complement(), b.complement(), c.complement(), n],
        ],
        Gate::Mux(s, a, b) => seq![
            seq![s.complement(), a.complement(), n],
            seq![s.complement(), a, m],
            seq![s, b.complement(), n],
            seq![s, b, m],
            seq![a, b, m],
            seq![a.complement(), b.complement(), n],
        ],
        Gate::Maj(a, b, c) => seq![
            seq![a.complement(), b.complement(), n],
            seq![b.complement(), c.complement(), n],
            seq![a.complement(), c.complement(), n],
            seq![a, b, m],
            seq![b, c, m],
            seq![a, c, m],
        ],
        Gate::Dff(_, _, _) => Seq::empty(),
    }
}

/// The clauses of the first `upto` nodes of a network, node after node.
pub open spec fn network_clauses(nodes: Seq<Gate>, upto: nat) -> Seq<Seq<Signal>>
    decreases upto,
{
    if upto == 0 {
        Seq::empty()
    } else {
        network_clauses(nodes, (upto - 1) as nat) + gate_clauses(
            Signal::node((upto - 1) as u32),
            nodes[upto - 1],
        )
    }
}

/// The clauses held by a vector of vectors.
pub open spec fn clauses_view(clauses: Seq<Vec<Signal>>) -> Seq<Seq<Signal>> {
    Seq::new(clauses.len(), |i: int| clauses[i]@)
}

/// The clauses of a gate hold exactly when the signal has the value of the
/// gate.
pub proof fn lemma_gate_clauses(n: Signal, g: Gate, v: Valuation)
    requires
        !(g is Dff),
    ensures
        clauses_hold(gate_clauses(n, g), v) <==> n.eval(v) == g.eval(v, false),
{
    let cs = gate_clauses(n, g);
    let m = n.complement();
    assert(m.eval(v) == !n.eval(v));
    if clauses_hold(cs, v) {
        assert(forall|i: int| 0 <= i < cs.len() ==> clause_holds(#[trigger] cs[i], v));
        match g {
            Gate::And(a, b) => {
                assert(clause_holds(cs[0], v) && clause_holds(cs[1], v) && clause_holds(cs[2], v));
            },
            Gate::Xor(a, b) => {
                assert(clause_holds(cs[0], v) && clause_holds(cs[1], v) && clause_holds(cs[2], v)
                    && clause_holds(cs[3], v));
            },
            Gate::And3(a, b, c) => {
                assert(clause_holds(cs[0], v) && clause_holds(cs[1], v) && clause_holds(cs[2], v)
                    && clause_holds(cs[3], v));
            },
            Gate::Xor3(a, b, c) => {
                assert(clause_holds(cs[0], v) && clause_holds(cs[1], v) && clause_holds(cs[2], v)
                    && clause_holds(cs[3], v));
                assert(clause_holds(cs[4], v) && clause_holds(cs[5], v) && clause_holds(cs[6], v)
                    && clause_holds(cs[7], v));
            },
            Gate::Mux(s, a, b) => {
                assert(clause_holds(cs[0], v) && clause_holds(cs[1], v) && clause_holds(cs[2], v)
                    && clause_holds(cs[3], v));
            },
            Gate::Maj(a, b, c) => {
                assert(clause_holds(cs[0], v) && clause_holds(cs[1], v) && clause_holds(cs[2], v)
                    && clause_holds(cs[3], v));
                assert(clause_holds(cs[4], v) && clause_holds(cs[5], v));
            },
            Gate::Dff(_, _, _) => {},
        }
    }
    if n.eval(v) == g.eval(v, false) {
        assert forall|i: int| 0 <= i < cs.len() implies clause_holds(#[trigger] cs[i], v) by {
            let c = cs[i];
            let a = g.operands()[0];
            let b = g.operands()[1];
            assert(a.complement().eval(v) == !a.eval(v));
            assert(b.complement().eval(v) == !b.eval(v));
            if g.operands().len() == 3 {
                let d = g.operands()[2];
                assert(d.complement().eval(v) == !d.eval(v));
            }
            assert(c[0].eval(v) || c[1].eval(v) || (c.len() >= 3 && c[2].eval(v)) || (c.len() >= 4
                && c[3].eval(v)));
        }
    }
}

/// The clauses of a combinational network hold exactly when each node has
/// the value of its gate.
pub proof fn lemma_network_clauses(nodes: Seq<Gate>, upto: nat, v: Valuation)
    requires
        upto <= nodes.len(),
        upto <= u32::MAX,
        forall|i: int| 0 <= i < upto ==> !((#[trigger] nodes[i]) is Dff),
    ensures
        clauses_hold(network_clauses(nodes, upto), v) <==> forall|i: int|
            0 <= i < upto ==> v.nodes[i] == (#[trigger] nodes[i]).eval(v, false),
    decreases upto,
{
    if upto > 0 {
        let before = network_clauses(nodes, (upto - 1) as nat);
        let n = Signal::node((upto - 1) as u32);
        let last = gate_clauses(n, nodes[upto - 1]);
        let all = network_clauses(nodes, upto);
        lemma_network_clauses(nodes, (upto - 1) as nat, v);
        lemma_gate_clauses(n, nodes[upto - 1], v);
        assert(n.eval(v) == v.nodes[upto - 1]);
        if clauses_hold(all, v) {
            assert forall|i: int| 0 <= i < before.len() implies clause_holds(
                #[trigger] before[i],
                v,
            ) by {
                assert(all[i] == before[i]);
            }
            assert forall|i: int| 0 <= i < last.len() implies clause_holds(#[trigger] last[i], v) by {
                assert(all[before.len() + i] == last[i]);
            }
        }
        if forall|i: int| 0 <= i < upto ==> v.nodes[i] == (#[trigger] nodes[i]).eval(v, false) {
            assert forall|i: int| 0 <= i < all.len() implies clause_holds(#[trigger] all[i], v) by {
                if i < before.len() {
                    assert(all[i] == before[i]);
                } else {
                    assert(all[i] == last[i - before.len()]);
                }
            }
        }
    }
}

fn clause_2(a: Signal, b: Signal) -> (c: Vec<Signal>)
    ensures
        c@ == seq![a, b],
{
    let mut c: Vec<Signal> = Vec::new();
    c.push(a);
    c.push(b);
    assert(c@ =~= seq![a, b]);
    c
}

fn clause_3(a: Signal, b: Signal, c: Signal) -> (r: Vec<Signal>)
    ensures
        r@ == seq![a, b, c],
{
    let mut r: Vec<Signal> = Vec::new();
    r.push(a);
    r.push(b);
    r.push(c);
    assert(r@ =~= seq![a, b, c]);
    r
}

fn clause_4(a: Signal, b: Signal, c: Signal, d: Signal) -> (r: Vec<Signal>)
    ensures
        r@ == seq![a, b, c, d],
{
    let mut r: Vec<Signal> = Vec::new();
    r.push(a);
    r.push(b);
    r.push(c);
    r.push(d);
    assert(r@ =~= seq![a, b, c, d]);
    r
}

/// Appends the clauses that tie `n` to the value of `g`.
fn push_gate_clauses(ret: &mut Vec<Vec<Signal>>, n: Signal, g: &Gate)
    requires
        !(g is Dff),
    ensures
        clauses_view(final(ret)@) == clauses_view(old(ret)@) + gate_clauses(n, *g),
{
    let ghost before = clauses_view(ret@);
    let m = n.not();
    match g {
        Gate::And(a, b) => {
            ret.push(clause_2(*a, m));
            ret.push(clause_2(*b, m));
            ret.push(clause_3(a.not(), b.not(), n));
        },
        Gate::Xor(a, b) => {
            ret.push(clause_3(*a, *b, m));
            ret.push(clause_3(a.not(), b.not(), m));
            ret.push(clause_3(a.not(), *b, n));
            ret.push(clause_3(*a, b.not(), n));
        },
        Gate::And3(a, b, c) => {
            ret.push(clause_2(*a, m));
            ret.push(clause_2(*b, m));
            ret.push(clause_2(*c, m));
            ret.push(clause_4(a.not(), b.not(), c.not(), n));
        },
        Gate::Xor3(a, b, c) => {
            ret.push(clause_4(*a, *b, *c, m));
            ret.push(clause_4(*a, *b, c.not(), n));
            ret.push(clause_4(*a, b.not(), *c, n));
            ret.push(clause_4(*a, b.not(), c.not(), m));
            ret.push(clause_4(a.not(), *b, *c, n));
            ret.push(clause_4(a.not(), *b, c.not(), m));
            ret.push(clause_4(a.not(), b.not(), *c, m));
            ret.push(clause_4(a.not(), b.not(), c.not(), n));
        },
        Gate::Mux(s, a, b) => {
            ret.push(clause_3(s.not(), a.not(), n));
            ret.push(clause_3(s.not(), *a, m));
            ret.push(clause_3(*s, b.not(), n));
            ret.push(clause_3(*s, *b, m));
            ret.push(clause_3(*a, *b, m));
            ret.push(clause_3(a.not(), b.not(), n));
        },
        Gate::Maj(a, b, c) => {
            ret.push(clause_3(a.not(), b.not(), n));
            ret.push(clause_3(b.not(), c.not(), n));
            ret.push(clause_3(a.not(), c.not(), n));
            ret.push(clause_3(*a, *b, m));
            ret.push(clause_3(*b, *c, m));
            ret.push(clause_3(*a, *c, m));
        },
        Gate::Dff(_, _, _) => {},
    }
    assert(clauses_view(ret@) =~= before + gate_clauses(n, *g));
}

/// The clauses of a combinational network: for each node in turn, those
/// that tie the node's signal to the value of its gate. They hold under a
/// valuation exactly when each node has the value of its gate.
pub fn to_clauses(aig: &Aig) -> (ret: Vec<Vec<Signal>>)
    requires
        aig.wf(),
        aig@.comb(),
    ensures
        clauses_view(ret@) == network_clauses(aig@.nodes, aig@.nodes.len()),
        forall|v: Valuation| clauses_hold(clauses_view(ret@), v) <==> aig@.models(v),
{
    let mut ret: Vec<Vec<Signal>> = Vec::new();
    let n = aig.nb_nodes();
    proof {
        aig.lemma_wf_bounds();
        assert(clauses_view(ret@) =~= network_clauses(aig@.nodes, 0));
    }
    let mut i: usize = 0;
    while i < n
        invariant
            i <= n,
            n == aig@.nodes.len(),
            n <= u32::MAX,
            aig@.comb(),
            clauses_view(ret@) == network_clauses(aig@.nodes, i as nat),
        decreases n - i,
    {
        let s = aig.node(i);
        push_gate_clauses(&mut ret, s, aig.gate(i));
        i += 1;
    }
    proof {
        assert forall|v: Valuation| clauses_hold(clauses_view(ret@), v) <==> aig@.models(v) by {
            lemma_network_clauses(aig@.nodes, aig@.nodes.len(), v);
        }
    }
    ret
}

/// What went wrong in the solver.
#[derive(Clone, Copy, Debug, PartialEq, Eq)]
pub enum SolverFault {
    /// The solver gave up before it had an answer.
    GaveUp,
    /// The solver claimed a solution on which the networks do not differ.
    WrongSolution,
}

/// The literal that stands for a signal of a network with `nb_inputs`
/// inputs: the inputs are the first variables, from 1 on, the nodes those
/// that follow; an inverted signal is a negated literal. A constant has no
/// variable; it gives 0.
pub open spec fn literal_of(s: Signal, nb_inputs: nat) -> i32 {
    let variable = match s.kind {
        SignalKind::Constant => 0int,
        SignalKind::Input(k) => k + 1,
        SignalKind::Node(i) => nb_inputs + i + 1,
    };
    if s.inverted {
        (-variable) as i32
    } else {
        variable as i32
    }
}

/// The literals of the first `upto` signals of a clause, the constants
/// left out.
pub open spec fn literals(clause: Seq<Signal>, nb_inputs: nat, upto: nat) -> Seq<i32>
    decreases upto,
{
    if upto == 0 {
        Seq::empty()
    } else {
        let before = literals(clause, nb_inputs, (upto - 1) as nat);
        if clause[upto - 1].kind == SignalKind::Constant {
            before
        } else {
            before.push(literal_of(clause[upto - 1], nb_inputs))
        }
    }
}

/// Whether the clause holds whatever the variables are: it has the
/// constant 1.
pub open spec fn holds_always(clause: Seq<Signal>) -> bool {
    exists|k: int| 0 <= k < clause.len() && #[trigger] clause[k] == Signal::constant(true)
}

/// The first `upto` clauses over signals as clauses over literals: a clause
/// that always holds is left out, and so is the constant 0 in the others.
pub open spec fn encoded(clauses: Seq<Seq<Signal>>, nb_inputs: nat, upto: nat) -> Seq<Seq<i32>>
    decreases upto,
{
    if upto == 0 {
        Seq::empty()
    } else {
        let before = encoded(clauses, nb_inputs, (upto - 1) as nat);
        let clause = clauses[upto - 1];
        if holds_always(clause) {
            before
        } else {
            before.push(literals(clause, nb_inputs, clause.len()))
        }
    }
}

/// The clauses that the solver gets for two networks and a number of
/// steps: those of the miter of the two networks unrolled, and one that
/// asks for the miter's signal to hold.
pub open spec fn problem(a: AigView, b: AigView, nb_steps: nat) -> Seq<Seq<i32>> {
    let m = miter_of(a.unrolled(nb_steps), b.unrolled(nb_steps));
    let clauses = network_clauses(m.nodes, m.nodes.len()).push(
        seq![miter_signal(a.unrolled(nb_steps), b.unrolled(nb_steps))],
    );
    encoded(clauses, m.nb_inputs, clauses.len())
}

/// The number of variables that the check of two networks over a number
/// of steps may need at most.
pub open spec fn problem_size(a: AigView, b: AigView, nb_steps: nat) -> nat {
    nb_steps * (a.nb_inputs + 3 * a.nodes.len() + 3 * b.nodes.len() + 2 * a.outputs.len())
}

/// Whether two networks can be checked over a number of steps: they are
/// sorted, every signal in them refers to what exists, they have as many
/// inputs and as many outputs as each other, and the check fits the
/// solver.
pub open spec fn checkable(a: AigView, b: AigView, nb_steps: nat) -> bool {
    &&& a.consistent()
    &&& a.topo_sorted()
    &&& b.consistent()
    &&& b.topo_sorted()
    &&& a.nb_inputs == b.nb_inputs
    &&& a.outputs.len() == b.outputs.len()
    &&& problem_size(a, b, nb_steps) <= MAX_VARIABLE
}

/// Whether `trace` gives `nb_inputs` values for each of `nb_steps` steps.
pub open spec fn is_trace(trace: Seq<Seq<bool>>, nb_steps: nat, nb_inputs: nat) -> bool {
    &&& trace.len() == nb_steps
    &&& forall|t: int| 0 <= t < trace.len() ==> (#[trigger] trace[t]).len() == nb_inputs
}

/// What the check answers for each answer of the solver, given the inputs
/// that the solver proposes. Without an answer the check fails. Where the
/// solver finds the clauses unsatisfiable, the networks are equivalent.
/// Where it finds them satisfiable, the proposed inputs are run on both
/// networks: they are the counterexample if the outputs differ at some
/// step, and the solver is at fault if they do not.
pub fn verdict(a: &Aig, b: &Aig, answer: Option<bool>, candidate: Vec<Vec<bool>>) -> (r: Result<
    Result<(), Vec<Vec<bool>>>,
    SolverFault,
>)
    requires
        a.wf(),
        b.wf(),
        a@.consistent(),
        a@.topo_sorted(),
        b@.consistent(),
        b@.topo_sorted(),
        a@.nb_inputs == b@.nb_inputs,
        forall|t: int|
            0 <= t < candidate@.len() ==> (#[trigger] candidate@[t])@.len() == a@.nb_inputs,
    ensures
        match r {
            Ok(Ok(())) => answer == Some(false),
            Ok(Err(trace)) => answer == Some(true) && trace == candidate && a@.run(
                trace_view(candidate@),
            ) != b@.run(trace_view(candidate@)),
            Err(SolverFault::GaveUp) => answer is None,
            Err(SolverFault::WrongSolution) => answer == Some(true) && a@.run(
                trace_view(candidate@),
            ) == b@.run(trace_view(candidate@)),
        },
{
    match answer {
        None => Err(SolverFault::GaveUp),
        Some(false) => Ok(Ok(())),
        Some(true) => {
            let x = a.simulate(&candidate);
            let y = b.simulate(&candidate);
            if same_runs(&x, &y) {
                Err(SolverFault::WrongSolution)
            } else {
                Ok(Err(candidate))
            }
        },
    }
}

/// Whether two runs give the same outputs at each step.
fn same_runs(x: &Vec<Vec<bool>>, y: &Vec<Vec<bool>>) -> (same: bool)
    ensures
        same == (trace_view(x@) == trace_view(y@)),
{
    if x.len() != y.len() {
        assert(trace_view(x@).len() != trace_view(y@).len());
        return false;
    }
    let mut t: usize = 0;
    while t < x.len()
        invariant
            t <= x@.len(),
            x@.len() == y@.len(),
            forall|u: int| 0 <= u < t ==> (#[trigger] x@[u])@ == y@[u]@,
        decreases x@.len() - t,
    {
        if x[t].len() != y[t].len() {
            assert(trace_view(x@)[t as int].len() != trace_view(y@)[t as int].len());
            return false;
        }
        let mut j: usize = 0;
        while j < x[t].len()
            invariant
                j <= x@[t as int]@.len(),
                t < x@.len(),
                x@.len() == y@.len(),
                x@[t as int]@.len() == y@[t as int]@.len(),
                forall|k: int| 0 <= k < j ==> x@[t as int]@[k] == y@[t as int]@[k],
            decreases x@[t as int]@.len() - j,
        {
            if x[t][j] != y[t][j] {
                assert(trace_view(x@)[t as int][j as int] != trace_view(y@)[t as int][j as int]);
                return false;
            }
            j += 1;
        }
        assert(x@[t as int]@ =~= y@[t as int]@);
        t += 1;
    }
    assert(trace_view(x@) =~= trace_view(y@));
    true
}

/// The literal that stands for a signal; see `literal_of`.
fn literal(s: Signal, nb_inputs: usize, Ghost(nb_nodes): Ghost<nat>) -> (lit: i32)
    requires
        s.kind != SignalKind::Constant,
        s.in_range(nb_inputs as nat, nb_nodes),
        nb_inputs + nb_nodes <= MAX_VARIABLE,
    ensures
        lit == literal_of(s, nb_inputs as nat),
        is_literal(lit),
{
    let variable: i32 = match s.kind {
        SignalKind::Constant => 0,
        SignalKind::Input(k) => k as i32 + 1,
        SignalKind::Node(i) => nb_inputs as i32 + i as i32 + 1,
    };
    if s.is_inverted() {
        -variable
    } else {
        variable
    }
}

/// A clause over signals as a clause over literals; none where the clause
/// always holds.
fn encode_clause(clause: &Vec<Signal>, nb_inputs: usize, Ghost(nb_nodes): Ghost<nat>) -> (r: Option<
    Vec<i32>,
>)
    requires
        forall|k: int|
            0 <= k < clause@.len() ==> (#[trigger] clause@[k]).in_range(nb_inputs as nat, nb_nodes),
        nb_inputs + nb_nodes <= MAX_VARIABLE,
    ensures
        r is None <==> holds_always(clause@),
        r matches Some(lits) ==> lits@ == literals(clause@, nb_inputs as nat, clause@.len())
            && forall|k: int| 0 <= k < lits@.len() ==> is_literal(#[trigger] lits@[k]),
{
    let mut lits: Vec<i32> = Vec::new();
    let mut k: usize = 0;
    while k < clause.len()
        invariant
            k <= clause@.len(),
            forall|k: int|
                0 <= k < clause@.len() ==> (#[trigger] clause@[k]).in_range(
                    nb_inputs as nat,
                    nb_nodes,
                ),
            nb_inputs + nb_nodes <= MAX_VARIABLE,
            forall|l: int| 0 <= l < k ==> #[trigger] clause@[l] != Signal::constant(true),
            lits@ == literals(clause@, nb_inputs as nat, k as nat),
            forall|l: int| 0 <= l < lits@.len() ==> is_literal(#[trigger] lits@[l]),
        decreases clause@.len() - k,
    {
        let s = clause[k];
        if s == Signal::one() {
            return None;
        }
        if !s.is_constant() {
            lits.push(literal(s, nb_inputs, Ghost(nb_nodes)));
        }
        k += 1;
    }
    Some(lits)
}

/// Hands the clauses to the solver; see `encoded`.
fn add_clauses(
    solver: &mut Solver,
    clauses: &Vec<Vec<Signal>>,
    nb_inputs: usize,
    Ghost(nb_nodes): Ghost<nat>,
)
    requires
        !crate::solver::solver_searched(*old(solver)),
        forall|i: int, k: int|
            0 <= i < clauses@.len() && 0 <= k < clauses@[i]@.len() ==> (
            #[trigger] clauses@[i]@[k]).in_range(nb_inputs as nat, nb_nodes),
        nb_inputs + nb_nodes <= MAX_VARIABLE,
    ensures
        !crate::solver::solver_searched(*final(solver)),
        solver_clauses(*final(solver)) == solver_clauses(*old(solver)) + encoded(
            clauses_view(clauses@),
            nb_inputs as nat,
            clauses@.len(),
        ),
{
    let ghost start = solver_clauses(*solver);
    let ghost all = clauses_view(clauses@);
    let mut i: usize = 0;
    assert(start + encoded(all, nb_inputs as nat, 0) =~= start);
    while i < clauses.len()
        invariant
            i <= clauses@.len(),
            all == clauses_view(clauses@),
            !crate::solver::solver_searched(*solver),
            forall|i: int, k: int|
                0 <= i < clauses@.len() && 0 <= k < clauses@[i]@.len() ==> (
                #[trigger] clauses@[i]@[k]).in_range(nb_inputs as nat, nb_nodes),
            nb_inputs + nb_nodes <= MAX_VARIABLE,
            solver_clauses(*solver) == start + encoded(all, nb_inputs as nat, i as nat),
        decreases clauses@.len() - i,
    {
        let ghost before = solver_clauses(*solver);
        assert(all[i as int] == clauses@[i as int]@);
        assert forall|k: int| 0 <= k < clauses@[i as int]@.len() implies (
        #[trigger] clauses@[i as int]@[k]).in_range(nb_inputs as nat, nb_nodes) by {}
        match encode_clause(&clauses[i], nb_inputs, Ghost(nb_nodes)) {
            Some(lits) => {
                solver_add_clause(solver, &lits);
                assert(solver_clauses(*solver) =~= start + encoded(
                    all,
                    nb_inputs as nat,
                    (i + 1) as nat,
                ));
            },
            None => {},
        }
        i += 1;
    }
}

/// Every signal in the clauses of a network refers to what exists where
/// the gates of the network do.
proof fn lemma_clauses_in_range(nodes: Seq<Gate>, upto: nat, nb_inputs: nat)
    requires
        upto <= nodes.len(),
        nodes.len() <= u32::MAX,
        forall|i: int| 0 <= i < nodes.len() ==> (#[trigger] nodes[i]).in_range(nb_inputs, nodes.len()),
    ensures
        forall|i: int, k: int|
            0 <= i < network_clauses(nodes, upto).len() && 0 <= k < network_clauses(
                nodes,
                upto,
            )[i].len() ==> (#[trigger] network_clauses(nodes, upto)[i][k]).in_range(
                nb_inputs,
                nodes.len(),
            ),
    decreases upto,
{
    if upto > 0 {
        lemma_clauses_in_range(nodes, (upto - 1) as nat, nb_inputs);
        let before = network_clauses(nodes, (upto - 1) as nat);
        let n = Signal::node((upto - 1) as u32);
        let g = nodes[upto - 1];
        let last = gate_clauses(n, g);
        let all = network_clauses(nodes, upto);
        assert(g.in_range(nb_inputs, nodes.len()));
        assert forall|i: int, k: int| 0 <= i < last.len() && 0 <= k < last[i].len() implies (
        #[trigger] last[i][k]).in_range(nb_inputs, nodes.len()) by {}
        assert forall|i: int, k: int| 0 <= i < all.len() && 0 <= k < all[i].len() implies (
        #[trigger] all[i][k]).in_range(nb_inputs, nodes.len()) by {
            if i < before.len() {
                assert(all[i] == before[i]);
                assert(before[i][k].in_range(nb_inputs, nodes.len()));
            } else {
                assert(all[i] == last[i - before.len()]);
                assert(last[i - before.len()][k].in_range(nb_inputs, nodes.len()));
            }
        }
    }
}

/// The assignment of the variables that stands for a valuation: the
/// inputs are the first variables, from 1 on, the nodes those that follow.
pub open spec fn assignment_of(v: Valuation, nb_inputs: nat) -> spec_fn(int) -> bool {
    |x: int|
        if 1 <= x <= nb_inputs {
            v.inputs[x - 1]
        } else {
            v.nodes[x - 1 - nb_inputs]
        }
}

/// The literal of a signal holds exactly where the signal does.
proof fn lemma_literal(s: Signal, nb_inputs: nat, nb_nodes: nat, v: Valuation)
    requires
        s.kind != SignalKind::Constant,
        s.in_range(nb_inputs, nb_nodes),
        nb_inputs + nb_nodes <= MAX_VARIABLE,
    ensures
        literal_holds(literal_of(s, nb_inputs), assignment_of(v, nb_inputs)) == s.eval(v),
{
}

/// The literals of a clause hold a literal that holds, where a signal of
/// the clause that is no constant holds.
proof fn lemma_literals(
    clause: Seq<Signal>,
    nb_inputs: nat,
    nb_nodes: nat,
    upto: nat,
    v: Valuation,
    k: int,
)
    requires
        forall|k: int|
            0 <= k < clause.len() ==> (#[trigger] clause[k]).in_range(nb_inputs, nb_nodes),
        nb_inputs + nb_nodes <= MAX_VARIABLE,
        upto <= clause.len(),
        0 <= k < upto,
        clause[k].kind != SignalKind::Constant,
        clause[k].eval(v),
    ensures
        exists|l: int|
            0 <= l < literals(clause, nb_inputs, upto).len() && literal_holds(
                #[trigger] literals(clause, nb_inputs, upto)[l],
                assignment_of(v, nb_inputs),
            ),
    decreases upto,
{
    let before = literals(clause, nb_inputs, (upto - 1) as nat);
    let all = literals(clause, nb_inputs, upto);
    if k < upto - 1 {
        lemma_literals(clause, nb_inputs, nb_nodes, (upto - 1) as nat, v, k);
        let l = choose|l: int|
            0 <= l < before.len() && literal_holds(#[trigger] before[l], assignment_of(v, nb_inputs));
        assert(all[l] == before[l]);
    } else {
        lemma_literal(clause[k], nb_inputs, nb_nodes, v);
        assert(all[before.len() as int] == literal_of(clause[k], nb_inputs));
    }
}

/// Clauses over signals that hold under a valuation are satisfied, as
/// clauses over literals, by the assignment that stands for it.
proof fn lemma_encoded(
    clauses: Seq<Seq<Signal>>,
    nb_inputs: nat,
    nb_nodes: nat,
    upto: nat,
    v: Valuation,
)
    requires
        forall|i: int, k: int|
            0 <= i < clauses.len() && 0 <= k < clauses[i].len() ==> (
            #[trigger] clauses[i][k]).in_range(nb_inputs, nb_nodes),
        nb_inputs + nb_nodes <= MAX_VARIABLE,
        upto <= clauses.len(),
        clauses_hold(clauses, v),
    ensures
        satisfies(assignment_of(v, nb_inputs), encoded(clauses, nb_inputs, upto)),
    decreases upto,
{
    if upto > 0 {
        lemma_encoded(clauses, nb_inputs, nb_nodes, (upto - 1) as nat, v);
        let before = encoded(clauses, nb_inputs, (upto - 1) as nat);
        let all = encoded(clauses, nb_inputs, upto);
        let clause = clauses[upto - 1];
        let assignment = assignment_of(v, nb_inputs);
        assert forall|i: int| 0 <= i < all.len() implies satisfies_clause(
            assignment,
            #[trigger] all[i],
        ) by {
            if i < before.len() {
                assert(all[i] == before[i]);
            } else {
                assert(clause_holds(clause, v));
                let k = choose|k: int| 0 <= k < clause.len() && (#[trigger] clause[k]).eval(v);
                assert forall|l: int| 0 <= l < clause.len() implies (#[trigger] clause[l]).in_range(
                    nb_inputs,
                    nb_nodes,
                ) by {
                    assert(clauses[upto - 1][l].in_range(nb_inputs, nb_nodes));
                }
                if clause[k].kind == SignalKind::Constant {
                    assert(clause[k] == Signal::constant(true));
                }
                lemma_literals(clause, nb_inputs, nb_nodes, clause.len(), v, k);
                assert(all[i] == literals(clause, nb_inputs, clause.len()));
            }
        }
        assert(satisfies(assignment, all));
    } else {
        assert(encoded(clauses, nb_inputs, 0).len() == 0);
        assert(satisfies(assignment_of(v, nb_inputs), encoded(clauses, nb_inputs, 0)));
    }
}

/// The valuation of the miter of two networks unrolled that a trace
/// gives: the inputs of the trace, step after step, and for each node the
/// value that follows.
pub open spec fn miter_valuation(
    a: AigView,
    b: AigView,
    nb_steps: nat,
    trace: Seq<Seq<bool>>,
) -> Valuation {
    miter_of(a.unrolled(nb_steps), b.unrolled(nb_steps)).valuation(
        flat(trace, nb_steps),
        Seq::empty(),
    )
}

/// What the miter of two networks unrolled tells of a run: under the
/// valuation that the trace gives, each node has the value of its gate,
/// and the miter's signal holds exactly where the two runs give different
/// outputs. The miter is sound and fits the solver.
pub proof fn lemma_miter_run(a: AigView, b: AigView, nb_steps: nat, trace: Seq<Seq<bool>>)
    requires
        checkable(a, b, nb_steps),
        is_trace(trace, nb_steps, a.nb_inputs),
    ensures
        miter_of(a.unrolled(nb_steps), b.unrolled(nb_steps)).sound(),
        miter_of(a.unrolled(nb_steps), b.unrolled(nb_steps)).nb_inputs + miter_of(
            a.unrolled(nb_steps),
            b.unrolled(nb_steps),
        ).nodes.len() <= MAX_VARIABLE,
        miter_of(a.unrolled(nb_steps), b.unrolled(nb_steps)).models(
            miter_valuation(a, b, nb_steps, trace),
        ),
        miter_signal(a.unrolled(nb_steps), b.unrolled(nb_steps)).eval(
            miter_valuation(a, b, nb_steps, trace),
        ) == (flat_outputs(a, trace, nb_steps) != flat_outputs(b, trace, nb_steps)),
{
    let ni = a.nb_inputs;
    let ua = a.unrolled(nb_steps);
    let ub = b.unrolled(nb_steps);
    let m = miter_of(ua, ub);
    lemma_problem_size(a, b, nb_steps);
    lemma_problem_size(b, a, nb_steps);
    assert(nb_steps * a.outputs.len() >= 0) by (nonlinear_arith);
    lemma_unrolled_sound(a, nb_steps, nb_steps);
    lemma_unrolled_sound(b, nb_steps, nb_steps);
    lemma_unrolled_upto(a, nb_steps, nb_steps);
    lemma_unrolled_upto(b, nb_steps, nb_steps);
    lemma_miter_sound(ua, ub);
    let x = flat(trace, nb_steps);
    lemma_flat_len(trace, ni, nb_steps);
    assert(nb_steps * ni == ni * nb_steps) by (nonlinear_arith);
    let held = Seq::<bool>::empty();
    let v = m.valuation(x, held);
    lemma_valuation_follows(m, x, held);
    lemma_miter_meaning(ua, ub, v, held);
    assert(crate::miter::inputs_of(v, ua.nb_inputs) =~= x);
    lemma_unrolled_run(a, nb_steps, trace, held);
    lemma_unrolled_run(b, nb_steps, trace, held);
}

/// Why the answer that two networks are equivalent is right: where the
/// miter's signal is the constant 0, or no assignment satisfies the clauses
/// handed to the solver, the two networks give the same outputs at each
/// step of every run.
pub proof fn lemma_equivalent(a: AigView, b: AigView, nb_steps: nat, trace: Seq<Seq<bool>>)
    requires
        checkable(a, b, nb_steps),
        miter_signal(a.unrolled(nb_steps), b.unrolled(nb_steps)) == Signal::constant(false)
            || !satisfiable(problem(a, b, nb_steps)),
        is_trace(trace, nb_steps, a.nb_inputs),
    ensures
        a.run(trace) == b.run(trace),
{
    let m = miter_of(a.unrolled(nb_steps), b.unrolled(nb_steps));
    let diff = miter_signal(a.unrolled(nb_steps), b.unrolled(nb_steps));
    let v = miter_valuation(a, b, nb_steps, trace);
    lemma_miter_run(a, b, nb_steps, trace);
    if flat_outputs(a, trace, nb_steps) != flat_outputs(b, trace, nb_steps) {
        let clauses = network_clauses(m.nodes, m.nodes.len());
        let all = clauses.push(seq![diff]);
        lemma_network_clauses(m.nodes, m.nodes.len(), v);
        assert(clauses_hold(all, v)) by {
            assert forall|i: int| 0 <= i < all.len() implies clause_holds(#[trigger] all[i], v) by {
                if i < clauses.len() {
                    assert(all[i] == clauses[i]);
                } else {
                    assert(all[i][0].eval(v));
                }
            }
        }
        lemma_clauses_in_range(m.nodes, m.nodes.len(), m.nb_inputs);
        assert(m.outputs[0].in_range(m.nb_inputs, m.nodes.len()));
        assert forall|i: int, k: int| 0 <= i < all.len() && 0 <= k < all[i].len() implies (
        #[trigger] all[i][k]).in_range(m.nb_inputs, m.nodes.len()) by {
            if i < clauses.len() {
                assert(all[i] == clauses[i]);
                assert(clauses[i][k].in_range(m.nb_inputs, m.nodes.len()));
            }
        }
        lemma_encoded(all, m.nb_inputs, m.nodes.len(), all.len(), v);
        assert(satisfies(assignment_of(v, m.nb_inputs), problem(a, b, nb_steps)));
    }
    lemma_flat_outputs(a, b, trace, nb_steps);
    assert(a.run(trace) =~= b.run(trace));
}

/// Why a miter whose signal is the constant 1 needs no search: the two
/// networks give different outputs on every run.
pub proof fn lemma_different(a: AigView, b: AigView, nb_steps: nat, trace: Seq<Seq<bool>>)
    requires
        checkable(a, b, nb_steps),
        miter_signal(a.unrolled(nb_steps), b.unrolled(nb_steps)) == Signal::constant(true),
        is_trace(trace, nb_steps, a.nb_inputs),
    ensures
        a.run(trace) != b.run(trace),
{
    lemma_miter_run(a, b, nb_steps, trace);
    if a.run(trace) == b.run(trace) {
        lemma_flat_outputs_same(a, b, trace, nb_steps);
    }
}

/// A trace of `nb_steps` steps in which every input is 0.
fn blank_trace(nb_steps: usize, nb_inputs: usize) -> (trace: Vec<Vec<bool>>)
    ensures
        is_trace(trace_view(trace@), nb_steps as nat, nb_inputs as nat),
        forall|t: int| 0 <= t < trace@.len() ==> (#[trigger] trace@[t])@.len() == nb_inputs,
{
    let mut trace: Vec<Vec<bool>> = Vec::new();
    let mut t: usize = 0;
    while t < nb_steps
        invariant
            t <= nb_steps,
            trace@.len() == t,
            forall|u: int| 0 <= u < trace@.len() ==> (#[trigger] trace@[u])@.len() == nb_inputs,
        decreases nb_steps - t,
    {
        let mut values: Vec<bool> = Vec::new();
        let mut k: usize = 0;
        while k < nb_inputs
            invariant
                k <= nb_inputs,
                values@.len() == k,
            decreases nb_inputs - k,
        {
            values.push(false);
            k += 1;
        }
        trace.push(values);
        t += 1;
    }
    assert forall|u: int| 0 <= u < trace_view(trace@).len() implies (#[trigger] trace_view(
        trace@,
    )[u]).len() == nb_inputs by {
        assert(trace@[u]@.len() == nb_inputs);
    }
    trace
}

/// Whether the check of two networks over a number of steps fits the
/// solver.
pub fn fits(a: &Aig, b: &Aig, nb_steps: usize) -> (r: bool)
    ensures
        r == (problem_size(a@, b@, nb_steps as nat) <= MAX_VARIABLE),
{
    let per_step: u128 = a.nb_inputs() as u128 + 3 * (a.nb_nodes() as u128) + 3 * (
    b.nb_nodes() as u128) + 2 * (a.nb_outputs() as u128);
    if nb_steps == 0 {
        assert(problem_size(a@, b@, 0) == 0) by (nonlinear_arith)
            requires
                problem_size(a@, b@, 0) == 0 * (a@.nb_inputs + 3 * a@.nodes.len() + 3
                    * b@.nodes.len() + 2 * a@.outputs.len()),
        ;
        true
    } else if per_step > MAX_VARIABLE as u128 {
        assert(nb_steps * per_step >= per_step) by (nonlinear_arith)
            requires
                nb_steps >= 1,
                per_step >= 0,
        ;
        false
    } else {
        assert(per_step * nb_steps <= 0x3fff_ffff * 0xffff_ffff_ffff_ffff) by (nonlinear_arith)
            requires
                0 <= per_step <= 0x3fff_ffff,
                0 <= nb_steps <= 0xffff_ffff_ffff_ffff,
        ;
        assert(per_step * nb_steps == nb_steps * per_step) by (nonlinear_arith);
        per_step * (nb_steps as u128) <= MAX_VARIABLE as u128
    }
}

/// Whether two networks can be checked over a number of steps; see
/// `checkable`.
pub fn can_check(a: &Aig, b: &Aig, nb_steps: usize) -> (r: bool)
    requires
        a.wf(),
        b.wf(),
    ensures
        r == checkable(a@, b@, nb_steps as nat),
{
    a.check().is_ok() && a.is_topo_sorted() && b.check().is_ok() && b.is_topo_sorted()
        && a.nb_inputs() == b.nb_inputs() && a.nb_outputs() == b.nb_outputs() && fits(
        a,
        b,
        nb_steps,
    )
}

/// What the size of a check bounds.
proof fn lemma_problem_size(a: AigView, b: AigView, nb_steps: nat)
    requires
        problem_size(a, b, nb_steps) <= MAX_VARIABLE,
    ensures
        a.nb_inputs * nb_steps <= MAX_VARIABLE,
        3 * a.nodes.len() * nb_steps + 3 * b.nodes.len() * nb_steps + 2 * (nb_steps
            * a.outputs.len()) + a.nb_inputs * nb_steps <= MAX_VARIABLE,
{
    let ni = a.nb_inputs;
    let na = a.nodes.len();
    let nb = b.nodes.len();
    let no = a.outputs.len();
    assert(nb_steps * (ni + 3 * na + 3 * nb + 2 * no) == 3 * na * nb_steps + 3 * nb * nb_steps + 2
        * (nb_steps * no) + ni * nb_steps) by (nonlinear_arith);
    assert(3 * na * nb_steps >= 0) by (nonlinear_arith);
    assert(3 * nb * nb_steps >= 0) by (nonlinear_arith);
    assert(2 * (nb_steps * no) >= 0) by (nonlinear_arith);
}

/// The inputs that the solver proposes once it has found the clauses
/// satisfiable: for each step and input, the value that the solver has for
/// the variable of the input, and 0 where it has none.
fn read_inputs(solver: &Solver, nb_steps: usize, nb_inputs: usize) -> (trace: Vec<Vec<bool>>)
    requires
        nb_inputs * nb_steps <= MAX_VARIABLE,
    ensures
        is_trace(trace_view(trace@), nb_steps as nat, nb_inputs as nat),
        forall|t: int| 0 <= t < trace@.len() ==> (#[trigger] trace@[t])@.len() == nb_inputs,
{
    let mut trace: Vec<Vec<bool>> = Vec::new();
    let mut t: usize = 0;
    let mut base: usize = 0;
    assert(0 * nb_inputs == 0);
    while t < nb_steps
        invariant
            t <= nb_steps,
            nb_inputs * nb_steps <= MAX_VARIABLE,
            base == t * nb_inputs,
            trace@.len() == t,
            forall|u: int| 0 <= u < trace@.len() ==> (#[trigger] trace@[u])@.len() == nb_inputs,
        decreases nb_steps - t,
    {
        proof {
            assert((t + 1) * nb_inputs <= nb_steps * nb_inputs) by (nonlinear_arith)
                requires
                    t + 1 <= nb_steps,
            ;
            assert((t + 1) * nb_inputs == t * nb_inputs + nb_inputs) by (nonlinear_arith);
            assert(nb_inputs * nb_steps == nb_steps * nb_inputs) by (nonlinear_arith);
        }
        let mut values: Vec<bool> = Vec::new();
        let mut k: usize = 0;
        while k < nb_inputs
            invariant
                k <= nb_inputs,
                base + nb_inputs <= MAX_VARIABLE,
                values@.len() == k,
            decreases nb_inputs - k,
        {
            let lit: i32 = (base + k + 1) as i32;
            let value = match solver_value(solver, lit) {
                Some(v) => v,
                None => false,
            };
            values.push(value);
            k += 1;
        }
        trace.push(values);
        base = base + nb_inputs;
        t += 1;
    }
    assert(trace_view(trace@).len() == nb_steps);
    assert forall|u: int| 0 <= u < trace_view(trace@).len() implies (#[trigger] trace_view(
        trace@,
    )[u]).len() == nb_inputs by {
        assert(trace@[u]@.len() == nb_inputs);
    }
    trace
}

/// Checks whether two networks give the same outputs at each of
/// `nb_steps` clock steps, whatever the inputs, from the state in which
/// every flip-flop holds 0. The two networks are unrolled and joined in a
/// miter, and the solver is asked for inputs on which the miter's signal
/// holds.
///
/// The answer is `Ok(Ok(()))` where the networks are found equivalent:
/// the miter's signal is the constant 0, or the solver finds no such
/// inputs. This is the answer for a network and itself. It is
/// `Ok(Err(trace))` where they are not: `trace` gives inputs for each
/// step on which some output differs at some step. Where the miter's
/// signal is a constant the solver is not asked. It is an error where the
/// solver gives up, or proposes inputs on which no output differs.
pub fn check_equivalence_bounded(a: &Aig, b: &Aig, nb_steps: usize) -> (r: Result<
    Result<(), Vec<Vec<bool>>>,
    SolverFault,
>)
    requires
        a.wf(),
        b.wf(),
        checkable(a@, b@, nb_steps as nat),
    ensures
        a@ == b@ ==> r matches Ok(Ok(_)),
        miter_signal(a@.unrolled(nb_steps as nat), b@.unrolled(nb_steps as nat))
            == Signal::constant(false) ==> r matches Ok(Ok(_)),
        miter_signal(a@.unrolled(nb_steps as nat), b@.unrolled(nb_steps as nat))
            == Signal::constant(true) ==> r matches Ok(Err(_)),
        r matches Ok(Err(trace)) ==> is_trace(trace_view(trace@), nb_steps as nat, a@.nb_inputs)
            && a@.run(trace_view(trace@)) != b@.run(trace_view(trace@)),
        r matches Ok(Ok(_)) ==> miter_signal(
            a@.unrolled(nb_steps as nat),
            b@.unrolled(nb_steps as nat),
        ) == Signal::constant(false) || !satisfiable(problem(a@, b@, nb_steps as nat)),
        r matches Ok(Ok(_)) ==> forall|trace: Seq<Seq<bool>>|
            is_trace(trace, nb_steps as nat, a@.nb_inputs) ==> #[trigger] a@.run(trace) == b@.run(
                trace,
            ),
{
    proof {
        assert forall|trace: Seq<Seq<bool>>|
            (miter_signal(a@.unrolled(nb_steps as nat), b@.unrolled(nb_steps as nat))
                == Signal::constant(false) || !satisfiable(problem(a@, b@, nb_steps as nat)))
                && is_trace(trace, nb_steps as nat, a@.nb_inputs) implies #[trigger] a@.run(trace)
            == b@.run(trace) by {
            lemma_equivalent(a@, b@, nb_steps as nat, trace);
        }
        lemma_problem_size(a@, b@, nb_steps as nat);
        lemma_problem_size(b@, a@, nb_steps as nat);
        assert(nb_steps * a@.outputs.len() >= 0) by (nonlinear_arith);
    }
    let ua = unroll(a, nb_steps);
    let ub = unroll(b, nb_steps);
    proof {
        lemma_miter_sound(ua@, ub@);
        if a@ == b@ {
            lemma_miter_same(ua@);
        }
    }
    let (m, diff) = miter(&ua, &ub);
    if diff == Signal::zero() {
        return Ok(Ok(()));
    }
    if diff == Signal::one() {
        let candidate = blank_trace(nb_steps, a.nb_inputs());
        proof {
            lemma_different(a@, b@, nb_steps as nat, trace_view(candidate@));
        }
        return verdict(a, b, Some(true), candidate);
    }
    let mut clauses = to_clauses(&m);
    let ghost net_clauses = clauses_view(clauses@);
    let mut goal: Vec<Signal> = Vec::new();
    goal.push(diff);
    clauses.push(goal);
    let nb_inputs = m.nb_inputs();
    proof {
        assert(goal@ =~= seq![diff]);
        assert(clauses_view(clauses@) =~= net_clauses.push(seq![diff]));
        lemma_clauses_in_range(m@.nodes, m@.nodes.len(), m@.nb_inputs);
        assert(m@.outputs[0].in_range(m@.nb_inputs, m@.nodes.len()));
        assert forall|i: int, k: int|
            0 <= i < clauses@.len() && 0 <= k < clauses@[i]@.len() implies (
        #[trigger] clauses@[i]@[k]).in_range(nb_inputs as nat, m@.nodes.len()) by {
            if i < net_clauses.len() {
                assert(clauses_view(clauses@)[i] == net_clauses[i]);
                assert(net_clauses[i][k].in_range(m@.nb_inputs, m@.nodes.len()));
            }
        }
    }
    let mut solver = solver_new();
    add_clauses(&mut solver, &clauses, nb_inputs, Ghost(m@.nodes.len()));
    proof {
        assert(solver_clauses(solver) =~= problem(a@, b@, nb_steps as nat));
    }
    let answer = solver_solve(&mut solver);
    let candidate = match answer {
        Some(true) => read_inputs(&solver, nb_steps, a.nb_inputs()),
        _ => blank_trace(nb_steps, a.nb_inputs()),
    };
    let ghost proposed = trace_view(candidate@);
    let r = verdict(a, b, answer, candidate);
    proof {
        if a@ == b@ {
            assert(a@.run(proposed) == b@.run(proposed));
        }
    }
    r
}

/// Checks whether two combinational networks give the same outputs,
/// whatever the inputs.
///
/// The answer is `Ok(Ok(()))` where the networks are found equivalent; it
/// is so for a network and itself. It is `Ok(Err(inputs))` where they are
/// not: on `inputs` some output differs. It is an error where the solver
/// gives up, or proposes inputs on which no output differs.
pub fn check_equivalence_comb(a: &Aig, b: &Aig) -> (r: Result<Result<(), Vec<bool>>, SolverFault>)
    requires
        a.wf(),
        b.wf(),
        a@.comb(),
        b@.comb(),
        checkable(a@, b@, 1),
    ensures
        a@ == b@ ==> r matches Ok(Ok(_)),
        miter_signal(a@.unrolled(1), b@.unrolled(1)) == Signal::constant(false) ==> r matches Ok(
            Ok(_),
        ),
        miter_signal(a@.unrolled(1), b@.unrolled(1)) == Signal::constant(true) ==> r matches Ok(
            Err(_),
        ),
        r matches Ok(Err(inputs)) ==> inputs@.len() == a@.nb_inputs && a@.run(seq![inputs@])
            != b@.run(seq![inputs@]),
        r matches Ok(Ok(_)) ==> miter_signal(a@.unrolled(1), b@.unrolled(1)) == Signal::constant(
            false,
        ) || !satisfiable(problem(a@, b@, 1)),
        r matches Ok(Ok(_)) ==> forall|inputs: Seq<bool>|
            inputs.len() == a@.nb_inputs ==> #[trigger] a@.run(seq![inputs]) == b@.run(
                seq![inputs],
            ),
{
    proof {
        assert forall|inputs: Seq<bool>| inputs.len() == a@.nb_inputs implies is_trace(
            #[trigger] seq![inputs],
            1,
            a@.nb_inputs,
        ) by {}
    }
    let found = check_equivalence_bounded(a, b, 1);
    match found {
        Ok(Ok(_)) => Ok(Ok(())),
        Ok(Err(mut trace)) => {
            let ghost steps = trace_view(trace@);
            assert(steps.len() == 1);
            assert(steps[0].len() == a@.nb_inputs);
            let inputs = trace.remove(0);
            assert(steps =~= seq![inputs@]);
            Ok(Err(inputs))
        },
        Err(fault) => Err(fault),
    }
}

} // verus!
