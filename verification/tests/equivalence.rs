use quaigh::equiv::{
    can_check, check_equivalence_bounded, check_equivalence_comb, to_clauses, verdict, SolverFault,
};
use quaigh::unroll::unroll;
use quaigh::{Aig, Gate, Signal};

fn xor_network() -> Aig {
    let mut aig = Aig::new();
    let i0 = aig.add_input();
    let i1 = aig.add_input();
    let x = aig.xor(i0, i1);
    aig.add_output(x);
    aig
}

fn xor_by_and_or() -> Aig {
    let mut aig = Aig::new();
    let i0 = aig.add_input();
    let i1 = aig.add_input();
    let l = aig.and(i0, !i1);
    let r = aig.and(!i0, i1);
    let x = aig.or(l, r);
    aig.add_output(x);
    aig
}

#[test]
fn xor_equals_its_expansion() {
    let a = xor_network();
    let b = xor_by_and_or();
    assert!(can_check(&a, &b, 1));
    assert_eq!(check_equivalence_comb(&a, &b), Ok(Ok(())));
}

#[test]
fn a_network_equals_itself() {
    let a = xor_by_and_or();
    assert_eq!(check_equivalence_comb(&a, &a), Ok(Ok(())));
    assert_eq!(check_equivalence_bounded(&a, &a, 3), Ok(Ok(())));
}

#[test]
fn and_differs_from_or() {
    let mut a = Aig::new();
    let i0 = a.add_input();
    let i1 = a.add_input();
    let x = a.and(i0, i1);
    a.add_output(x);
    let mut b = Aig::new();
    let j0 = b.add_input();
    let j1 = b.add_input();
    let y = b.or(j0, j1);
    b.add_output(y);
    match check_equivalence_comb(&a, &b) {
        Ok(Err(inputs)) => {
            assert_eq!(inputs.len(), 2);
            // And and Or differ exactly where the inputs differ.
            assert_ne!(inputs[0], inputs[1]);
            let trace = vec![inputs];
            assert_ne!(a.simulate(&trace), b.simulate(&trace));
        }
        other => panic!("expected a counterexample, got {:?}", other),
    }
}

#[test]
fn constant_difference_needs_no_search() {
    let mut a = Aig::new();
    a.add_input();
    a.add_output(Signal::zero());
    let mut b = Aig::new();
    b.add_input();
    b.add_output(Signal::one());
    match check_equivalence_comb(&a, &b) {
        Ok(Err(inputs)) => assert_eq!(inputs.len(), 1),
        other => panic!("expected a counterexample, got {:?}", other),
    }
}

fn toggle(with_enable: bool) -> Aig {
    // A flip-flop that takes the complement of what it holds.
    let mut aig = Aig::new();
    let en = aig.add_input();
    let q = aig.add_raw_gate(Gate::Dff(
        !Signal::from_var(0),
        if with_enable { en } else { Signal::one() },
        Signal::zero(),
    ));
    aig.add_output(q);
    aig
}

#[test]
fn flip_flops_start_at_zero() {
    let a = toggle(true);
    let b = toggle(false);
    assert!(can_check(&a, &b, 1));
    // At the first step both hold 0.
    assert_eq!(check_equivalence_bounded(&a, &b, 1), Ok(Ok(())));
    // At the second step they differ where the first was not enabled.
    match check_equivalence_bounded(&a, &b, 2) {
        Ok(Err(trace)) => {
            assert_eq!(trace.len(), 2);
            assert_eq!(trace[0], vec![false]);
            assert_ne!(a.simulate(&trace), b.simulate(&trace));
        }
        other => panic!("expected a counterexample, got {:?}", other),
    }
}

#[test]
fn simulate_runs_step_after_step() {
    let a = toggle(true);
    let trace = vec![vec![true], vec![false], vec![true], vec![true]];
    assert_eq!(
        a.simulate(&trace),
        vec![vec![false], vec![true], vec![true], vec![false]]
    );
}

#[test]
fn unroll_gives_each_step() {
    let a = toggle(true);
    let u = unroll(&a, 3);
    assert!(u.is_comb());
    assert_eq!(u.nb_inputs(), 3);
    assert_eq!(u.nb_outputs(), 3);
    assert_eq!(u.output(0), Signal::zero());
    // After one step the flip-flop holds the first enable.
    assert_eq!(u.output(1), Signal::from_input(0));
    for e0 in [false, true] {
        for e1 in [false, true] {
            for e2 in [false, true] {
                let steps = vec![vec![e0], vec![e1], vec![e2]];
                let flat = vec![vec![e0, e1, e2]];
                let run: Vec<bool> = a.simulate(&steps).into_iter().map(|o| o[0]).collect();
                assert_eq!(u.simulate(&flat), vec![run]);
            }
        }
    }
}

#[test]
fn verdict_follows_the_answer() {
    let a = xor_network();
    let b = xor_by_and_or();
    let inputs = vec![vec![true, false]];
    assert_eq!(verdict(&a, &b, None, inputs.clone()), Err(SolverFault::GaveUp));
    assert_eq!(verdict(&a, &b, Some(false), inputs.clone()), Ok(Ok(())));
    assert_eq!(
        verdict(&a, &b, Some(true), inputs.clone()),
        Err(SolverFault::WrongSolution)
    );
    let mut c = Aig::new();
    c.add_input();
    let i1 = c.add_input();
    c.add_output(i1);
    assert_eq!(verdict(&a, &c, Some(true), inputs.clone()), Ok(Err(inputs)));
}

#[test]
fn clauses_of_each_kind() {
    let mut aig = Aig::new();
    let a = aig.add_input();
    let b = aig.add_input();
    let c = aig.add_input();
    aig.and(a, b);
    let n = Signal::from_var(0);
    // The second operand of a canonical And is the smaller one.
    assert_eq!(
        to_clauses(&aig),
        vec![vec![b, !n], vec![a, !n], vec![!b, !a, n]]
    );
    let mut aig = Aig::new();
    aig.add_inputs(3);
    aig.add_raw_gate(Gate::Maj(a, b, c));
    assert_eq!(
        to_clauses(&aig),
        vec![
            vec![!a, !b, n],
            vec![!b, !c, n],
            vec![!a, !c, n],
            vec![a, b, !n],
            vec![b, c, !n],
            vec![a, c, !n]
        ]
    );
    let mut aig = Aig::new();
    aig.add_inputs(3);
    aig.add_raw_gate(Gate::Mux(a, b, c));
    assert_eq!(
        to_clauses(&aig),
        vec![
            vec![!a, !b, n],
            vec![!a, b, !n],
            vec![a, !c, n],
            vec![a, c, !n],
            vec![b, c, !n],
            vec![!b, !c, n]
        ]
    );
    let mut aig = Aig::new();
    aig.add_inputs(3);
    aig.add_raw_gate(Gate::Xor3(a, b, c));
    assert_eq!(to_clauses(&aig).len(), 8);
    let mut aig = Aig::new();
    aig.add_inputs(3);
    aig.add_raw_gate(Gate::And3(a, b, c));
    assert_eq!(
        to_clauses(&aig),
        vec![vec![a, !n], vec![b, !n], vec![c, !n], vec![!a, !b, !c, n]]
    );
    let mut aig = Aig::new();
    aig.add_inputs(2);
    aig.add_raw_gate(Gate::Xor(a, b));
    assert_eq!(
        to_clauses(&aig),
        vec![vec![a, b, !n], vec![!a, !b, !n], vec![!a, b, n], vec![a, !b, n]]
    );
}
