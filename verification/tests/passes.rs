use quaigh::equiv::{check_equivalence_bounded, fits};
use quaigh::{Aig, Gate, Signal};

/// A sorted network with two inputs, a flip-flop, duplicates and dead
/// logic.
fn sample() -> Aig {
    let mut aig = Aig::new();
    let i0 = aig.add_input();
    let i1 = aig.add_input();
    let q = aig.add_raw_gate(Gate::Dff(Signal::from_var(3), i1, Signal::zero()));
    let a = aig.add_raw_gate(Gate::And(i0, q));
    let b = aig.add_raw_gate(Gate::And(q, i0));
    let x = aig.add_raw_gate(Gate::Xor(a, !i1));
    let _dead = aig.add_raw_gate(Gate::Maj(a, b, x));
    let m = aig.add_raw_gate(Gate::Mux(i0, b, x));
    aig.add_output(m);
    aig.add_output(!q);
    aig
}

fn traces() -> Vec<Vec<Vec<bool>>> {
    let steps = 3;
    let mut all = Vec::new();
    for bits in 0..(1u32 << (2 * steps)) {
        let trace: Vec<Vec<bool>> = (0..steps)
            .map(|t| vec![bits >> (2 * t) & 1 == 1, bits >> (2 * t + 1) & 1 == 1])
            .collect();
        all.push(trace);
    }
    all
}

#[test]
fn sweep_keeps_the_outputs() {
    let before = sample();
    let mut after = sample();
    assert!(after.is_topo_sorted());
    let t = after.sweep();
    assert_eq!(t[4], Signal::zero());
    assert_eq!(after.nb_nodes(), 5);
    for trace in traces() {
        assert_eq!(before.simulate(&trace), after.simulate(&trace));
    }
}

#[test]
fn dedup_keeps_the_outputs() {
    let before = sample();
    let mut after = sample();
    let t = after.dedup();
    assert_eq!(t[1], t[2]);
    assert_eq!(t[0], Signal::from_var(0));
    assert!(after.nb_nodes() < before.nb_nodes());
    assert!(after.is_topo_sorted());
    assert!(after.check().is_ok());
    for i in 0..after.nb_nodes() {
        assert!(after.gate(i).is_canonical());
    }
    for trace in traces() {
        assert_eq!(before.simulate(&trace), after.simulate(&trace));
    }
    let nodes = after.nb_nodes();
    after.dedup();
    assert_eq!(after.nb_nodes(), nodes);
}

#[test]
fn topo_sort_keeps_the_outputs() {
    let sorted = sample();
    // The same network with its nodes in another order.
    let mut aig = Aig::new();
    let i0 = aig.add_input();
    let i1 = aig.add_input();
    let q = Signal::from_var(5);
    let a = Signal::from_var(4);
    let b = Signal::from_var(3);
    let x = Signal::from_var(2);
    aig.add_raw_gate(Gate::Mux(i0, b, x));
    aig.add_raw_gate(Gate::Maj(a, b, x));
    aig.add_raw_gate(Gate::Xor(a, !i1));
    aig.add_raw_gate(Gate::And(q, i0));
    aig.add_raw_gate(Gate::And(i0, q));
    aig.add_raw_gate(Gate::Dff(x, i1, Signal::zero()));
    aig.add_output(Signal::from_var(0));
    aig.add_output(!q);
    assert!(!aig.is_topo_sorted());
    aig.topo_sort().unwrap();
    assert!(aig.is_topo_sorted());
    for trace in traces() {
        assert_eq!(sorted.simulate(&trace), aig.simulate(&trace));
    }
    assert_eq!(check_equivalence_bounded(&sorted, &aig, 3), Ok(Ok(())));
}

#[test]
fn passes_agree_with_the_check() {
    let before = sample();
    let mut after = sample();
    after.dedup();
    after.sweep();
    assert!(fits(&before, &after, 4));
    assert_eq!(check_equivalence_bounded(&before, &after, 4), Ok(Ok(())));
    assert_eq!(check_equivalence_bounded(&before, &after, 0), Ok(Ok(())));
}

#[test]
fn too_many_steps_do_not_fit() {
    let a = sample();
    assert!(fits(&a, &a, 1000));
    assert!(!fits(&a, &a, usize::MAX));
    // Each step takes 2 inputs, 18 nodes of each network and 4 for the
    // outputs: 42 variables.
    assert!(fits(&a, &a, 0x3fff_ffff / 42));
    assert!(!fits(&a, &a, 0x3fff_ffff / 42 + 1));
}

#[test]
fn dedup_may_leave_flip_flops_alike() {
    // Two flip-flops over two And gates that are one gate.
    let mut aig = Aig::new();
    let i0 = aig.add_input();
    let i1 = aig.add_input();
    let a = aig.add_raw_gate(Gate::And(i0, i1));
    let b = aig.add_raw_gate(Gate::And(i1, i0));
    let p = aig.add_raw_gate(Gate::Dff(a, Signal::one(), Signal::zero()));
    let q = aig.add_raw_gate(Gate::Dff(b, Signal::one(), Signal::zero()));
    aig.add_output(p);
    aig.add_output(q);
    let before = aig.clone();
    aig.dedup();
    // The And gates are one now, and so the flip-flops hold the same gate.
    assert_eq!(aig.nb_nodes(), 3);
    assert_eq!(aig.gate(0), aig.gate(1));
    aig.dedup();
    assert_eq!(aig.nb_nodes(), 2);
    for trace in traces() {
        assert_eq!(before.simulate(&trace), aig.simulate(&trace));
    }
    aig.dedup();
    assert_eq!(aig.nb_nodes(), 2);
}
