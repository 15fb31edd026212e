use quaigh::network::aig::{CombinationalLoop, Inconsistency};
use quaigh::{Aig, Gate, Normalization, Signal};

#[test]
fn test_basic() {
    let mut aig = Aig::default();
    let i0 = aig.add_input();
    let i1 = aig.add_input();
    let x = aig.xor(i0, i1);
    aig.add_output(x);

    // Basic properties
    assert_eq!(aig.nb_inputs(), 2);
    assert_eq!(aig.nb_outputs(), 1);
    assert_eq!(aig.nb_nodes(), 1);
    assert!(aig.is_comb());
    assert!(aig.is_topo_sorted());

    // Access
    assert_eq!(aig.input(0), i0);
    assert_eq!(aig.input(1), i1);
    assert_eq!(aig.output(0), x);
}

#[test]
fn test_dff() {
    let mut aig = Aig::default();
    let i0 = aig.add_input();
    let i1 = aig.add_input();
    let i2 = aig.add_input();
    let c0 = Signal::zero();
    let c1 = Signal::one();
    // Useful Dff
    assert_eq!(aig.dff(i0, i1, i2), Signal::from_var(0));
    assert_eq!(aig.dff(i0, i1, c0), Signal::from_var(1));
    // Dff that reduces to 0
    assert_eq!(aig.dff(c0, i1, i2), c0);
    assert_eq!(aig.dff(i0, c0, i2), c0);
    assert_eq!(aig.dff(i0, i1, c1), c0);
    assert!(!aig.is_comb());
    assert!(aig.is_topo_sorted());
}

#[test]
fn test_sweep() {
    let mut aig = Aig::default();
    let i0 = aig.add_input();
    let i1 = aig.add_input();
    let x0 = aig.and(i0, i1);
    let x1 = aig.or(i0, i1);
    let _ = aig.and(x0, i1);
    let x3 = aig.or(x1, i1);
    aig.add_output(x3);
    let t = aig.sweep();
    assert_eq!(t.len(), 4);
    assert_eq!(aig.nb_nodes(), 2);
    assert_eq!(aig.nb_outputs(), 1);
    assert_eq!(
        t,
        vec![
            Signal::zero(),
            Signal::from_var(0),
            Signal::zero(),
            Signal::from_var(1)
        ]
    );
}

#[test]
fn test_nary() {
    let mut aig = Aig::default();
    let i0 = aig.add_input();
    let i1 = aig.add_input();
    let i2 = aig.add_input();
    let i3 = aig.add_input();
    let i4 = aig.add_input();

    assert_eq!(aig.and_n(&Vec::new()), Signal::one());
    assert_eq!(aig.and_n(&vec![i0]), i0);
    aig.and_n(&vec![i0, i1]);
    aig.and_n(&vec![i0, i1, i2]);
    aig.and_n(&vec![i0, i1, i2, i3]);
    aig.and_n(&vec![i0, i1, i2, i3, i4]);

    assert_eq!(aig.or_n(&Vec::new()), Signal::zero());
    assert_eq!(aig.or_n(&vec![i0]), i0);
    aig.or_n(&vec![i0, i1]);
    aig.or_n(&vec![i0, i1, i2]);
    aig.or_n(&vec![i0, i1, i2, i3]);
    aig.or_n(&vec![i0, i1, i2, i3, i4]);

    assert_eq!(aig.xor_n(&Vec::new()), Signal::zero());
    assert_eq!(aig.xor_n(&vec![i0]), i0);
    aig.xor_n(&vec![i0, i1]);
    aig.xor_n(&vec![i0, i1, i2]);
    aig.xor_n(&vec![i0, i1, i2, i3]);
    aig.xor_n(&vec![i0, i1, i2, i3, i4]);
}

#[test]
fn test_dedup() {
    let mut aig = Aig::default();
    let i0 = aig.add_input();
    let i1 = aig.add_input();
    let i2 = aig.add_input();
    let x0 = aig.and(i0, i1);
    let x0_s = aig.and(i0, i1);
    let x1 = aig.and(x0, i2);
    let x1_s = aig.and(x0_s, i2);
    aig.add_output(x1);
    aig.add_output(x1_s);
    aig.dedup();
    assert_eq!(aig.nb_and(), 2);
}

#[test]
fn building_the_same_gate_twice_shares_the_node() {
    let mut aig = Aig::new();
    let i0 = aig.add_input();
    let i1 = aig.add_input();
    let x = aig.and(i0, i1);
    let y = aig.and(i1, i0);
    aig.add_output(x);
    aig.add_output(y);
    assert_eq!(x, y);
    assert_eq!(aig.nb_and(), 1);
    assert_eq!(aig.nb_nodes(), 1);
    // The complement shares the node of a Xor.
    let p = aig.xor(i0, i1);
    let q = aig.xor(!i0, i1);
    assert_eq!(q, !p);
    assert_eq!(aig.nb_xor(), 1);
}

#[test]
fn nary_of_none_and_of_one() {
    let mut aig = Aig::new();
    let i0 = aig.add_input();
    assert_eq!(aig.and_n(&vec![]), Signal::one());
    assert_eq!(aig.xor_n(&vec![]), Signal::zero());
    assert_eq!(aig.or_n(&vec![]), Signal::zero());
    assert_eq!(aig.and_n(&vec![i0]), i0);
    assert_eq!(aig.xor_n(&vec![i0]), i0);
    assert_eq!(aig.nb_nodes(), 0);
}

#[test]
fn nary_trees_are_balanced() {
    let mut aig = Aig::new();
    let ins: Vec<Signal> = (0..5).map(|_| aig.add_input()).collect();
    let r = aig.and_n(&ins);
    // Two pairs, then the pair of pairs, then the last input.
    assert_eq!(aig.nb_and(), 4);
    assert_eq!(*aig.gate(0), Gate::And(ins[1], ins[0]));
    assert_eq!(*aig.gate(1), Gate::And(ins[3], ins[2]));
    assert_eq!(*aig.gate(2), Gate::And(Signal::from_var(1), Signal::from_var(0)));
    assert_eq!(*aig.gate(3), Gate::And(Signal::from_var(2), ins[4]));
    assert_eq!(r, Signal::from_var(3));
    let x = aig.xor_n(&ins[0..3].to_vec());
    assert_eq!(aig.nb_xor(), 2);
    assert_eq!(x, Signal::from_var(5));
}

#[test]
fn sweep_removes_two_dead_branches() {
    let mut aig = Aig::new();
    let i0 = aig.add_input();
    let i1 = aig.add_input();
    let i2 = aig.add_input();
    let dead0 = aig.and(i0, i1);
    let live0 = aig.xor(i1, i2);
    let _dead1 = aig.and3(dead0, i1, i2);
    let dead2 = aig.mux(i0, i1, i2);
    let live1 = aig.and(live0, i0);
    let _dead3 = aig.xor(dead2, i0);
    aig.add_output(!live1);
    let t = aig.sweep();
    assert_eq!(aig.nb_nodes(), 2);
    assert_eq!(
        t,
        vec![
            Signal::zero(),
            Signal::from_var(0),
            Signal::zero(),
            Signal::zero(),
            Signal::from_var(1),
            Signal::zero()
        ]
    );
    assert_eq!(aig.output(0), !Signal::from_var(1));
    assert_eq!(*aig.gate(1), Gate::And(Signal::from_var(0), i0));
    assert!(aig.check().is_ok());
    // Nothing more goes.
    assert_eq!(aig.sweep(), vec![Signal::from_var(0), Signal::from_var(1)]);
}

#[test]
fn sweep_keeps_what_flip_flops_need() {
    let mut aig = Aig::new();
    let i0 = aig.add_input();
    let x = aig.add_raw_gate(Gate::Xor(i0, Signal::from_var(1)));
    let q = aig.add_raw_gate(Gate::Dff(x, Signal::one(), Signal::zero()));
    aig.add_output(q);
    let t = aig.sweep();
    assert_eq!(t, vec![Signal::from_var(0), Signal::from_var(1)]);
    assert_eq!(aig.nb_nodes(), 2);
}

#[test]
fn topo_sort_orders_the_nodes() {
    let mut aig = Aig::new();
    let i0 = aig.add_input();
    let i1 = aig.add_input();
    // Node 0 depends on node 2, node 2 on node 1.
    aig.add_raw_gate(Gate::And(Signal::from_var(2), i0));
    aig.add_raw_gate(Gate::Xor(i0, i1));
    aig.add_raw_gate(Gate::And(Signal::from_var(1), i1));
    aig.add_output(Signal::from_var(0));
    assert!(!aig.is_topo_sorted());
    let t = aig.topo_sort().unwrap();
    assert!(aig.is_topo_sorted());
    assert_eq!(
        t,
        vec![Signal::from_var(2), Signal::from_var(0), Signal::from_var(1)]
    );
    assert_eq!(aig.output(0), Signal::from_var(2));
    assert_eq!(*aig.gate(2), Gate::And(Signal::from_var(1), i0));
    assert_eq!(*aig.gate(1), Gate::And(Signal::from_var(0), i1));
    assert_eq!(*aig.gate(0), Gate::Xor(i0, i1));
}

#[test]
fn topo_sort_finds_loops() {
    let mut aig = Aig::new();
    let i0 = aig.add_input();
    aig.add_raw_gate(Gate::And(Signal::from_var(1), i0));
    aig.add_raw_gate(Gate::Xor(Signal::from_var(0), i0));
    aig.add_output(Signal::from_var(1));
    assert_eq!(aig.topo_sort(), Err(CombinationalLoop {}));
    assert_eq!(aig.nb_nodes(), 2);
    // A loop through a flip-flop is none.
    let mut aig = Aig::new();
    let i0 = aig.add_input();
    aig.add_raw_gate(Gate::Xor(Signal::from_var(1), i0));
    aig.add_raw_gate(Gate::Dff(Signal::from_var(0), Signal::one(), Signal::zero()));
    assert!(!aig.is_topo_sorted());
    assert_eq!(
        aig.topo_sort(),
        Ok(vec![Signal::from_var(1), Signal::from_var(0)])
    );
    assert!(aig.is_topo_sorted());
    // A node that depends on itself is a loop.
    let mut aig = Aig::new();
    aig.add_raw_gate(Gate::And(Signal::from_var(0), Signal::one()));
    assert!(aig.topo_sort().is_err());
}

#[test]
fn check_reports_the_first_dangling_signal() {
    let mut aig = Aig::new();
    let i0 = aig.add_input();
    assert_eq!(aig.check(), Ok(()));
    aig.add_output(Signal::from_input(1));
    assert_eq!(aig.check(), Err(Inconsistency::Output(0)));
    aig.add_raw_gate(Gate::And(i0, Signal::one()));
    aig.add_raw_gate(Gate::And(i0, Signal::from_var(2)));
    aig.add_raw_gate(Gate::And(i0, Signal::from_input(7)));
    assert_eq!(aig.check(), Err(Inconsistency::Node(2)));
    aig.add_input();
    assert_eq!(aig.check(), Err(Inconsistency::Node(2)));
    aig.add_inputs(6);
    assert_eq!(aig.check(), Ok(()));
}

#[test]
fn dedup_merges_raw_duplicates() {
    let mut aig = Aig::new();
    let i0 = aig.add_input();
    let i1 = aig.add_input();
    let x0 = aig.add_raw_gate(Gate::And(i0, i1));
    let x1 = aig.add_raw_gate(Gate::And(i1, i0));
    let x2 = aig.add_raw_gate(Gate::Xor(x0, !x1));
    let x3 = aig.add_raw_gate(Gate::Mux(i0, x2, i1));
    aig.add_output(x3);
    aig.add_output(x1);
    let t = aig.dedup();
    // The two And are one; the Xor of a signal and its complement is 1;
    // the Mux with a constant is an Or.
    assert_eq!(t[0], Signal::from_var(0));
    assert_eq!(t[1], Signal::from_var(0));
    assert_eq!(t[2], Signal::one());
    assert_eq!(aig.nb_nodes(), 2);
    assert_eq!(*aig.gate(0), Gate::And(i1, i0));
    assert_eq!(*aig.gate(1), Gate::And(!i1, !i0));
    assert_eq!(t[3], !Signal::from_var(1));
    assert_eq!(aig.output(0), !Signal::from_var(1));
    assert_eq!(aig.output(1), Signal::from_var(0));
    // A second run changes nothing.
    let before = aig.nb_nodes();
    let t = aig.dedup();
    assert_eq!(aig.nb_nodes(), before);
    assert_eq!(t, vec![Signal::from_var(0), Signal::from_var(1)]);
}

#[test]
fn dedup_puts_flip_flops_first() {
    let mut aig = Aig::new();
    let i0 = aig.add_input();
    let x = aig.and(i0, Signal::from_var(1));
    let q = aig.dff(x, Signal::one(), Signal::zero());
    aig.add_output(q);
    let t = aig.dedup();
    assert_eq!(t, vec![Signal::from_var(1), Signal::from_var(0)]);
    assert_eq!(
        *aig.gate(0),
        Gate::Dff(Signal::from_var(1), Signal::one(), Signal::zero())
    );
    assert_eq!(*aig.gate(1), Gate::And(Signal::from_var(0), i0));
    assert_eq!(aig.output(0), Signal::from_var(0));
}

#[test]
fn signals_in_order() {
    let i0 = Signal::from_input(0);
    let i1 = Signal::from_input(1);
    let x0 = Signal::from_var(0);
    assert!(Signal::zero() < Signal::one());
    assert!(Signal::one() < i0);
    assert!(i0 < !i0);
    assert!(!i0 < i1);
    assert!(Signal::from_input(u32::MAX) < x0);
    assert!(x0 < !x0);
    assert_eq!(!!x0, x0);
    assert_eq!(!Signal::zero(), Signal::one());
    assert_eq!(x0 ^ true, !x0);
    assert_eq!(x0 ^ false, x0);
    assert_eq!(i1.input(), 1);
    assert_eq!(x0.var(), 0);
    assert!(x0.is_var() && !x0.is_input() && !x0.is_constant());
    assert!((!x0).is_inverted());
    assert_eq!((!x0).without_inversion(), x0);
    assert_eq!(i0.max(x0), x0);
    let table = vec![!i1, Signal::one()];
    assert_eq!(x0.remap(&table), !i1);
    assert_eq!((!x0).remap(&table), i1);
    assert_eq!(Signal::from_var(1).remap(&table), Signal::one());
    assert_eq!(i0.remap(&table), i0);
}

#[test]
fn canonical_gates() {
    let c0 = Signal::zero();
    let c1 = Signal::one();
    let a = Signal::from_input(0);
    let b = Signal::from_input(1);
    let c = Signal::from_var(4);
    // And
    assert_eq!(Gate::And(a, c0).make_canonical(), Normalization::Buf(c0));
    assert_eq!(Gate::And(c1, a).make_canonical(), Normalization::Buf(a));
    assert_eq!(Gate::And(a, a).make_canonical(), Normalization::Buf(a));
    assert_eq!(Gate::And(a, !a).make_canonical(), Normalization::Buf(c0));
    assert_eq!(
        Gate::And(a, !b).make_canonical(),
        Normalization::Node(Gate::And(!b, a), false)
    );
    // Xor
    assert_eq!(Gate::Xor(c0, b).make_canonical(), Normalization::Buf(b));
    assert_eq!(Gate::Xor(b, c1).make_canonical(), Normalization::Buf(!b));
    assert_eq!(Gate::Xor(b, b).make_canonical(), Normalization::Buf(c0));
    assert_eq!(Gate::Xor(!b, b).make_canonical(), Normalization::Buf(c1));
    assert_eq!(
        Gate::Xor(!a, b).make_canonical(),
        Normalization::Node(Gate::Xor(b, a), true)
    );
    // And3 and Xor3
    assert_eq!(
        Gate::And3(a, c, b).make_canonical(),
        Normalization::Node(Gate::And3(c, b, a), false)
    );
    assert_eq!(
        Gate::And3(a, c1, b).make_canonical(),
        Normalization::Node(Gate::And(b, a), false)
    );
    assert_eq!(Gate::And3(a, !a, b).make_canonical(), Normalization::Buf(c0));
    assert_eq!(
        Gate::Xor3(!a, !c, !b).make_canonical(),
        Normalization::Node(Gate::Xor3(c, b, a), true)
    );
    assert_eq!(Gate::Xor3(a, !a, b).make_canonical(), Normalization::Buf(!b));
    assert_eq!(
        Gate::Xor3(a, c1, b).make_canonical(),
        Normalization::Node(Gate::Xor(b, a), true)
    );
    // Mux
    assert_eq!(Gate::Mux(c0, a, b).make_canonical(), Normalization::Buf(b));
    assert_eq!(Gate::Mux(c1, a, b).make_canonical(), Normalization::Buf(a));
    assert_eq!(Gate::Mux(c, a, a).make_canonical(), Normalization::Buf(a));
    assert_eq!(
        Gate::Mux(!c, a, b).make_canonical(),
        Normalization::Node(Gate::Mux(c, b, a), false)
    );
    assert_eq!(
        Gate::Mux(c, a, !b).make_canonical(),
        Normalization::Node(Gate::Mux(c, !a, b), true)
    );
    assert_eq!(
        Gate::Mux(c, !a, a).make_canonical(),
        Normalization::Node(Gate::Xor(c, a), false)
    );
    assert_eq!(
        Gate::Mux(c, c, a).make_canonical(),
        Normalization::Node(Gate::And(!c, !a), true)
    );
    assert_eq!(
        Gate::Mux(c, a, c0).make_canonical(),
        Normalization::Node(Gate::And(c, a), false)
    );
    // Maj
    assert_eq!(Gate::Maj(a, b, b).make_canonical(), Normalization::Buf(b));
    assert_eq!(Gate::Maj(a, !b, b).make_canonical(), Normalization::Buf(a));
    assert_eq!(
        Gate::Maj(a, c, b).make_canonical(),
        Normalization::Node(Gate::Maj(c, b, a), false)
    );
    assert_eq!(
        Gate::Maj(a, !c, b).make_canonical(),
        Normalization::Node(Gate::Maj(c, !b, !a), true)
    );
    assert_eq!(
        Gate::Maj(a, c0, b).make_canonical(),
        Normalization::Node(Gate::And(b, a), false)
    );
    assert_eq!(
        Gate::Maj(a, c1, b).make_canonical(),
        Normalization::Node(Gate::And(!b, !a), true)
    );
    // Dff
    assert_eq!(Gate::Dff(c0, a, b).make_canonical(), Normalization::Buf(c0));
    assert_eq!(
        Gate::Dff(c1, a, b).make_canonical(),
        Normalization::Node(Gate::Dff(c1, a, b), false)
    );
    // Canonical gates come back as they are.
    for g in [
        Gate::And(!b, a),
        Gate::Xor(b, a),
        Gate::And3(c, !b, a),
        Gate::Xor3(c, b, a),
        Gate::Mux(c, !a, b),
        Gate::Maj(c, !b, !a),
        Gate::Dff(a, !b, c0),
    ] {
        assert!(g.is_canonical());
        assert_eq!(g.make_canonical(), Normalization::Node(g, false));
    }
    for g in [
        Gate::And(a, b),
        Gate::Xor(b, !a),
        Gate::And3(c, b, c1),
        Gate::Mux(!c, a, b),
        Gate::Mux(c, a, !b),
        Gate::Maj(!c, b, a),
        Gate::Dff(a, c0, c0),
    ] {
        assert!(!g.is_canonical());
    }
}

#[test]
fn networks_as_text() {
    let mut aig = Aig::new();
    let i0 = aig.add_input();
    let i1 = aig.add_input();
    let x = aig.xor(i0, !i1);
    let q = aig.dff(x, Signal::one(), i0);
    let m = aig.mux(q, i1, i0);
    aig.add_output(!m);
    aig.add_output(Signal::zero());
    assert_eq!(i0.to_string(), "i0");
    assert_eq!((!Signal::from_input(12)).to_string(), "!i12");
    assert_eq!(Signal::from_var(4096).to_string(), "x4096");
    assert_eq!(Signal::one().to_string(), "1");
    assert_eq!(Gate::And3(i0, !i1, x).to_string(), "And3(i0, !i1, !x0)");
    assert_eq!(Gate::Maj(i0, i1, Signal::zero()).to_string(), "Maj(i0, i1, 0)");
    assert_eq!(
        aig.to_string(),
        "Aig with 2 inputs, 2 outputs:\n\tx0 = Xor(i1, i0)\n\tx1 = Dff(!x0, 1, i0)\n\tx2 = Mux(x1, i1, i0)\n\to0 = !x2\n\to1 = 0\n"
    );
    assert_eq!(Aig::new().to_string(), "Aig with 0 inputs, 0 outputs:\n");
}

#[test]
fn topo_sort_fails_exactly_on_loops() {
    // A loop of three nodes beside a node that is free of it.
    let mut aig = Aig::new();
    let i0 = aig.add_input();
    aig.add_raw_gate(Gate::Xor(i0, Signal::one()));
    aig.add_raw_gate(Gate::And(Signal::from_var(3), i0));
    aig.add_raw_gate(Gate::And(Signal::from_var(1), i0));
    aig.add_raw_gate(Gate::Maj(Signal::from_var(2), Signal::from_var(0), i0));
    let before = aig.to_string();
    assert!(aig.topo_sort().is_err());
    assert_eq!(aig.to_string(), before);
    // The same nodes with the loop cut by a flip-flop.
    let mut aig = Aig::new();
    let i0 = aig.add_input();
    aig.add_raw_gate(Gate::Xor(i0, Signal::one()));
    aig.add_raw_gate(Gate::Dff(Signal::from_var(3), i0, Signal::zero()));
    aig.add_raw_gate(Gate::And(Signal::from_var(1), i0));
    aig.add_raw_gate(Gate::Maj(Signal::from_var(2), Signal::from_var(0), i0));
    assert!(aig.topo_sort().is_ok());
    assert!(aig.is_topo_sorted());
}

#[test]
fn nary_trees_add_fewer_nodes_than_signals() {
    for n in 2..20usize {
        let mut aig = Aig::new();
        let ins: Vec<Signal> = (0..n).map(|_| aig.add_input()).collect();
        aig.xor(ins[0], ins[1]);
        let kept = *aig.gate(0);
        assert_eq!(aig.nb_nodes(), 1);
        aig.and_n(&ins);
        assert_eq!(aig.nb_nodes(), n);
        aig.or_n(&ins);
        assert_eq!(aig.nb_nodes(), 2 * n - 1);
        aig.and_n(&ins);
        assert_eq!(aig.nb_nodes(), 2 * n - 1);
        assert_eq!(*aig.gate(0), kept);
    }
}
