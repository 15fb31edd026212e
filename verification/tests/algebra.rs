use quaigh::{Aig, Gate, Normalization, Signal};
use std::collections::HashMap;

fn pool() -> Vec<Signal> {
    let mut signals = vec![Signal::zero(), Signal::one()];
    for i in 0..2 {
        signals.push(Signal::from_input(i));
        signals.push(!Signal::from_input(i));
    }
    for i in 0..2 {
        signals.push(Signal::from_var(i));
        signals.push(!Signal::from_var(i));
    }
    signals
}

fn gates() -> Vec<Gate> {
    let pool = pool();
    let mut gates = Vec::new();
    for &a in &pool {
        for &b in &pool {
            gates.push(Gate::And(a, b));
            gates.push(Gate::Xor(a, b));
            for &c in &pool {
                gates.push(Gate::And3(a, b, c));
                gates.push(Gate::Xor3(a, b, c));
                gates.push(Gate::Mux(a, b, c));
                gates.push(Gate::Maj(a, b, c));
                gates.push(Gate::Dff(a, b, c));
            }
        }
    }
    gates
}

fn assignments() -> Vec<(Vec<bool>, Vec<bool>)> {
    let mut all = Vec::new();
    for bits in 0..16u32 {
        all.push((
            vec![bits & 1 == 1, bits & 2 == 2],
            vec![bits & 4 == 4, bits & 8 == 8],
        ));
    }
    all
}

#[test]
fn canonical_forms_are_canonical() {
    for g in gates() {
        match g.make_canonical() {
            Normalization::Buf(s) => {
                let among = g.dependencies().iter().any(|o| o.ind() == s.ind());
                assert!(s.is_constant() || among, "{:?}", g);
            }
            Normalization::Node(c, _) => {
                assert!(c.is_canonical(), "{:?}", g);
                assert_eq!(c.make_canonical(), Normalization::Node(c, false));
            }
        }
        if g.is_canonical() {
            assert_eq!(g.make_canonical(), Normalization::Node(g, false));
        }
    }
}

#[test]
fn canonical_forms_keep_the_function() {
    for g in gates() {
        for (inputs, nodes) in assignments() {
            for held in [false, true] {
                let value = g.compute(&inputs, &nodes, held);
                match g.make_canonical() {
                    Normalization::Buf(s) => {
                        // A flip-flop reduces to 0 where it can never leave 0.
                        if g.is_comb() || !held {
                            assert_eq!(s.compute(&inputs, &nodes), value, "{:?}", g);
                        }
                    }
                    Normalization::Node(c, inv) => {
                        assert_eq!(c.compute(&inputs, &nodes, held) ^ inv, value, "{:?}", g);
                    }
                }
            }
        }
    }
}

#[test]
fn built_networks_hold_no_gate_twice() {
    let mut aig = Aig::new();
    aig.add_inputs(2);
    // Two nodes to which every gate of the pool can refer.
    aig.and(Signal::from_input(0), Signal::from_input(1));
    aig.xor(Signal::from_input(0), Signal::from_input(1));
    for g in gates() {
        let before = aig.nb_nodes();
        let s = aig.add_gate(g);
        assert!(aig.nb_nodes() <= before + 1);
        // The same gate again is the same signal, and builds nothing.
        let nodes = aig.nb_nodes();
        assert_eq!(aig.add_gate(g), s);
        assert_eq!(aig.nb_nodes(), nodes);
    }
    for i in 0..aig.nb_nodes() {
        assert!(aig.gate(i).is_canonical());
        for j in 0..i {
            assert_ne!(aig.gate(i), aig.gate(j));
        }
    }
    let counted = aig.nb_and()
        + aig.nb_xor()
        + aig.nb_and3()
        + aig.nb_xor3()
        + aig.nb_mux()
        + aig.nb_maj()
        + aig.nb_dff();
    assert_eq!(counted, aig.nb_nodes());
}

#[test]
fn built_signals_have_the_value_asked_for() {
    let mut aig = Aig::new();
    let a = aig.add_input();
    let b = aig.add_input();
    let c = aig.add_input();
    let and = aig.and(a, !b);
    let or = aig.or(a, b);
    let xor = aig.xor(!a, c);
    let and3 = aig.and3(a, b, !c);
    let or3 = aig.or3(!a, b, c);
    let xor3 = aig.xor3(a, b, c);
    let mux = aig.mux(a, !b, c);
    let maj = aig.maj(a, b, !c);
    let all = aig.and_n(&vec![a, b, c, or]);
    let any = aig.or_n(&vec![and, and3, !c]);
    let odd = aig.xor_n(&vec![a, !b, c, maj, mux]);
    for s in [and, or, xor, and3, or3, xor3, mux, maj, all, any, odd] {
        aig.add_output(s);
    }
    assert!(aig.is_topo_sorted());
    for bits in 0..8u32 {
        let (x, y, z) = (bits & 1 == 1, bits & 2 == 2, bits & 4 == 4);
        let m = if x { !y } else { z };
        let j = (x && y) || (x && !z) || (y && !z);
        let expected = vec![
            x && !y,
            x || y,
            !x ^ z,
            x && y && !z,
            !x || y || z,
            x ^ y ^ z,
            m,
            j,
            x && y && z && (x || y),
            (x && !y) || (x && y && !z) || !z,
            x ^ !y ^ z ^ j ^ m,
        ];
        assert_eq!(aig.simulate(&vec![vec![x, y, z]]), vec![expected]);
    }
}

#[test]
fn one_canonical_form_for_each_function() {
    let mut pool = vec![Signal::zero(), Signal::one()];
    for i in 0..3 {
        pool.push(Signal::from_input(i));
        pool.push(!Signal::from_input(i));
    }
    let mut seen: HashMap<u8, Normalization> = HashMap::new();
    let mut check = |g: Gate| {
        let mut table: u8 = 0;
        for bits in 0..8u8 {
            let inputs = vec![bits & 1 == 1, bits & 2 == 2, bits & 4 == 4];
            if g.compute(&inputs, &vec![], false) {
                table |= 1 << bits;
            }
        }
        let form = g.make_canonical();
        // The form of the function that holds on no input.
        let (table, form) = if table & 1 == 1 {
            (
                !table,
                match form {
                    Normalization::Buf(s) => Normalization::Buf(!s),
                    Normalization::Node(c, inv) => Normalization::Node(c, !inv),
                },
            )
        } else {
            (table, form)
        };
        let first = *seen.entry(table).or_insert(form);
        assert_eq!(first, form, "{:?}", g);
    };
    for &a in &pool {
        for &b in &pool {
            check(Gate::And(a, b));
            check(Gate::Xor(a, b));
            for &c in &pool {
                check(Gate::And3(a, b, c));
                check(Gate::Xor3(a, b, c));
                check(Gate::Mux(a, b, c));
                check(Gate::Maj(a, b, c));
            }
        }
    }
}
