use quaigh::aig_node::{AigNode, BasicGate, NormalizationResult};
use quaigh::literal::Lit;

#[test]
fn test_is_canonical() {
    let l0 = Lit::zero();
    let l1 = Lit::one();
    let i0 = Lit::from_var(0);
    let i1 = Lit::from_var(1);
    let i2 = Lit::from_var(2);

    // Canonical maj
    assert!(AigNode::maj(i2, i1, i0).is_canonical());
    assert!(AigNode::maj(!i2, i1, i0).is_canonical());
    assert!(AigNode::maj(i2, !i1, i0).is_canonical());
    assert!(AigNode::maj(i2, i1, !i0).is_canonical());
    assert!(AigNode::maj(i2, !i1, !i0).is_canonical());
    assert!(AigNode::maj(!i2, i1, !i0).is_canonical());
    assert!(AigNode::maj(!i2, !i1, i0).is_canonical());
    assert!(AigNode::maj(!i2, !i1, !i0).is_canonical());
    // Bad orders
    assert!(!AigNode::maj(i1, i2, i0).is_canonical());
    assert!(!AigNode::maj(i2, i0, i1).is_canonical());
    // Duplication
    assert!(!AigNode::maj(i1, i1, i0).is_canonical());
    assert!(!AigNode::maj(i1, i0, i0).is_canonical());
    assert!(!AigNode::maj(!i1, i1, i0).is_canonical());
    assert!(!AigNode::maj(i1, !i0, i0).is_canonical());

    // Canonical and
    assert!(AigNode::maj(i2, i1, l0).is_canonical());
    // Bad constants
    assert!(!AigNode::maj(i2, l1, l0).is_canonical());
    assert!(!AigNode::maj(i2, i1, l1).is_canonical());
    assert!(!AigNode::maj(i2, l1, l1).is_canonical());
    // Duplication
    assert!(!AigNode::maj(i2, i2, i1).is_canonical());
    assert!(!AigNode::maj(i2, !i2, i1).is_canonical());
    assert!(!AigNode::maj(i2, i1, !i2).is_canonical());

    // Canonical muxes
    assert!(AigNode::mux(i2, i1, i0).is_canonical());
    assert!(AigNode::mux(i1, i0, i2).is_canonical());
    assert!(AigNode::mux(i0, i2, i1).is_canonical());
    assert!(AigNode::mux(i2, i0, i1).is_canonical());
    assert!(AigNode::mux(i1, i2, i0).is_canonical());
    assert!(AigNode::mux(i0, i1, i2).is_canonical());
    assert!(AigNode::mux(i2, !i1, i0).is_canonical());
    assert!(AigNode::mux(i1, !i0, i2).is_canonical());
    assert!(AigNode::mux(i0, !i2, i1).is_canonical());
    assert!(AigNode::mux(i2, !i0, i1).is_canonical());
    assert!(AigNode::mux(i1, !i2, i0).is_canonical());
    assert!(AigNode::mux(i0, !i1, i2).is_canonical());
    // Bad complementation on selector
    assert!(!AigNode::mux(!i2, i1, i0).is_canonical());
    assert!(!AigNode::mux(!i1, i0, i2).is_canonical());
    assert!(!AigNode::mux(!i0, i2, i1).is_canonical());
    assert!(!AigNode::mux(!i2, i0, i1).is_canonical());
    assert!(!AigNode::mux(!i1, i2, i0).is_canonical());
    assert!(!AigNode::mux(!i0, i1, i2).is_canonical());
    // Bad complementation on selected
    assert!(!AigNode::mux(i2, i1, !i0).is_canonical());
    assert!(!AigNode::mux(i1, i0, !i2).is_canonical());
    assert!(!AigNode::mux(i0, i2, !i1).is_canonical());
    assert!(!AigNode::mux(i2, i0, !i1).is_canonical());
    assert!(!AigNode::mux(i1, i2, !i0).is_canonical());
    assert!(!AigNode::mux(i0, i1, !i2).is_canonical());
    assert!(!AigNode::mux(i2, !i1, !i0).is_canonical());
    assert!(!AigNode::mux(i1, !i0, !i2).is_canonical());
    assert!(!AigNode::mux(i0, !i2, !i1).is_canonical());
    assert!(!AigNode::mux(i2, !i0, !i1).is_canonical());
    assert!(!AigNode::mux(i1, !i2, !i0).is_canonical());
    assert!(!AigNode::mux(i0, !i1, !i2).is_canonical());
    // Bad constants
    assert!(!AigNode::mux(l1, i1, i0).is_canonical());
    assert!(!AigNode::mux(i2, l1, i0).is_canonical());
    assert!(!AigNode::mux(i2, i1, l1).is_canonical());
    assert!(!AigNode::mux(l0, i1, i0).is_canonical());
    assert!(!AigNode::mux(i2, l0, i0).is_canonical());
    assert!(!AigNode::mux(i2, i1, l0).is_canonical());

    // Canonical xor
    assert!(AigNode::mux(i0, !i1, i1).is_canonical());
    // Bad complementation
    assert!(!AigNode::mux(i0, i1, !i1).is_canonical());
    // Bad order
    assert!(!AigNode::mux(i1, !i0, i0).is_canonical());
}

#[test]
fn test_format() {
    let l0 = Lit::zero();
    let i0 = Lit::from_var(0);
    let i1 = Lit::from_var(1);
    let i2 = Lit::from_var(2);
    assert_eq!(AigNode::maj(i2, i1, i0).to_string(), "Maj(v2, v1, v0)");
    assert_eq!(AigNode::maj(i2, i1, l0).to_string(), "And(v2, v1)");
    assert_eq!(AigNode::mux(i2, i1, i0).to_string(), "Mux(v2, v1, v0)");
    assert_eq!(AigNode::mux(i0, !i1, i1).to_string(), "Xor(v0, v1)");
}

#[test]
fn literals_as_text() {
    assert_eq!(Lit::zero().to_string(), "0");
    assert_eq!(Lit::one().to_string(), "1");
    assert_eq!(Lit::from_var(0).to_string(), "v0");
    assert_eq!((!Lit::from_var(10)).to_string(), "!v10");
    assert_eq!(Lit::from_var(4294967295).to_string(), "v4294967295");
    assert_eq!(
        AigNode::maj(Lit::from_var(120), !Lit::from_var(7), Lit::one()).to_string(),
        "Maj(v120, !v7, 1)"
    );
}

#[test]
fn literals_in_order() {
    let i0 = Lit::from_var(0);
    let i1 = Lit::from_var(1);
    assert!(Lit::zero() < Lit::one());
    assert!(Lit::one() < i0);
    assert!(i0 < !i0);
    assert!(!i0 < i0.with_flag());
    assert!(i0.with_flag() < i1);
    assert_eq!(!!i0, i0);
    assert_eq!(i0.with_flag().without_flag(), i0);
    assert!(Lit::zero().is_constant());
    assert!(!i1.is_constant());
    assert_eq!(i1.var(), 1);
    assert_eq!(i1.ind(), 2);
    assert!((!i1).pol());
    assert!(i1.with_flag().flag());
    assert_eq!(i0.max(i1), i1);
}

#[test]
fn node_simulation() {
    let i0 = Lit::from_var(0);
    let i1 = Lit::from_var(1);
    let i2 = Lit::from_var(2);
    let a: u8 = 0b1111_0000;
    let b: u8 = 0b1100_1100;
    let c: u8 = 0b1010_1010;
    assert_eq!(AigNode::maj(i2, i1, i0).simulate(a, b, c), 0b1110_1000u8);
    assert_eq!(AigNode::mux(i2, i1, i0).simulate(a, b, c), 0b1100_1010u8);
    assert_eq!(AigNode::maj(!i2, i1, i0).simulate(a, b, c), 0b1000_1110u8);
    assert_eq!(AigNode::mux(i2, !i1, i0).simulate(a, b, c), 0b0011_1010u8);
    let a: u64 = 0xffff_ffff_0000_0000;
    let b: u64 = 0xffff_0000_ffff_0000;
    let c: u64 = 0;
    // A majority with the constant 0 is an And.
    assert_eq!(
        AigNode::maj(i2, i1, Lit::zero()).simulate(a, b, c),
        0xffff_0000_0000_0000u64
    );
    assert_eq!(AigNode::maj(i2, i1, i0).simulate(7u16, 5u16, 1u16), 5u16);
    assert_eq!(AigNode::maj(i2, i1, i0).simulate(7u32, 5u32, 1u32), 5u32);
}

#[test]
fn node_canonical_forms() {
    let l0 = Lit::zero();
    let l1 = Lit::one();
    let i0 = Lit::from_var(0);
    let i1 = Lit::from_var(1);
    let i2 = Lit::from_var(2);
    // And
    assert_eq!(AigNode::make_canonical_and(i0, l0), NormalizationResult::Literal(l0));
    assert_eq!(AigNode::make_canonical_and(l1, i0), NormalizationResult::Literal(i0));
    assert_eq!(AigNode::make_canonical_and(i0, i0), NormalizationResult::Literal(i0));
    assert_eq!(AigNode::make_canonical_and(i0, !i0), NormalizationResult::Literal(l0));
    assert_eq!(
        AigNode::make_canonical_and(i0, !i1),
        NormalizationResult::PosNode(AigNode::maj(!i1, i0, l0))
    );
    // Xor
    assert_eq!(AigNode::make_canonical_xor(l0, i1), NormalizationResult::Literal(i1));
    assert_eq!(AigNode::make_canonical_xor(i1, l1), NormalizationResult::Literal(!i1));
    assert_eq!(AigNode::make_canonical_xor(i1, i1), NormalizationResult::Literal(l0));
    assert_eq!(AigNode::make_canonical_xor(!i1, i1), NormalizationResult::Literal(l1));
    assert_eq!(
        AigNode::make_canonical_xor(i1, i0),
        NormalizationResult::PosNode(AigNode::mux(i0, !i1, i1))
    );
    assert_eq!(
        AigNode::make_canonical_xor(!i1, i0),
        NormalizationResult::NegNode(AigNode::mux(i0, !i1, i1))
    );
    // Mux
    assert_eq!(AigNode::make_canonical_mux(l0, i1, i0), NormalizationResult::Literal(i0));
    assert_eq!(AigNode::make_canonical_mux(l1, i1, i0), NormalizationResult::Literal(i1));
    assert_eq!(AigNode::make_canonical_mux(i2, i1, i1), NormalizationResult::Literal(i1));
    assert_eq!(
        AigNode::make_canonical_mux(!i2, i1, i0),
        NormalizationResult::PosNode(AigNode::mux(i2, i0, i1))
    );
    assert_eq!(
        AigNode::make_canonical_mux(i2, i1, !i0),
        NormalizationResult::NegNode(AigNode::mux(i2, !i1, i0))
    );
    assert_eq!(
        AigNode::make_canonical_mux(i0, !i1, i1),
        NormalizationResult::PosNode(AigNode::mux(i0, !i1, i1))
    );
    assert_eq!(
        AigNode::make_canonical_mux(i2, i2, i0),
        NormalizationResult::NegNode(AigNode::maj(!i2, !i0, l0))
    );
    // Maj
    assert_eq!(AigNode::make_canonical_maj(i0, i1, i1), NormalizationResult::Literal(i1));
    assert_eq!(AigNode::make_canonical_maj(i0, !i1, i1), NormalizationResult::Literal(i0));
    assert_eq!(
        AigNode::make_canonical_maj(i0, i2, i1),
        NormalizationResult::PosNode(AigNode::maj(i2, i1, i0))
    );
    assert_eq!(
        AigNode::make_canonical_maj(i0, l0, i1),
        NormalizationResult::PosNode(AigNode::maj(i1, i0, l0))
    );
    assert_eq!(
        AigNode::make_canonical_maj(i0, l1, i1),
        NormalizationResult::NegNode(AigNode::maj(!i1, !i0, l0))
    );
    // Every outcome is canonical, and a canonical node comes back.
    let n = AigNode::mux(i2, !i1, i0);
    assert!(n.is_canonical());
    assert_eq!(n.make_canonical(), NormalizationResult::PosNode(n));
    assert_eq!(
        AigNode::maj(i0, i1, i2).make_canonical(),
        NormalizationResult::PosNode(AigNode::maj(i2, i1, i0))
    );
    assert_eq!(AigNode::mux(i0, !i1, i1).as_gate(), BasicGate::Xor(i0, i1));
    assert_eq!(AigNode::maj(i2, i1, l0).as_gate(), BasicGate::And(i2, i1));
}

#[test]
fn canonical_nodes_come_back_as_they_are() {
    let l0 = Lit::zero();
    let i0 = Lit::from_var(0);
    let i1 = Lit::from_var(1);
    let i2 = Lit::from_var(2);
    let mut nodes = vec![
        AigNode::maj(i2, i1, i0),
        AigNode::maj(!i2, !i1, !i0),
        AigNode::maj(i2, !i1, l0),
        AigNode::mux(i2, i1, i0),
        AigNode::mux(i1, !i2, i0),
        AigNode::mux(i0, !i1, i1),
    ];
    // A flag on the second or on the third literal changes nothing.
    nodes.push(AigNode::mux(i2, i1.with_flag(), i0));
    nodes.push(AigNode::mux(i2, i1, i0.with_flag()));
    nodes.push(AigNode::maj(i2, i1.with_flag(), i0.with_flag()));
    for n in nodes {
        assert!(n.is_canonical());
        assert_eq!(n.make_canonical(), NormalizationResult::PosNode(n));
    }
    // A node that is not canonical loses such a flag.
    assert_eq!(
        AigNode::mux(!i2, i1.with_flag(), i0).make_canonical(),
        NormalizationResult::PosNode(AigNode::mux(i2, i0, i1))
    );
}
