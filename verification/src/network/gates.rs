//! Gates, their canonical form and the rules that bring a gate to it.

use super::order::{hi2, hi3, lo2, lo3, mid3, sort_2, sort_3};
use super::signal::{Signal, SignalKind, Valuation};
use core::ops::{BitXor, Not};
use vstd::prelude::*;

verus! {

/// A logic gate over signals.
#[derive(Clone, Copy, Debug, PartialEq, Eq, Hash, Structural)]
pub enum Gate {
    /// 2-input And.
    And(Signal, Signal),
    /// 2-input Xor.
    Xor(Signal, Signal),
    /// 3-input And.
    And3(Signal, Signal, Signal),
    /// 3-input Xor.
    Xor3(Signal, Signal, Signal),
    /// Multiplexer: the second operand where the first holds, else the third.
    Mux(Signal, Signal, Signal),
    /// Majority of three.
    Maj(Signal, Signal, Signal),
    /// Flip-flop with data, enable and reset; it starts at 0.
    Dff(Signal, Signal, Signal),
}

/// The kind of a gate, operands left aside.
#[derive(Clone, Copy, Debug, PartialEq, Eq, Hash, Structural)]
pub enum GateKind {
    And,
    Xor,
    And3,
    Xor3,
    Mux,
    Maj,
    Dff,
}

/// The outcome of bringing a gate to canonical form.
#[derive(Clone, Copy, Debug, PartialEq, Eq, Structural)]
pub enum Normalization {
    /// The function is that of a signal.
    Buf(Signal),
    /// The function is that of a canonical gate, inverted where the
    /// polarity holds.
    Node(Gate, bool),
}

impl GateKind {
    /// The number of the kind within a key.
    pub open spec fn tag(self) -> u128 {
        match self {
            GateKind::And => 0,
            GateKind::Xor => 1,
            GateKind::And3 => 2,
            GateKind::Xor3 => 3,
            GateKind::Mux => 4,
            GateKind::Maj => 5,
            GateKind::Dff => 6,
        }
    }
}

/// A tag below 8 and three signals, packed into one number: 35 bits for the
/// rank of each signal above 3 bits for the tag.
pub open spec fn pack(tag: u128, a: Signal, b: Signal, c: Signal) -> u128 {
    (tag + 8 * (a.rank() + 0x8_0000_0000 * (b.rank() + 0x8_0000_0000 * c.rank()))) as u128
}

proof fn lemma_radix(x: int, y: int, z: int, w: int, m: int)
    requires
        0 <= x < m,
        0 <= z < m,
        x + m * y == z + m * w,
    ensures
        x == z,
        y == w,
{
    if y > w {
        assert(m * y >= m * w + m) by (nonlinear_arith)
            requires
                y >= w + 1,
                m > 0,
        ;
    } else if y < w {
        assert(m * w >= m * y + m) by (nonlinear_arith)
            requires
                w >= y + 1,
                m > 0,
        ;
    }
}

/// Packing loses nothing: equal numbers come from equal tags and signals.
pub proof fn lemma_pack(t: u128, a: Signal, b: Signal, c: Signal, u: u128, d: Signal, e: Signal, f: Signal)
    requires
        t < 8,
        u < 8,
        pack(t, a, b, c) == pack(u, d, e, f),
    ensures
        t == u,
        a == d,
        b == e,
        c == f,
{
    let m = 0x8_0000_0000int;
    let x = a.rank() + m * (b.rank() + m * c.rank());
    let y = d.rank() + m * (e.rank() + m * f.rank());
    assert(pack(t, a, b, c) == t + 8 * x);
    assert(pack(u, d, e, f) == u + 8 * y);
    lemma_radix(t as int, x, u as int, y, 8);
    lemma_radix(a.rank(), b.rank() + m * c.rank(), d.rank(), e.rank() + m * f.rank(), m);
    lemma_radix(b.rank(), c.rank(), e.rank(), f.rank(), m);
    Signal::lemma_rank_injective(a, d);
    Signal::lemma_rank_injective(b, e);
    Signal::lemma_rank_injective(c, f);
}

fn pack_exec(tag: u8, a: Signal, b: Signal, c: Signal) -> (k: u128)
    requires
        tag < 8,
    ensures
        k == pack(tag as u128, a, b, c),
{
    let ra: u128 = a.raw() as u128;
    let rb: u128 = b.raw() as u128;
    let rc: u128 = c.raw() as u128;
    tag as u128 + 8 * (ra + 0x8_0000_0000 * (rb + 0x8_0000_0000 * rc))
}

/// The indices of the nodes to which the signals of a sequence refer, in
/// the sequence's order.
pub open spec fn node_indices(signals: Seq<Signal>) -> Seq<u32>
    decreases signals.len(),
{
    if signals.len() == 0 {
        Seq::empty()
    } else {
        let rest = node_indices(signals.drop_last());
        match signals.last().kind {
            SignalKind::Node(i) => rest.push(i),
            _ => rest,
        }
    }
}

/// `node_indices` holds exactly the nodes to which some signal refers.
pub proof fn lemma_node_indices(signals: Seq<Signal>)
    ensures
        node_indices(signals).len() <= signals.len(),
        forall|v: u32|
            node_indices(signals).contains(v) <==> exists|k: int|
                0 <= k < signals.len() && (#[trigger] signals[k]).kind == SignalKind::Node(v),
    decreases signals.len(),
{
    if signals.len() > 0 {
        let front = signals.drop_last();
        lemma_node_indices(front);
        let rest = node_indices(front);
        assert forall|v: u32|
            node_indices(signals).contains(v) <==> exists|k: int|
                0 <= k < signals.len() && (#[trigger] signals[k]).kind == SignalKind::Node(
                    v,
                ) by {
            if node_indices(signals).contains(v) {
                let j = choose|j: int|
                    0 <= j < node_indices(signals).len() && node_indices(signals)[j] == v;
                if j < rest.len() {
                    assert(rest[j] == v);
                    assert(rest.contains(v));
                    let k = choose|k: int|
                        0 <= k < front.len() && (#[trigger] front[k]).kind == SignalKind::Node(v);
                    assert(signals[k] == front[k]);
                } else {
                    assert(signals[signals.len() - 1].kind == SignalKind::Node(v));
                }
            }
            if exists|k: int|
                0 <= k < signals.len() && (#[trigger] signals[k]).kind == SignalKind::Node(v) {
                let k = choose|k: int|
                    0 <= k < signals.len() && (#[trigger] signals[k]).kind == SignalKind::Node(v);
                if k < front.len() {
                    assert(front[k] == signals[k]);
                    assert(rest.contains(v));
                    let j = choose|j: int| 0 <= j < rest.len() && rest[j] == v;
                    assert(node_indices(signals)[j] == v);
                } else {
                    assert(node_indices(signals) == rest.push(v));
                    assert(node_indices(signals)[rest.len() as int] == v);
                }
            }
        }
    }
}

impl Normalization {
    /// The same outcome for the complemented function when `inv` holds.
    pub open spec fn flip(self, inv: bool) -> Normalization {
        match self {
            Normalization::Buf(s) => Normalization::Buf(s.flip(inv)),
            Normalization::Node(g, i) => Normalization::Node(g, i != inv),
        }
    }

    /// The value of the outcome under a valuation; see `Gate::eval`.
    pub open spec fn eval(self, v: Valuation, held: bool) -> bool {
        match self {
            Normalization::Buf(s) => s.eval(v),
            Normalization::Node(g, inv) => g.eval(v, held) != inv,
        }
    }

    /// Whether the outcome is a canonical gate or a signal, and refers to
    /// nothing but constants and what `g` refers to.
    pub open spec fn reduces(self, g: Gate) -> bool {
        match self {
            Normalization::Buf(s) => s.kind == SignalKind::Constant || g.mentions(s.kind),
            Normalization::Node(c, _) => c.canonical() && forall|k: SignalKind|
                c.mentions(k) ==> g.mentions(k),
        }
    }

    /// The same outcome for the complemented function when `inv` holds.
    pub fn xor(self, inv: bool) -> (r: Normalization)
        ensures
            r == self.flip(inv),
    {
        match self {
            Normalization::Buf(s) => Normalization::Buf(s.bitxor(inv)),
            Normalization::Node(g, i) => Normalization::Node(g, i != inv),
        }
    }
}

/// Canonical form of the And of two signals.
pub open spec fn canonical_and(a: Signal, b: Signal) -> Normalization {
    let mx = hi2(a, b);
    let mn = lo2(a, b);
    if mn == Signal::constant(false) {
        Normalization::Buf(Signal::constant(false))
    } else if mn == Signal::constant(true) {
        Normalization::Buf(mx)
    } else if mn == mx {
        Normalization::Buf(mn)
    } else if mn == mx.complement() {
        Normalization::Buf(Signal::constant(false))
    } else {
        Normalization::Node(Gate::And(mx, mn), false)
    }
}

/// Canonical form of the Or of two signals, an inverted And of their
/// complements.
pub open spec fn canonical_or(a: Signal, b: Signal) -> Normalization {
    canonical_and(a.complement(), b.complement()).flip(true)
}

/// Canonical form of the Xor of two signals: the operands' inversions move
/// to the output.
pub open spec fn canonical_xor(a: Signal, b: Signal) -> Normalization {
    let mx = hi2(a, b);
    let mn = lo2(a, b);
    if mn == Signal::constant(false) {
        Normalization::Buf(mx)
    } else if mn == Signal::constant(true) {
        Normalization::Buf(mx.complement())
    } else if mn == mx {
        Normalization::Buf(Signal::constant(false))
    } else if mn == mx.complement() {
        Normalization::Buf(Signal::constant(true))
    } else {
        Normalization::Node(Gate::Xor(mx.positive(), mn.positive()), mx.inverted != mn.inverted)
    }
}

/// Canonical form of the And of three signals.
pub open spec fn canonical_and3(a: Signal, b: Signal, c: Signal) -> Normalization {
    let hi = hi3(a, b, c);
    let mid = mid3(a, b, c);
    let lo = lo3(a, b, c);
    if lo == Signal::constant(false) {
        Normalization::Buf(Signal::constant(false))
    } else if lo == Signal::constant(true) {
        canonical_and(hi, mid)
    } else if lo.kind == mid.kind {
        if lo == mid {
            canonical_and(hi, mid)
        } else {
            Normalization::Buf(Signal::constant(false))
        }
    } else if mid.kind == hi.kind {
        if mid == hi {
            canonical_and(hi, lo)
        } else {
            Normalization::Buf(Signal::constant(false))
        }
    } else {
        Normalization::Node(Gate::And3(hi, mid, lo), false)
    }
}

/// Canonical form of the Xor of three non-inverted signals given from the
/// largest to the smallest, inverted where `inv` holds.
pub open spec fn canonical_xor3_sorted(hi: Signal, mid: Signal, lo: Signal, inv: bool) -> Normalization {
    if lo.kind == mid.kind {
        Normalization::Buf(hi.flip(inv))
    } else if mid.kind == hi.kind {
        Normalization::Buf(lo.flip(inv))
    } else if lo.kind == SignalKind::Constant {
        canonical_xor(hi, mid).flip(inv)
    } else {
        Normalization::Node(Gate::Xor3(hi, mid, lo), inv)
    }
}

/// Canonical form of the Xor of three signals: the operands' inversions
/// move to the output.
pub open spec fn canonical_xor3(a: Signal, b: Signal, c: Signal) -> Normalization {
    canonical_xor3_sorted(
        hi3(a.positive(), b.positive(), c.positive()),
        mid3(a.positive(), b.positive(), c.positive()),
        lo3(a.positive(), b.positive(), c.positive()),
        (a.inverted != b.inverted) != c.inverted,
    )
}

/// Canonical form of the majority of three signals.
pub open spec fn canonical_maj(a: Signal, b: Signal, c: Signal) -> Normalization {
    let hi = hi3(a, b, c);
    let mid = mid3(a, b, c);
    let lo = lo3(a, b, c);
    if lo.kind == mid.kind {
        if lo == mid {
            Normalization::Buf(lo)
        } else {
            Normalization::Buf(hi)
        }
    } else if mid.kind == hi.kind {
        if mid == hi {
            Normalization::Buf(mid)
        } else {
            Normalization::Buf(lo)
        }
    } else if lo == Signal::constant(false) {
        canonical_and(hi, mid)
    } else if lo == Signal::constant(true) {
        canonical_or(hi, mid)
    } else if hi.inverted {
        Normalization::Node(Gate::Maj(hi.complement(), mid.complement(), lo.complement()), true)
    } else {
        Normalization::Node(Gate::Maj(hi, mid, lo), false)
    }
}

/// Canonical form of a multiplexer whose selector is not inverted.
pub open spec fn canonical_mux_positive(s: Signal, a: Signal, b: Signal) -> Normalization {
    if a.kind == b.kind {
        canonical_xor(s, b)
    } else if a == s {
        canonical_or(s, b)
    } else if a == s.complement() {
        canonical_and(s.complement(), b)
    } else if b == s {
        canonical_and(s, a)
    } else if b == s.complement() {
        canonical_or(s.complement(), a)
    } else if a == Signal::constant(false) {
        canonical_and(s.complement(), b)
    } else if a == Signal::constant(true) {
        canonical_or(s, b)
    } else if b == Signal::constant(false) {
        canonical_and(s, a)
    } else if b == Signal::constant(true) {
        canonical_or(s.complement(), a)
    } else if b.inverted {
        Normalization::Node(Gate::Mux(s, a.complement(), b.complement()), true)
    } else {
        Normalization::Node(Gate::Mux(s, a, b), false)
    }
}

/// Canonical form of the multiplexer that selects `a` where `s` holds and
/// `b` elsewhere.
pub open spec fn canonical_mux(s: Signal, a: Signal, b: Signal) -> Normalization {
    if s == Signal::constant(false) {
        Normalization::Buf(b)
    } else if s == Signal::constant(true) {
        Normalization::Buf(a)
    } else if a == b {
        Normalization::Buf(a)
    } else if s.inverted {
        canonical_mux_positive(s.complement(), b, a)
    } else {
        canonical_mux_positive(s, a, b)
    }
}

/// Canonical form of a flip-flop: one that can never leave 0 is the
/// constant 0.
pub open spec fn canonical_dff(d: Signal, en: Signal, res: Signal) -> Normalization {
    if d == Signal::constant(false) || en == Signal::constant(false) || res == Signal::constant(
        true,
    ) {
        Normalization::Buf(Signal::constant(false))
    } else {
        Normalization::Node(Gate::Dff(d, en, res), false)
    }
}

impl Gate {
    /// The operands, in the order in which this gate holds them.
    pub open spec fn operands(self) -> Seq<Signal> {
        match self {
            Gate::And(a, b) => seq![a, b],
            Gate::Xor(a, b) => seq![a, b],
            Gate::And3(a, b, c) => seq![a, b, c],
            Gate::Xor3(a, b, c) => seq![a, b, c],
            Gate::Mux(a, b, c) => seq![a, b, c],
            Gate::Maj(a, b, c) => seq![a, b, c],
            Gate::Dff(a, b, c) => seq![a, b, c],
        }
    }

    /// Whether some operand refers to `kind`.
    pub open spec fn mentions(self, kind: SignalKind) -> bool {
        match self {
            Gate::And(a, b) => a.kind == kind || b.kind == kind,
            Gate::Xor(a, b) => a.kind == kind || b.kind == kind,
            Gate::And3(a, b, c) => a.kind == kind || b.kind == kind || c.kind == kind,
            Gate::Xor3(a, b, c) => a.kind == kind || b.kind == kind || c.kind == kind,
            Gate::Mux(a, b, c) => a.kind == kind || b.kind == kind || c.kind == kind,
            Gate::Maj(a, b, c) => a.kind == kind || b.kind == kind || c.kind == kind,
            Gate::Dff(a, b, c) => a.kind == kind || b.kind == kind || c.kind == kind,
        }
    }

    /// The value of this gate under a valuation of its operands. A flip-flop
    /// that holds `held` takes its next value: 0 under reset, the data under
    /// enable, else what it holds. Other gates ignore `held`.
    pub open spec fn eval(self, v: Valuation, held: bool) -> bool {
        match self {
            Gate::And(a, b) => a.eval(v) && b.eval(v),
            Gate::Xor(a, b) => a.eval(v) != b.eval(v),
            Gate::And3(a, b, c) => a.eval(v) && b.eval(v) && c.eval(v),
            Gate::Xor3(a, b, c) => (a.eval(v) != b.eval(v)) != c.eval(v),
            Gate::Mux(s, a, b) => if s.eval(v) {
                a.eval(v)
            } else {
                b.eval(v)
            },
            Gate::Maj(a, b, c) => (a.eval(v) && b.eval(v)) || (a.eval(v) && c.eval(v)) || (b.eval(
                v,
            ) && c.eval(v)),
            Gate::Dff(d, en, res) => if res.eval(v) {
                false
            } else if en.eval(v) {
                d.eval(v)
            } else {
                held
            },
        }
    }

    /// Whether this gate is in canonical form: operands strictly descending
    /// by what they refer to where this gate is symmetric, no operand that
    /// would let this gate reduce, and every inversion that can move to the
    /// output moved there.
    pub open spec fn canonical(self) -> bool {
        match self {
            Gate::And(a, b) => a.ord() > b.ord() && b.kind != SignalKind::Constant,
            Gate::Xor(a, b) => a.ord() > b.ord() && b.kind != SignalKind::Constant && !a.inverted
                && !b.inverted,
            Gate::And3(a, b, c) => a.ord() > b.ord() && b.ord() > c.ord() && c.kind
                != SignalKind::Constant,
            Gate::Xor3(a, b, c) => a.ord() > b.ord() && b.ord() > c.ord() && c.kind
                != SignalKind::Constant && !a.inverted && !b.inverted && !c.inverted,
            Gate::Mux(s, a, b) => s.kind != SignalKind::Constant && a.kind != SignalKind::Constant
                && b.kind != SignalKind::Constant && s.kind != a.kind && s.kind != b.kind && a.kind
                != b.kind && !s.inverted && !b.inverted,
            Gate::Maj(a, b, c) => a.ord() > b.ord() && b.ord() > c.ord() && c.kind
                != SignalKind::Constant && !a.inverted,
            Gate::Dff(d, en, res) => d != Signal::constant(false) && en != Signal::constant(false)
                && res != Signal::constant(true),
        }
    }

    /// The canonical form of this gate, by kind.
    #[verifier::opaque]
    pub open spec fn normalized(self) -> Normalization {
        match self {
            Gate::And(a, b) => canonical_and(a, b),
            Gate::Xor(a, b) => canonical_xor(a, b),
            Gate::And3(a, b, c) => canonical_and3(a, b, c),
            Gate::Xor3(a, b, c) => canonical_xor3(a, b, c),
            Gate::Mux(s, a, b) => canonical_mux(s, a, b),
            Gate::Maj(a, b, c) => canonical_maj(a, b, c),
            Gate::Dff(d, en, res) => canonical_dff(d, en, res),
        }
    }

    /// The kind of this gate.
    #[verifier::when_used_as_spec(spec_kind)]
    pub fn kind(&self) -> (k: GateKind)
        ensures
            k == self.spec_kind(),
    {
        match self {
            Gate::And(_, _) => GateKind::And,
            Gate::Xor(_, _) => GateKind::Xor,
            Gate::And3(_, _, _) => GateKind::And3,
            Gate::Xor3(_, _, _) => GateKind::Xor3,
            Gate::Mux(_, _, _) => GateKind::Mux,
            Gate::Maj(_, _, _) => GateKind::Maj,
            Gate::Dff(_, _, _) => GateKind::Dff,
        }
    }

    pub open spec fn spec_kind(&self) -> GateKind {
        match self {
            Gate::And(_, _) => GateKind::And,
            Gate::Xor(_, _) => GateKind::Xor,
            Gate::And3(_, _, _) => GateKind::And3,
            Gate::Xor3(_, _, _) => GateKind::Xor3,
            Gate::Mux(_, _, _) => GateKind::Mux,
            Gate::Maj(_, _, _) => GateKind::Maj,
            Gate::Dff(_, _, _) => GateKind::Dff,
        }
    }

    /// Whether this gate is combinational, that is, no flip-flop.
    pub fn is_comb(&self) -> (b: bool)
        ensures
            b == !(self is Dff),
    {
        match self {
            Gate::Dff(_, _, _) => false,
            _ => true,
        }
    }

    /// Whether this gate depends on node `v`, within the clock step or
    /// across steps.
    pub open spec fn depends_on(self, v: u32) -> bool {
        self.mentions(SignalKind::Node(v))
    }

    /// Whether this gate depends on node `v` within the clock step: a
    /// flip-flop does not.
    pub open spec fn comb_depends_on(self, v: u32) -> bool {
        !(self is Dff) && self.mentions(SignalKind::Node(v))
    }

    /// The node indices for which this gate's combinational dependencies
    /// stand: those of all operands, none for a flip-flop.
    pub open spec fn comb_indices(self) -> Seq<u32> {
        if self is Dff {
            Seq::empty()
        } else {
            node_indices(self.operands())
        }
    }

    /// This gate with every operand taken through a translation table.
    pub open spec fn remapped(self, table: Seq<Signal>) -> Gate {
        match self {
            Gate::And(a, b) => Gate::And(a.remapped(table), b.remapped(table)),
            Gate::Xor(a, b) => Gate::Xor(a.remapped(table), b.remapped(table)),
            Gate::And3(a, b, c) => Gate::And3(
                a.remapped(table),
                b.remapped(table),
                c.remapped(table),
            ),
            Gate::Xor3(a, b, c) => Gate::Xor3(
                a.remapped(table),
                b.remapped(table),
                c.remapped(table),
            ),
            Gate::Mux(a, b, c) => Gate::Mux(
                a.remapped(table),
                b.remapped(table),
                c.remapped(table),
            ),
            Gate::Maj(a, b, c) => Gate::Maj(
                a.remapped(table),
                b.remapped(table),
                c.remapped(table),
            ),
            Gate::Dff(a, b, c) => Gate::Dff(
                a.remapped(table),
                b.remapped(table),
                c.remapped(table),
            ),
        }
    }

    /// This gate in a copy of its network, each operand taken there; see
    /// `Signal::instantiated`.
    pub open spec fn instantiated(self, table: Seq<Signal>, offset: nat) -> Gate {
        match self {
            Gate::And(a, b) => Gate::And(
                a.instantiated(table, offset),
                b.instantiated(table, offset),
            ),
            Gate::Xor(a, b) => Gate::Xor(
                a.instantiated(table, offset),
                b.instantiated(table, offset),
            ),
            Gate::And3(a, b, c) => Gate::And3(
                a.instantiated(table, offset),
                b.instantiated(table, offset),
                c.instantiated(table, offset),
            ),
            Gate::Xor3(a, b, c) => Gate::Xor3(
                a.instantiated(table, offset),
                b.instantiated(table, offset),
                c.instantiated(table, offset),
            ),
            Gate::Mux(a, b, c) => Gate::Mux(
                a.instantiated(table, offset),
                b.instantiated(table, offset),
                c.instantiated(table, offset),
            ),
            Gate::Maj(a, b, c) => Gate::Maj(
                a.instantiated(table, offset),
                b.instantiated(table, offset),
                c.instantiated(table, offset),
            ),
            Gate::Dff(a, b, c) => Gate::Dff(
                a.instantiated(table, offset),
                b.instantiated(table, offset),
                c.instantiated(table, offset),
            ),
        }
    }

    /// This gate in a copy of its network; see `instantiated`.
    pub(crate) fn instantiate(
        &self,
        table: &[Signal],
        offset: u32,
        Ghost(nb_inputs): Ghost<nat>,
    ) -> (r: Gate)
        requires
            self.in_range(nb_inputs, table@.len()),
            offset + nb_inputs <= u32::MAX + 1,
        ensures
            r == self.instantiated(table@, offset as nat),
    {
        match self {
            Gate::And(a, b) => Gate::And(a.instantiate(table, offset), b.instantiate(table, offset)),
            Gate::Xor(a, b) => Gate::Xor(a.instantiate(table, offset), b.instantiate(table, offset)),
            Gate::And3(a, b, c) => Gate::And3(
                a.instantiate(table, offset),
                b.instantiate(table, offset),
                c.instantiate(table, offset),
            ),
            Gate::Xor3(a, b, c) => Gate::Xor3(
                a.instantiate(table, offset),
                b.instantiate(table, offset),
                c.instantiate(table, offset),
            ),
            Gate::Mux(a, b, c) => Gate::Mux(
                a.instantiate(table, offset),
                b.instantiate(table, offset),
                c.instantiate(table, offset),
            ),
            Gate::Maj(a, b, c) => Gate::Maj(
                a.instantiate(table, offset),
                b.instantiate(table, offset),
                c.instantiate(table, offset),
            ),
            Gate::Dff(a, b, c) => Gate::Dff(
                a.instantiate(table, offset),
                b.instantiate(table, offset),
                c.instantiate(table, offset),
            ),
        }
    }

    /// Whether this gate is in canonical form.
    pub fn is_canonical(&self) -> (b: bool)
        ensures
            b == self.canonical(),
    {
        match self {
            Gate::And(a, b) => a.ind() > b.ind() && !b.is_constant(),
            Gate::Xor(a, b) => a.ind() > b.ind() && !b.is_constant() && !a.is_inverted()
                && !b.is_inverted(),
            Gate::And3(a, b, c) => a.ind() > b.ind() && b.ind() > c.ind() && !c.is_constant(),
            Gate::Xor3(a, b, c) => a.ind() > b.ind() && b.ind() > c.ind() && !c.is_constant()
                && !a.is_inverted() && !b.is_inverted() && !c.is_inverted(),
            Gate::Mux(s, a, b) => !s.is_constant() && !a.is_constant() && !b.is_constant()
                && s.ind() != a.ind() && s.ind() != b.ind() && a.ind() != b.ind()
                && !s.is_inverted() && !b.is_inverted(),
            Gate::Maj(a, b, c) => a.ind() > b.ind() && b.ind() > c.ind() && !c.is_constant()
                && !a.is_inverted(),
            Gate::Dff(d, en, res) => *d != Signal::zero() && *en != Signal::zero() && *res
                != Signal::one(),
        }
    }

    /// Brings this gate to canonical form: a signal where this gate reduces
    /// to a constant or to one of its operands, else the canonical gate of
    /// its function with the polarity of the output. A canonical gate comes
    /// back as it is.
    pub fn make_canonical(&self) -> (r: Normalization)
        ensures
            r == self.normalized(),
            r.reduces(*self),
            self.canonical() ==> r == Normalization::Node(*self, false),
    {
        proof {
            reveal(Gate::normalized);
            lemma_normalized_reduces(*self);
            if self.canonical() {
                lemma_normalized_idempotent(*self);
            }
        }
        match self {
            Gate::And(a, b) => make_and(*a, *b),
            Gate::Xor(a, b) => make_xor(*a, *b),
            Gate::And3(a, b, c) => make_and3(*a, *b, *c),
            Gate::Xor3(a, b, c) => make_xor3(*a, *b, *c),
            Gate::Mux(s, a, b) => make_mux(*s, *a, *b),
            Gate::Maj(a, b, c) => make_maj(*a, *b, *c),
            Gate::Dff(d, en, res) => make_dff(*d, *en, *res),
        }
    }

    /// Whether every operand exists in a network with `nb_inputs` primary
    /// inputs and `nb_nodes` nodes.
    pub fn is_in_range(&self, nb_inputs: usize, nb_nodes: usize) -> (b: bool)
        ensures
            b == self.in_range(nb_inputs as nat, nb_nodes as nat),
    {
        match self {
            Gate::And(a, b) | Gate::Xor(a, b) => a.is_in_range(nb_inputs, nb_nodes)
                && b.is_in_range(nb_inputs, nb_nodes),
            Gate::And3(a, b, c)
            | Gate::Xor3(a, b, c)
            | Gate::Mux(a, b, c)
            | Gate::Maj(a, b, c)
            | Gate::Dff(a, b, c) => a.is_in_range(nb_inputs, nb_nodes) && b.is_in_range(
                nb_inputs,
                nb_nodes,
            ) && c.is_in_range(nb_inputs, nb_nodes),
        }
    }

    /// The operands, in the order in which this gate holds them.
    pub fn dependencies(&self) -> (r: Vec<Signal>)
        ensures
            r@ == self.operands(),
    {
        let mut r: Vec<Signal> = Vec::new();
        match self {
            Gate::And(a, b) | Gate::Xor(a, b) => {
                r.push(*a);
                r.push(*b);
            },
            Gate::And3(a, b, c)
            | Gate::Xor3(a, b, c)
            | Gate::Mux(a, b, c)
            | Gate::Maj(a, b, c)
            | Gate::Dff(a, b, c) => {
                r.push(*a);
                r.push(*b);
                r.push(*c);
            },
        }
        assert(r@ =~= self.operands());
        r
    }

    /// The indices of the nodes among the operands, one for each operand
    /// that refers to a node, in the operands' order.
    pub fn vars(&self) -> (r: Vec<u32>)
        ensures
            r@ == node_indices(self.operands()),
            forall|v: u32| r@.contains(v) <==> self.depends_on(v),
    {
        let deps = self.dependencies();
        let mut r: Vec<u32> = Vec::new();
        let mut i: usize = 0;
        while i < deps.len()
            invariant
                i <= deps.len(),
                deps@ == self.operands(),
                r@ == node_indices(deps@.take(i as int)),
            decreases deps.len() - i,
        {
            proof {
                assert(deps@.take(i + 1).drop_last() =~= deps@.take(i as int));
            }
            if deps[i].is_var() {
                r.push(deps[i].var());
            }
            i += 1;
        }
        proof {
            assert(deps@.take(i as int) =~= deps@);
            lemma_node_indices(self.operands());
            assert forall|v: u32| r@.contains(v) <==> self.depends_on(v) by {
                if self.depends_on(v) {
                    let ops = self.operands();
                    assert(ops[0].kind == SignalKind::Node(v) || ops[1].kind == SignalKind::Node(v)
                        || (ops.len() == 3 && ops[2].kind == SignalKind::Node(v)));
                }
            }
        }
        r
    }

    /// The indices of the nodes on which this gate depends within the clock
    /// step: those of `vars` for a combinational gate, none for a flip-flop.
    pub fn comb_vars(&self) -> (r: Vec<u32>)
        ensures
            r@ == self.comb_indices(),
            forall|v: u32| r@.contains(v) <==> self.comb_depends_on(v),
    {
        if self.is_comb() {
            let r = self.vars();
            assert forall|v: u32| r@.contains(v) <==> self.comb_depends_on(v) by {
                assert(r@.contains(v) <==> self.depends_on(v));
            }
            r
        } else {
            let r: Vec<u32> = Vec::new();
            assert forall|v: u32| r@.contains(v) <==> self.comb_depends_on(v) by {
                assert(!r@.contains(v));
            }
            r
        }
    }

    /// This gate with every operand taken through a translation table.
    pub fn remap(&self, table: &[Signal]) -> (r: Gate)
        requires
            self.refers_below(table@.len()),
        ensures
            r == self.remapped(table@),
    {
        proof {
            let ops = self.operands();
            assert(forall|k: int|
                0 <= k < ops.len() ==> ((#[trigger] ops[k]).kind matches SignalKind::Node(i)
                    ==> self.depends_on(i)));
        }
        match self {
            Gate::And(a, b) => Gate::And(a.remap(table), b.remap(table)),
            Gate::Xor(a, b) => Gate::Xor(a.remap(table), b.remap(table)),
            Gate::And3(a, b, c) => Gate::And3(a.remap(table), b.remap(table), c.remap(table)),
            Gate::Xor3(a, b, c) => Gate::Xor3(a.remap(table), b.remap(table), c.remap(table)),
            Gate::Mux(a, b, c) => Gate::Mux(a.remap(table), b.remap(table), c.remap(table)),
            Gate::Maj(a, b, c) => Gate::Maj(a.remap(table), b.remap(table), c.remap(table)),
            Gate::Dff(a, b, c) => Gate::Dff(a.remap(table), b.remap(table), c.remap(table)),
        }
    }

    /// A number that stands for this gate: its kind and the ranks of its
    /// operands, packed. Two gates are equal exactly when their keys are.
    pub open spec fn spec_key(&self) -> u128 {
        match self {
            Gate::And(a, b) => pack(0, *a, *b, Signal::constant(false)),
            Gate::Xor(a, b) => pack(1, *a, *b, Signal::constant(false)),
            Gate::And3(a, b, c) => pack(2, *a, *b, *c),
            Gate::Xor3(a, b, c) => pack(3, *a, *b, *c),
            Gate::Mux(a, b, c) => pack(4, *a, *b, *c),
            Gate::Maj(a, b, c) => pack(5, *a, *b, *c),
            Gate::Dff(a, b, c) => pack(6, *a, *b, *c),
        }
    }

    /// A number that stands for this gate, for use as the key of a
    /// structural index.
    #[verifier::when_used_as_spec(spec_key)]
    pub fn key(&self) -> (k: u128)
        ensures
            k == self.spec_key(),
    {
        match self {
            Gate::And(a, b) => pack_exec(0, *a, *b, Signal::zero()),
            Gate::Xor(a, b) => pack_exec(1, *a, *b, Signal::zero()),
            Gate::And3(a, b, c) => pack_exec(2, *a, *b, *c),
            Gate::Xor3(a, b, c) => pack_exec(3, *a, *b, *c),
            Gate::Mux(a, b, c) => pack_exec(4, *a, *b, *c),
            Gate::Maj(a, b, c) => pack_exec(5, *a, *b, *c),
            Gate::Dff(a, b, c) => pack_exec(6, *a, *b, *c),
        }
    }

    /// The operands as a triple, with the constant 0 where this gate has no
    /// third.
    pub open spec fn triple(self) -> (Signal, Signal, Signal) {
        match self {
            Gate::And(a, b) | Gate::Xor(a, b) => (a, b, Signal::constant(false)),
            Gate::And3(a, b, c)
            | Gate::Xor3(a, b, c)
            | Gate::Mux(a, b, c)
            | Gate::Maj(a, b, c)
            | Gate::Dff(a, b, c) => (a, b, c),
        }
    }

    /// Gates with the same key are equal.
    pub proof fn lemma_key_injective(g: Gate, h: Gate)
        ensures
            g.spec_key() == h.spec_key() <==> g == h,
    {
        if g.spec_key() == h.spec_key() {
            let (a, b, c) = g.triple();
            let (d, e, f) = h.triple();
            assert(g.spec_key() == pack(g.spec_kind().tag(), a, b, c));
            assert(h.spec_key() == pack(h.spec_kind().tag(), d, e, f));
            lemma_pack(g.spec_kind().tag(), a, b, c, h.spec_kind().tag(), d, e, f);
        }
    }

    /// Whether every operand exists in a network with `nb_inputs` primary
    /// inputs and `nb_nodes` nodes.
    pub open spec fn in_range(self, nb_inputs: nat, nb_nodes: nat) -> bool {
        match self {
            Gate::And(a, b) | Gate::Xor(a, b) => a.in_range(nb_inputs, nb_nodes) && b.in_range(
                nb_inputs,
                nb_nodes,
            ),
            Gate::And3(a, b, c)
            | Gate::Xor3(a, b, c)
            | Gate::Mux(a, b, c)
            | Gate::Maj(a, b, c)
            | Gate::Dff(a, b, c) => a.in_range(nb_inputs, nb_nodes) && b.in_range(
                nb_inputs,
                nb_nodes,
            ) && c.in_range(nb_inputs, nb_nodes),
        }
    }

    /// Whether every node to which an operand refers has an index below
    /// `nb_nodes`.
    pub open spec fn refers_below(self, nb_nodes: nat) -> bool {
        forall|v: u32| self.depends_on(v) ==> v < nb_nodes
    }
}

/// Brings the And of two signals to canonical form.
pub fn make_and(a: Signal, b: Signal) -> (r: Normalization)
    ensures
        r == canonical_and(a, b),
{
    let (mx, mn) = sort_2(a, b);
    if mn == Signal::zero() {
        Normalization::Buf(Signal::zero())
    } else if mn == Signal::one() {
        Normalization::Buf(mx)
    } else if mn == mx {
        Normalization::Buf(mn)
    } else if mn == mx.not() {
        Normalization::Buf(Signal::zero())
    } else {
        Normalization::Node(Gate::And(mx, mn), false)
    }
}

/// Brings the Or of two signals to canonical form.
pub fn make_or(a: Signal, b: Signal) -> (r: Normalization)
    ensures
        r == canonical_or(a, b),
{
    make_and(a.not(), b.not()).xor(true)
}

/// Brings the Xor of two signals to canonical form.
pub fn make_xor(a: Signal, b: Signal) -> (r: Normalization)
    ensures
        r == canonical_xor(a, b),
{
    let (mx, mn) = sort_2(a, b);
    if mn == Signal::zero() {
        Normalization::Buf(mx)
    } else if mn == Signal::one() {
        Normalization::Buf(mx.not())
    } else if mn == mx {
        Normalization::Buf(Signal::zero())
    } else if mn == mx.not() {
        Normalization::Buf(Signal::one())
    } else {
        Normalization::Node(
            Gate::Xor(mx.without_inversion(), mn.without_inversion()),
            mx.is_inverted() != mn.is_inverted(),
        )
    }
}

/// Brings the And of three signals to canonical form.
pub fn make_and3(a: Signal, b: Signal, c: Signal) -> (r: Normalization)
    ensures
        r == canonical_and3(a, b, c),
{
    let (hi, mid, lo) = sort_3(a, b, c);
    if lo == Signal::zero() {
        Normalization::Buf(Signal::zero())
    } else if lo == Signal::one() {
        make_and(hi, mid)
    } else if lo.ind() == mid.ind() {
        if lo == mid {
            make_and(hi, mid)
        } else {
            Normalization::Buf(Signal::zero())
        }
    } else if mid.ind() == hi.ind() {
        if mid == hi {
            make_and(hi, lo)
        } else {
            Normalization::Buf(Signal::zero())
        }
    } else {
        Normalization::Node(Gate::And3(hi, mid, lo), false)
    }
}

/// Brings the Xor of three signals to canonical form.
pub fn make_xor3(a: Signal, b: Signal, c: Signal) -> (r: Normalization)
    ensures
        r == canonical_xor3(a, b, c),
{
    let inv = (a.is_inverted() != b.is_inverted()) != c.is_inverted();
    let (hi, mid, lo) = sort_3(a.without_inversion(), b.without_inversion(), c.without_inversion());
    if lo.ind() == mid.ind() {
        Normalization::Buf(hi.bitxor(inv))
    } else if mid.ind() == hi.ind() {
        Normalization::Buf(lo.bitxor(inv))
    } else if lo.is_constant() {
        make_xor(hi, mid).xor(inv)
    } else {
        Normalization::Node(Gate::Xor3(hi, mid, lo), inv)
    }
}

/// Brings the majority of three signals to canonical form.
pub fn make_maj(a: Signal, b: Signal, c: Signal) -> (r: Normalization)
    ensures
        r == canonical_maj(a, b, c),
{
    let (hi, mid, lo) = sort_3(a, b, c);
    if lo.ind() == mid.ind() {
        if lo == mid {
            Normalization::Buf(lo)
        } else {
            Normalization::Buf(hi)
        }
    } else if mid.ind() == hi.ind() {
        if mid == hi {
            Normalization::Buf(mid)
        } else {
            Normalization::Buf(lo)
        }
    } else if lo == Signal::zero() {
        make_and(hi, mid)
    } else if lo == Signal::one() {
        make_or(hi, mid)
    } else if hi.is_inverted() {
        Normalization::Node(Gate::Maj(hi.not(), mid.not(), lo.not()), true)
    } else {
        Normalization::Node(Gate::Maj(hi, mid, lo), false)
    }
}

/// Brings a multiplexer whose selector is not inverted to canonical form.
fn make_mux_positive(s: Signal, a: Signal, b: Signal) -> (r: Normalization)
    ensures
        r == canonical_mux_positive(s, a, b),
{
    if a.ind() == b.ind() {
        make_xor(s, b)
    } else if a == s {
        make_or(s, b)
    } else if a == s.not() {
        make_and(s.not(), b)
    } else if b == s {
        make_and(s, a)
    } else if b == s.not() {
        make_or(s.not(), a)
    } else if a == Signal::zero() {
        make_and(s.not(), b)
    } else if a == Signal::one() {
        make_or(s, b)
    } else if b == Signal::zero() {
        make_and(s, a)
    } else if b == Signal::one() {
        make_or(s.not(), a)
    } else if b.is_inverted() {
        Normalization::Node(Gate::Mux(s, a.not(), b.not()), true)
    } else {
        Normalization::Node(Gate::Mux(s, a, b), false)
    }
}

/// Brings the multiplexer that selects `a` where `s` holds and `b`
/// elsewhere to canonical form.
pub fn make_mux(s: Signal, a: Signal, b: Signal) -> (r: Normalization)
    ensures
        r == canonical_mux(s, a, b),
{
    if s == Signal::zero() {
        Normalization::Buf(b)
    } else if s == Signal::one() {
        Normalization::Buf(a)
    } else if a == b {
        Normalization::Buf(a)
    } else if s.is_inverted() {
        make_mux_positive(s.not(), b, a)
    } else {
        make_mux_positive(s, a, b)
    }
}

/// Brings a flip-flop to canonical form.
pub fn make_dff(d: Signal, en: Signal, res: Signal) -> (r: Normalization)
    ensures
        r == canonical_dff(d, en, res),
{
    if d == Signal::zero() || en == Signal::zero() || res == Signal::one() {
        Normalization::Buf(Signal::zero())
    } else {
        Normalization::Node(Gate::Dff(d, en, res), false)
    }
}

proof fn lemma_and(a: Signal, b: Signal, v: Valuation, held: bool)
    ensures
        canonical_and(a, b).reduces(Gate::And(a, b)),
        canonical_and(a, b).eval(v, held) == (a.eval(v) && b.eval(v)),
        canonical_or(a, b).reduces(Gate::And(a, b)),
        canonical_or(a, b).eval(v, held) == (a.eval(v) || b.eval(v)),
{
}

proof fn lemma_xor(a: Signal, b: Signal, v: Valuation, held: bool)
    ensures
        canonical_xor(a, b).reduces(Gate::Xor(a, b)),
        canonical_xor(a, b).eval(v, held) == (a.eval(v) != b.eval(v)),
{
}

proof fn lemma_and3(a: Signal, b: Signal, c: Signal, v: Valuation, held: bool)
    ensures
        canonical_and3(a, b, c).reduces(Gate::And3(a, b, c)),
        canonical_and3(a, b, c).eval(v, held) == Gate::And3(a, b, c).eval(v, held),
{
    let hi = hi3(a, b, c);
    let mid = mid3(a, b, c);
    let lo = lo3(a, b, c);
    lemma_and(hi, mid, v, held);
    lemma_and(hi, lo, v, held);
}

proof fn lemma_sorted_3(a: Signal, b: Signal, c: Signal)
    ensures
        hi3(a, b, c).rank() >= mid3(a, b, c).rank() >= lo3(a, b, c).rank(),
        ({
            let r = (hi3(a, b, c), mid3(a, b, c), lo3(a, b, c));
            r == (a, b, c) || r == (a, c, b) || r == (b, a, c) || r == (b, c, a) || r == (c, a, b)
                || r == (c, b, a)
        }),
{
}

proof fn lemma_xor3_sorted(hi: Signal, mid: Signal, lo: Signal, inv: bool, v: Valuation, held: bool)
    requires
        hi.rank() >= mid.rank() >= lo.rank(),
        !hi.inverted && !mid.inverted && !lo.inverted,
    ensures
        canonical_xor3_sorted(hi, mid, lo, inv).reduces(Gate::Xor3(hi, mid, lo)),
        canonical_xor3_sorted(hi, mid, lo, inv).eval(v, held) == (Gate::Xor3(hi, mid, lo).eval(
            v,
            held,
        ) != inv),
{
    lemma_xor(hi, mid, v, held);
}

proof fn lemma_xor3(a: Signal, b: Signal, c: Signal, v: Valuation, held: bool)
    ensures
        canonical_xor3(a, b, c).reduces(Gate::Xor3(a, b, c)),
        canonical_xor3(a, b, c).eval(v, held) == Gate::Xor3(a, b, c).eval(v, held),
{
    let pa = a.positive();
    let pb = b.positive();
    let pc = c.positive();
    let hi = hi3(pa, pb, pc);
    let mid = mid3(pa, pb, pc);
    let lo = lo3(pa, pb, pc);
    let inv = (a.inverted != b.inverted) != c.inverted;
    lemma_sorted_3(pa, pb, pc);
    lemma_xor3_sorted(hi, mid, lo, inv, v, held);
    let n = canonical_xor3_sorted(hi, mid, lo, inv);
    assert(forall|k: SignalKind| Gate::Xor3(hi, mid, lo).mentions(k) ==> Gate::Xor3(a, b, c).mentions(k));
    assert(Gate::Xor3(hi, mid, lo).eval(v, held) == Gate::Xor3(pa, pb, pc).eval(v, held));
    assert((Gate::Xor3(pa, pb, pc).eval(v, held) != inv) == Gate::Xor3(a, b, c).eval(v, held));
}

proof fn lemma_maj(a: Signal, b: Signal, c: Signal, v: Valuation, held: bool)
    ensures
        canonical_maj(a, b, c).reduces(Gate::Maj(a, b, c)),
        canonical_maj(a, b, c).eval(v, held) == Gate::Maj(a, b, c).eval(v, held),
{
    let hi = hi3(a, b, c);
    let mid = mid3(a, b, c);
    lemma_and(hi, mid, v, held);
}

proof fn lemma_mux_positive(s: Signal, a: Signal, b: Signal, v: Valuation, held: bool)
    requires
        s.kind != SignalKind::Constant,
        !s.inverted,
        a != b,
    ensures
        canonical_mux_positive(s, a, b).reduces(Gate::Mux(s, a, b)),
        canonical_mux_positive(s, a, b).eval(v, held) == Gate::Mux(s, a, b).eval(v, held),
{
    lemma_xor(s, b, v, held);
    lemma_and(s, b, v, held);
    lemma_and(s.complement(), b, v, held);
    lemma_and(s, a, v, held);
    lemma_and(s.complement(), a, v, held);
}

proof fn lemma_mux(s: Signal, a: Signal, b: Signal, v: Valuation, held: bool)
    ensures
        canonical_mux(s, a, b).reduces(Gate::Mux(s, a, b)),
        canonical_mux(s, a, b).eval(v, held) == Gate::Mux(s, a, b).eval(v, held),
{
    if s.kind != SignalKind::Constant && a != b {
        if s.inverted {
            lemma_mux_positive(s.complement(), b, a, v, held);
        } else {
            lemma_mux_positive(s, a, b, v, held);
        }
    }
}

/// Bringing a gate to canonical form gives a canonical gate or a signal,
/// over nothing but constants and what its operands refer to.
pub proof fn lemma_normalized_reduces(g: Gate)
    ensures
        g.normalized().reduces(g),
{
    reveal(Gate::normalized);
    let v = Valuation { inputs: Seq::empty(), nodes: Seq::empty() };
    match g {
        Gate::And(a, b) => lemma_and(a, b, v, false),
        Gate::Xor(a, b) => lemma_xor(a, b, v, false),
        Gate::And3(a, b, c) => lemma_and3(a, b, c, v, false),
        Gate::Xor3(a, b, c) => lemma_xor3(a, b, c, v, false),
        Gate::Mux(s, a, b) => lemma_mux(s, a, b, v, false),
        Gate::Maj(a, b, c) => lemma_maj(a, b, c, v, false),
        Gate::Dff(d, en, res) => {},
    }
}

/// A canonical gate is its own canonical form.
pub proof fn lemma_normalized_idempotent(g: Gate)
    requires
        g.canonical(),
    ensures
        g.normalized() == Normalization::Node(g, false),
{
    reveal(Gate::normalized);
}

/// The canonical form computes what its gate computes, under every
/// valuation: a canonical gate up to the output polarity, for a flip-flop
/// whatever it holds; a signal with the same value, for a flip-flop
/// where it holds 0.
pub proof fn lemma_normalized_preserves_function(g: Gate, v: Valuation, held: bool)
    ensures
        g.normalized() is Node || !(g is Dff) || !held ==> g.normalized().eval(v, held) == g.eval(
            v,
            held,
        ),
{
    reveal(Gate::normalized);
    match g {
        Gate::And(a, b) => lemma_and(a, b, v, held),
        Gate::Xor(a, b) => lemma_xor(a, b, v, held),
        Gate::And3(a, b, c) => lemma_and3(a, b, c, v, held),
        Gate::Xor3(a, b, c) => lemma_xor3(a, b, c, v, held),
        Gate::Mux(s, a, b) => lemma_mux(s, a, b, v, held),
        Gate::Maj(a, b, c) => lemma_maj(a, b, c, v, held),
        Gate::Dff(d, en, res) => {},
    }
}

/// The canonical form of a combinational gate holds no flip-flop; that of
/// a flip-flop is the flip-flop itself or the constant 0.
pub proof fn lemma_normalized_kind(g: Gate)
    ensures
        !(g is Dff) ==> (g.normalized() matches Normalization::Node(c, _) ==> !(c is Dff)),
        g is Dff ==> g.normalized() == Normalization::Node(g, false) || g.normalized()
            == Normalization::Buf(Signal::constant(false)),
{
    reveal(Gate::normalized);
}

/// A gate refers to what exists exactly where everything that it
/// mentions exists.
pub proof fn lemma_in_range_mentions(g: Gate, nb_inputs: nat, nb_nodes: nat)
    ensures
        g.in_range(nb_inputs, nb_nodes) <==> forall|k: SignalKind|
            g.mentions(k) ==> k.in_range(nb_inputs, nb_nodes),
{
    if forall|k: SignalKind| g.mentions(k) ==> k.in_range(nb_inputs, nb_nodes) {
        let ops = g.operands();
        assert(g.mentions(ops[0].kind));
        assert(g.mentions(ops[1].kind));
        if ops.len() == 3 {
            assert(g.mentions(ops[2].kind));
        }
    }
}

/// The canonical form of a gate refers to what exists where that gate does.
pub proof fn lemma_normalized_in_range(g: Gate, nb_inputs: nat, nb_nodes: nat)
    requires
        g.in_range(nb_inputs, nb_nodes),
    ensures
        match g.normalized() {
            Normalization::Buf(s) => s.in_range(nb_inputs, nb_nodes),
            Normalization::Node(c, _) => c.in_range(nb_inputs, nb_nodes),
        },
{
    lemma_normalized_reduces(g);
    lemma_in_range_mentions(g, nb_inputs, nb_nodes);
    match g.normalized() {
        Normalization::Buf(s) => {
            assert(s.kind == SignalKind::Constant || g.mentions(s.kind));
        },
        Normalization::Node(c, _) => {
            lemma_in_range_mentions(c, nb_inputs, nb_nodes);
        },
    }
}

} // verus!
