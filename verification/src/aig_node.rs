//! A node over three literals that is a majority or a multiplexer, with
//! And and Xor as special cases, and its canonical form.

use crate::literal::{Lit, Num};
use crate::literal_order::{larger, smaller, sort_2_lits, sort_3_lits};
use core::ops::Not;
use vstd::prelude::*;
use vstd::string::StringExecFns;

verus! {

/// A node over three literals. With the flag of the first literal set it
/// is a multiplexer, which selects the second where the first holds and the
/// third elsewhere; without, it is the majority of the three.
#[derive(PartialEq, Eq, Hash, Clone, Copy, Debug, Structural)]
pub struct AigNode {
    pub a: Lit,
    pub b: Lit,
    pub c: Lit,
}

/// The two kinds of node.
#[derive(PartialEq, Eq, Clone, Copy, Debug, Structural)]
pub enum NodeType {
    Maj,
    Mux,
}

/// The outcome of bringing a function to canonical form: a literal where
/// the function reduces to one, else a canonical node of the function or
/// of its complement.
#[derive(PartialEq, Eq, Clone, Copy, Debug, Structural)]
pub enum NormalizationResult {
    /// The function is the literal.
    Literal(Lit),
    /// The function is that of the node.
    PosNode(AigNode),
    /// The function is the complement of that of the node.
    NegNode(AigNode),
}

/// The basic gate for which a node stands.
#[derive(PartialEq, Eq, Clone, Copy, Debug, Structural)]
pub enum BasicGate {
    And(Lit, Lit),
    Xor(Lit, Lit),
    Mux(Lit, Lit, Lit),
    Maj(Lit, Lit, Lit),
}

/// The majority of three truth values.
pub open spec fn majority(x: bool, y: bool, z: bool) -> bool {
    (x && y) || (x && z) || (y && z)
}

impl Lit {
    /// The truth value of the literal under an assignment of the
    /// variables.
    pub open spec fn eval(self, env: spec_fn(u32) -> bool) -> bool {
        match self.variable {
            None => self.inverted,
            Some(v) => env(v) != self.inverted,
        }
    }
}

impl NormalizationResult {
    /// The truth value of the outcome under an assignment of the
    /// variables.
    pub open spec fn eval(self, env: spec_fn(u32) -> bool) -> bool {
        match self {
            NormalizationResult::Literal(l) => l.eval(env),
            NormalizationResult::PosNode(n) => n.eval(env),
            NormalizationResult::NegNode(n) => !n.eval(env),
        }
    }

    /// Whether the outcome is a literal without a flag or a canonical
    /// node.
    pub open spec fn settled(self) -> bool {
        match self {
            NormalizationResult::Literal(l) => !l.flag,
            NormalizationResult::PosNode(n) => n.canonical(),
            NormalizationResult::NegNode(n) => n.canonical(),
        }
    }

    /// The outcome for the complement of the function.
    pub open spec fn complement(self) -> NormalizationResult {
        match self {
            NormalizationResult::Literal(l) => NormalizationResult::Literal(l.complement()),
            NormalizationResult::PosNode(n) => NormalizationResult::NegNode(n),
            NormalizationResult::NegNode(n) => NormalizationResult::PosNode(n),
        }
    }

    /// The outcome for the complement of the function.
    pub fn negate(self) -> (r: NormalizationResult)
        ensures
            r == self.complement(),
    {
        match self {
            NormalizationResult::Literal(l) => NormalizationResult::Literal(l.not()),
            NormalizationResult::PosNode(n) => NormalizationResult::NegNode(n),
            NormalizationResult::NegNode(n) => NormalizationResult::PosNode(n),
        }
    }
}

/// Canonical form of the And of two literals without flag.
pub open spec fn canonical_and(a: Lit, b: Lit) -> NormalizationResult {
    let mn = smaller(a, b);
    let mx = larger(a, b);
    if mn == Lit::constant(false) {
        NormalizationResult::Literal(Lit::constant(false))
    } else if mn == Lit::constant(true) {
        NormalizationResult::Literal(mx)
    } else if mn == mx {
        NormalizationResult::Literal(mn)
    } else if mn == mx.complement() {
        NormalizationResult::Literal(Lit::constant(false))
    } else {
        NormalizationResult::PosNode(AigNode { a: mx, b: mn, c: Lit::constant(false) })
    }
}

/// Canonical form of the Or of two literals without flag: the complement
/// of the And of their complements.
pub open spec fn canonical_or(a: Lit, b: Lit) -> NormalizationResult {
    canonical_and(a.complement(), b.complement()).complement()
}

/// Canonical form of the Xor of two literals without flag: a multiplexer
/// that selects, by the smaller variable, between the larger variable and
/// its complement; the inversions of the two literals move to the output.
pub open spec fn canonical_xor(a: Lit, b: Lit) -> NormalizationResult {
    let mn = smaller(a, b);
    let mx = larger(a, b);
    if mn == Lit::constant(false) {
        NormalizationResult::Literal(mx)
    } else if mn == Lit::constant(true) {
        NormalizationResult::Literal(mx.complement())
    } else if mn == mx {
        NormalizationResult::Literal(Lit::constant(false))
    } else if mn == mx.complement() {
        NormalizationResult::Literal(Lit::constant(true))
    } else {
        let node = AigNode {
            a: mn.positive().flagged(),
            b: mx.positive().complement(),
            c: mx.positive(),
        };
        if mn.inverted != mx.inverted {
            NormalizationResult::NegNode(node)
        } else {
            NormalizationResult::PosNode(node)
        }
    }
}

/// Canonical form of a multiplexer whose selector is a variable, not
/// inverted; the literals are without flag.
pub open spec fn canonical_mux_positive(s: Lit, a: Lit, b: Lit) -> NormalizationResult {
    if a.variable == b.variable {
        canonical_xor(s, b)
    } else if a == s {
        canonical_or(s, b)
    } else if a == s.complement() {
        canonical_and(s.complement(), b)
    } else if b == s {
        canonical_and(s, a)
    } else if b == s.complement() {
        canonical_or(s.complement(), a)
    } else if a == Lit::constant(false) {
        canonical_and(s.complement(), b)
    } else if a == Lit::constant(true) {
        canonical_or(s, b)
    } else if b == Lit::constant(false) {
        canonical_and(s, a)
    } else if b == Lit::constant(true) {
        canonical_or(s.complement(), a)
    } else if b.inverted {
        NormalizationResult::NegNode(
            AigNode { a: s.flagged(), b: a.complement(), c: b.complement() },
        )
    } else {
        NormalizationResult::PosNode(AigNode { a: s.flagged(), b: a, c: b })
    }
}

/// Canonical form of the multiplexer that selects `a` where `s` holds and
/// `b` elsewhere; the literals are without flag.
pub open spec fn canonical_mux(s: Lit, a: Lit, b: Lit) -> NormalizationResult {
    if s == Lit::constant(false) {
        NormalizationResult::Literal(b)
    } else if s == Lit::constant(true) {
        NormalizationResult::Literal(a)
    } else if a == b {
        NormalizationResult::Literal(a)
    } else if s.inverted {
        canonical_mux_positive(s.complement(), b, a)
    } else {
        canonical_mux_positive(s, a, b)
    }
}

/// Canonical form of the majority of three literals without flag, given
/// from the largest to the smallest.
pub open spec fn canonical_maj_sorted(i2: Lit, i1: Lit, i0: Lit) -> NormalizationResult {
    if i0.variable == i1.variable {
        if i0 == i1 {
            NormalizationResult::Literal(i0)
        } else {
            NormalizationResult::Literal(i2)
        }
    } else if i1.variable == i2.variable {
        if i1 == i2 {
            NormalizationResult::Literal(i1)
        } else {
            NormalizationResult::Literal(i0)
        }
    } else if i0 == Lit::constant(true) {
        NormalizationResult::NegNode(
            AigNode { a: i2.complement(), b: i1.complement(), c: Lit::constant(false) },
        )
    } else {
        NormalizationResult::PosNode(AigNode { a: i2, b: i1, c: i0 })
    }
}

/// Canonical form of the majority of three literals without flag.
pub open spec fn canonical_maj(a: Lit, b: Lit, c: Lit) -> NormalizationResult {
    canonical_maj_sorted(
        larger(larger(a, b), c),
        larger(smaller(a, b), smaller(larger(a, b), c)),
        smaller(smaller(a, b), c),
    )
}

impl AigNode {
    /// The three literals, flags cleared.
    pub open spec fn plain(self) -> (Lit, Lit, Lit) {
        (self.a.plain(), self.b.plain(), self.c.plain())
    }

    /// The value of the node where its literals' variables have the values
    /// `x`, `y` and `z`.
    pub open spec fn value(self, x: bool, y: bool, z: bool) -> bool {
        let av = x != self.a.inverted;
        let bv = y != self.b.inverted;
        let cv = z != self.c.inverted;
        if self.a.flag {
            if av {
                bv
            } else {
                cv
            }
        } else {
            majority(av, bv, cv)
        }
    }

    /// The value of the node under an assignment of the variables.
    pub open spec fn eval(self, env: spec_fn(u32) -> bool) -> bool {
        if self.a.flag {
            if self.a.eval(env) {
                self.b.eval(env)
            } else {
                self.c.eval(env)
            }
        } else {
            majority(self.a.eval(env), self.b.eval(env), self.c.eval(env))
        }
    }

    /// Whether a multiplexer is canonical: no constant; the selector not
    /// inverted and on a variable of its own; the last literal not
    /// inverted; the two data literals different, and where they are
    /// complements, which makes a Xor, the selector on the smaller
    /// variable.
    pub open spec fn canonical_as_mux(self) -> bool {
        let (a, b, c) = self.plain();
        &&& a.variable is Some && b.variable is Some && c.variable is Some
        &&& b != c
        &&& !a.inverted
        &&& a.variable != b.variable && a.variable != c.variable
        &&& !c.inverted
        &&& b.variable == c.variable ==> a.rank() <= b.rank()
    }

    /// Whether a majority is canonical: the variables strictly descending,
    /// and the last literal not the constant 1. With the constant 0 last it
    /// is an And.
    pub open spec fn canonical_as_maj(self) -> bool {
        let (a, b, c) = self.plain();
        &&& a.ord() > b.ord() && b.ord() > c.ord()
        &&& c != Lit::constant(true)
    }

    /// Whether the node is canonical, by its kind.
    pub open spec fn canonical(self) -> bool {
        if self.a.flag {
            self.canonical_as_mux()
        } else {
            self.canonical_as_maj()
        }
    }

    /// The canonical form of the node: the node itself where it is
    /// canonical, else the canonical form of the multiplexer or of the
    /// majority over its literals, flags cleared.
    pub open spec fn normalized(self) -> NormalizationResult {
        let (a, b, c) = self.plain();
        if self.canonical() {
            NormalizationResult::PosNode(self)
        } else if self.a.flag {
            canonical_mux(a, b, c)
        } else {
            canonical_maj(a, b, c)
        }
    }

    /// The basic gate for which the node stands: a multiplexer over a
    /// literal and its complement is a Xor, a majority with the constant 0
    /// an And.
    pub open spec fn gate(self) -> BasicGate {
        let (a, b, c) = self.plain();
        if self.a.flag {
            if b == c.complement() {
                BasicGate::Xor(a, c)
            } else {
                BasicGate::Mux(a, b, c)
            }
        } else if c == Lit::constant(false) {
            BasicGate::And(a, b)
        } else {
            BasicGate::Maj(a, b, c)
        }
    }

    /// The text of the node: the name of its basic gate and the texts of
    /// its literals.
    pub open spec fn text(self) -> Seq<char> {
        match self.gate() {
            BasicGate::And(a, b) => seq!['A', 'n', 'd', '('] + a.text() + seq![',', ' '] + b.text()
                + seq![')'],
            BasicGate::Xor(a, b) => seq!['X', 'o', 'r', '('] + a.text() + seq![',', ' '] + b.text()
                + seq![')'],
            BasicGate::Mux(a, b, c) => seq!['M', 'u', 'x', '('] + a.text() + seq![',', ' ']
                + b.text() + seq![',', ' '] + c.text() + seq![')'],
            BasicGate::Maj(a, b, c) => seq!['M', 'a', 'j', '('] + a.text() + seq![',', ' ']
                + b.text() + seq![',', ' '] + c.text() + seq![')'],
        }
    }

    /// The three literals, flags cleared.
    pub fn lits(&self) -> (r: (Lit, Lit, Lit))
        ensures
            r == self.plain(),
    {
        (self.a.without_flag(), self.b.without_flag(), self.c.without_flag())
    }

    /// The kind of the node.
    pub fn node_type(&self) -> (t: NodeType)
        ensures
            t == if self.a.flag {
                NodeType::Mux
            } else {
                NodeType::Maj
            },
    {
        if self.a.flag() {
            NodeType::Mux
        } else {
            NodeType::Maj
        }
    }

    /// The majority of three literals, as they are.
    pub fn maj(a: Lit, b: Lit, c: Lit) -> (n: AigNode)
        ensures
            n == (AigNode { a, b, c }),
    {
        AigNode { a, b, c }
    }

    /// The multiplexer over three literals, as they are but for the flag.
    pub fn mux(a: Lit, b: Lit, c: Lit) -> (n: AigNode)
        ensures
            n == (AigNode { a: a.flagged(), b, c }),
    {
        AigNode { a: a.with_flag(), b, c }
    }

    /// Simulates the node on many patterns at once: bit `i` of the result
    /// is the value of the node where the variables of its literals have
    /// bit `i` of the three words.
    pub fn simulate<T: Num>(&self, a_val: T, b_val: T, c_val: T) -> (r: T)
        ensures
            forall|i: int|
                0 <= i < T::width() ==> #[trigger] r.bit(i) == self.value(
                    a_val.bit(i),
                    b_val.bit(i),
                    c_val.bit(i),
                ),
    {
        let toggle_a: T = self.a.pol_to_word();
        let toggle_b: T = self.b.pol_to_word();
        let toggle_c: T = self.c.pol_to_word();
        let sel_mux: T = self.a.flag_to_word();
        let av: T = a_val.xor(toggle_a);
        let bv: T = b_val.xor(toggle_b);
        let cv: T = c_val.xor(toggle_c);
        let ab: T = av.and(bv);
        let ac: T = av.and(cv);
        let bc: T = bv.and(cv);
        let not_a: T = av.inv();
        let else_c: T = not_a.and(cv);
        let mux: T = ab.or(else_c);
        let two: T = ab.or(ac);
        let maj: T = two.or(bc);
        let not_sel: T = sel_mux.inv();
        let as_maj: T = not_sel.and(maj);
        let as_mux: T = sel_mux.and(mux);
        let r = as_maj.or(as_mux);
        assert forall|i: int| 0 <= i < T::width() implies #[trigger] r.bit(i) == self.value(
            a_val.bit(i),
            b_val.bit(i),
            c_val.bit(i),
        ) by {
            assert(toggle_a.bit(i) == self.a.inverted);
            assert(toggle_b.bit(i) == self.b.inverted);
            assert(toggle_c.bit(i) == self.c.inverted);
            assert(sel_mux.bit(i) == self.a.flag);
            assert(av.bit(i) == (a_val.bit(i) != self.a.inverted));
            assert(bv.bit(i) == (b_val.bit(i) != self.b.inverted));
            assert(cv.bit(i) == (c_val.bit(i) != self.c.inverted));
            assert(ab.bit(i) == (av.bit(i) && bv.bit(i)));
            assert(ac.bit(i) == (av.bit(i) && cv.bit(i)));
            assert(bc.bit(i) == (bv.bit(i) && cv.bit(i)));
            assert(not_a.bit(i) == !av.bit(i));
            assert(else_c.bit(i) == (!av.bit(i) && cv.bit(i)));
            assert(mux.bit(i) == (ab.bit(i) || else_c.bit(i)));
            assert(two.bit(i) == (ab.bit(i) || ac.bit(i)));
            assert(maj.bit(i) == (two.bit(i) || bc.bit(i)));
            assert(not_sel.bit(i) == !sel_mux.bit(i));
            assert(as_maj.bit(i) == (not_sel.bit(i) && maj.bit(i)));
            assert(as_mux.bit(i) == (sel_mux.bit(i) && mux.bit(i)));
            assert(r.bit(i) == (as_maj.bit(i) || as_mux.bit(i)));
        }
        r
    }

    /// Whether the node is canonical, by its kind.
    pub fn is_canonical(&self) -> (r: bool)
        ensures
            r == self.canonical(),
    {
        match self.node_type() {
            NodeType::Mux => self.is_canonical_mux(),
            NodeType::Maj => self.is_canonical_maj(),
        }
    }

    /// Whether the node is canonical as a multiplexer.
    fn is_canonical_mux(&self) -> (r: bool)
        ensures
            r == self.canonical_as_mux(),
    {
        let (a, b, c) = self.lits();
        if a.is_constant() || b.is_constant() || c.is_constant() {
            return false;
        }
        if b == c {
            return false;
        }
        if a.pol() {
            return false;
        }
        if a.ind() == b.ind() || a.ind() == c.ind() {
            return false;
        }
        if c.pol() {
            return false;
        }
        if b.ind() == c.ind() {
            if a > b {
                return false;
            }
        }
        return true;
    }

    /// Whether the node is canonical as a majority.
    fn is_canonical_maj(&self) -> (r: bool)
        ensures
            r == self.canonical_as_maj(),
    {
        let (a, b, c) = self.lits();
        if a.ind() <= b.ind() || b.ind() <= c.ind() {
            return false;
        }
        if c == Lit::one() {
            return false;
        }
        return true;
    }

    /// Brings the And of two literals to canonical form.
    pub fn make_canonical_and(a: Lit, b: Lit) -> (r: NormalizationResult)
        requires
            !a.flag && !b.flag,
        ensures
            r == canonical_and(a, b),
            r.settled(),
            forall|env: spec_fn(u32) -> bool| #[trigger] r.eval(env) == (a.eval(env) && b.eval(env)),
    {
        proof {
            assert forall|env: spec_fn(u32) -> bool| #[trigger]
                canonical_and(a, b).eval(env) == (a.eval(env) && b.eval(env)) by {
                lemma_and(a, b, env);
            }
            lemma_and(a, b, |v: u32| false);
        }
        let (mx, mn) = sort_2_lits((a, b));
        if mn == Lit::zero() {
            return NormalizationResult::Literal(Lit::zero());
        }
        if mn == Lit::one() {
            return NormalizationResult::Literal(mx);
        }
        if mn == mx {
            return NormalizationResult::Literal(mn);
        }
        if mn == mx.not() {
            return NormalizationResult::Literal(Lit::zero());
        }
        NormalizationResult::PosNode(AigNode { a: mx, b: mn, c: Lit::zero() })
    }

    /// Brings the Or of two literals to canonical form.
    fn make_canonical_or(a: Lit, b: Lit) -> (r: NormalizationResult)
        requires
            !a.flag && !b.flag,
        ensures
            r == canonical_or(a, b),
    {
        AigNode::make_canonical_and(a.not(), b.not()).negate()
    }

    /// Brings the Xor of two literals to canonical form.
    pub fn make_canonical_xor(a: Lit, b: Lit) -> (r: NormalizationResult)
        requires
            !a.flag && !b.flag,
        ensures
            r == canonical_xor(a, b),
            r.settled(),
            forall|env: spec_fn(u32) -> bool| #[trigger] r.eval(env) == (a.eval(env) != b.eval(env)),
    {
        proof {
            assert forall|env: spec_fn(u32) -> bool| #[trigger]
                canonical_xor(a, b).eval(env) == (a.eval(env) != b.eval(env)) by {
                lemma_xor(a, b, env);
            }
            lemma_xor(a, b, |v: u32| false);
        }
        let (mx, mn) = sort_2_lits((a, b));
        if mn == Lit::zero() {
            return NormalizationResult::Literal(mx);
        }
        if mn == Lit::one() {
            return NormalizationResult::Literal(mx.not());
        }
        if mn == mx {
            return NormalizationResult::Literal(Lit::zero());
        }
        if mn == mx.not() {
            return NormalizationResult::Literal(Lit::one());
        }
        let pol = mn.pol() != mx.pol();
        let node = AigNode {
            a: mn.without_inversion().with_flag(),
            b: mx.without_inversion().not(),
            c: mx.without_inversion(),
        };
        if pol {
            NormalizationResult::NegNode(node)
        } else {
            NormalizationResult::PosNode(node)
        }
    }

    /// Brings a multiplexer whose selector is a variable, not inverted, to
    /// canonical form.
    fn make_canonical_mux_positive(s: Lit, a: Lit, b: Lit) -> (r: NormalizationResult)
        requires
            !s.flag && !a.flag && !b.flag,
        ensures
            r == canonical_mux_positive(s, a, b),
    {
        if a.ind() == b.ind() {
            AigNode::make_canonical_xor(s, b)
        } else if a == s {
            AigNode::make_canonical_or(s, b)
        } else if a == s.not() {
            AigNode::make_canonical_and(s.not(), b)
        } else if b == s {
            AigNode::make_canonical_and(s, a)
        } else if b == s.not() {
            AigNode::make_canonical_or(s.not(), a)
        } else if a == Lit::zero() {
            AigNode::make_canonical_and(s.not(), b)
        } else if a == Lit::one() {
            AigNode::make_canonical_or(s, b)
        } else if b == Lit::zero() {
            AigNode::make_canonical_and(s, a)
        } else if b == Lit::one() {
            AigNode::make_canonical_or(s.not(), a)
        } else if b.pol() {
            NormalizationResult::NegNode(AigNode { a: s.with_flag(), b: a.not(), c: b.not() })
        } else {
            NormalizationResult::PosNode(AigNode { a: s.with_flag(), b: a, c: b })
        }
    }

    /// Brings the multiplexer that selects `a` where `s` holds and `b`
    /// elsewhere to canonical form.
    pub fn make_canonical_mux(s: Lit, a: Lit, b: Lit) -> (r: NormalizationResult)
        requires
            !s.flag && !a.flag && !b.flag,
        ensures
            r == canonical_mux(s, a, b),
            r.settled(),
            forall|env: spec_fn(u32) -> bool| #[trigger]
                r.eval(env) == if s.eval(env) {
                    a.eval(env)
                } else {
                    b.eval(env)
                },
    {
        proof {
            assert forall|env: spec_fn(u32) -> bool| #[trigger]
                canonical_mux(s, a, b).eval(env) == if s.eval(env) {
                    a.eval(env)
                } else {
                    b.eval(env)
                } by {
                lemma_mux(s, a, b, env);
            }
            lemma_mux(s, a, b, |v: u32| false);
        }
        if s == Lit::zero() {
            return NormalizationResult::Literal(b);
        }
        if s == Lit::one() {
            return NormalizationResult::Literal(a);
        }
        if a == b {
            return NormalizationResult::Literal(a);
        }
        if s.pol() {
            AigNode::make_canonical_mux_positive(s.not(), b, a)
        } else {
            AigNode::make_canonical_mux_positive(s, a, b)
        }
    }

    /// Brings the majority of three literals to canonical form.
    pub fn make_canonical_maj(a: Lit, b: Lit, c: Lit) -> (r: NormalizationResult)
        requires
            !a.flag && !b.flag && !c.flag,
        ensures
            r == canonical_maj(a, b, c),
            r.settled(),
            forall|env: spec_fn(u32) -> bool| #[trigger]
                r.eval(env) == majority(a.eval(env), b.eval(env), c.eval(env)),
    {
        proof {
            assert forall|env: spec_fn(u32) -> bool| #[trigger]
                canonical_maj(a, b, c).eval(env) == majority(
                    a.eval(env),
                    b.eval(env),
                    c.eval(env),
                ) by {
                lemma_maj(a, b, c, env);
            }
            lemma_maj(a, b, c, |v: u32| false);
        }
        let (i2, i1, i0) = sort_3_lits((a, b, c));
        if i0.ind() == i1.ind() {
            if i0 == i1 {
                NormalizationResult::Literal(i0)
            } else {
                NormalizationResult::Literal(i2)
            }
        } else if i1.ind() == i2.ind() {
            if i1 == i2 {
                NormalizationResult::Literal(i1)
            } else {
                NormalizationResult::Literal(i0)
            }
        } else if i0 == Lit::one() {
            NormalizationResult::NegNode(AigNode { a: i2.not(), b: i1.not(), c: Lit::zero() })
        } else {
            NormalizationResult::PosNode(AigNode { a: i2, b: i1, c: i0 })
        }
    }

    /// Brings the node to canonical form: a literal where its function
    /// reduces to one, else a canonical node of its function or of the
    /// complement. A canonical node comes back as it is.
    pub fn make_canonical(&self) -> (r: NormalizationResult)
        ensures
            r == self.normalized(),
            r.settled(),
            forall|env: spec_fn(u32) -> bool| #[trigger] r.eval(env) == self.eval(env),
            self.canonical() ==> r == NormalizationResult::PosNode(*self),
    {
        proof {
            lemma_idempotent(*self);
        }
        if self.is_canonical() {
            return NormalizationResult::PosNode(*self);
        }
        let (a, b, c) = self.lits();
        match self.node_type() {
            NodeType::Mux => AigNode::make_canonical_mux(a, b, c),
            NodeType::Maj => AigNode::make_canonical_maj(a, b, c),
        }
    }

    /// The basic gate for which the node stands. The node is taken as it
    /// is: an And or a Xor that is not canonical may go unnoticed.
    pub fn as_gate(&self) -> (g: BasicGate)
        ensures
            g == self.gate(),
    {
        let (a, b, c) = self.lits();
        if self.a.flag() {
            if b == c.not() {
                BasicGate::Xor(a, c)
            } else {
                BasicGate::Mux(a, b, c)
            }
        } else if c == Lit::zero() {
            BasicGate::And(a, b)
        } else {
            BasicGate::Maj(a, b, c)
        }
    }

    /// The text of the node; see `text`.
    pub fn to_string(&self) -> (s: String)
        ensures
            s@ == self.text(),
    {
        proof {
            reveal_strlit("And(");
            reveal_strlit("Xor(");
            reveal_strlit("Mux(");
            reveal_strlit("Maj(");
            reveal_strlit(", ");
            reveal_strlit(")");
        }
        match self.as_gate() {
            BasicGate::And(a, b) => {
                let mut s = String::from_str("And(");
                s.append(a.to_string().as_str());
                s.append(", ");
                s.append(b.to_string().as_str());
                s.append(")");
                assert(s@ =~= self.text());
                s
            },
            BasicGate::Xor(a, b) => {
                let mut s = String::from_str("Xor(");
                s.append(a.to_string().as_str());
                s.append(", ");
                s.append(b.to_string().as_str());
                s.append(")");
                assert(s@ =~= self.text());
                s
            },
            BasicGate::Mux(a, b, c) => {
                let mut s = String::from_str("Mux(");
                s.append(a.to_string().as_str());
                s.append(", ");
                s.append(b.to_string().as_str());
                s.append(", ");
                s.append(c.to_string().as_str());
                s.append(")");
                assert(s@ =~= self.text());
                s
            },
            BasicGate::Maj(a, b, c) => {
                let mut s = String::from_str("Maj(");
                s.append(a.to_string().as_str());
                s.append(", ");
                s.append(b.to_string().as_str());
                s.append(", ");
                s.append(c.to_string().as_str());
                s.append(")");
                assert(s@ =~= self.text());
                s
            },
        }
    }
}

proof fn lemma_and(a: Lit, b: Lit, env: spec_fn(u32) -> bool)
    requires
        !a.flag && !b.flag,
    ensures
        canonical_and(a, b).settled(),
        canonical_and(a, b).eval(env) == (a.eval(env) && b.eval(env)),
        canonical_or(a, b).settled(),
        canonical_or(a, b).eval(env) == (a.eval(env) || b.eval(env)),
{
}

proof fn lemma_xor(a: Lit, b: Lit, env: spec_fn(u32) -> bool)
    requires
        !a.flag && !b.flag,
    ensures
        canonical_xor(a, b).settled(),
        canonical_xor(a, b).eval(env) == (a.eval(env) != b.eval(env)),
{
}

proof fn lemma_mux_positive(s: Lit, a: Lit, b: Lit, env: spec_fn(u32) -> bool)
    requires
        !s.flag && !a.flag && !b.flag,
        s.variable is Some,
        !s.inverted,
        a != b,
    ensures
        canonical_mux_positive(s, a, b).settled(),
        canonical_mux_positive(s, a, b).eval(env) == if s.eval(env) {
            a.eval(env)
        } else {
            b.eval(env)
        },
{
    lemma_xor(s, b, env);
    lemma_and(s, b, env);
    lemma_and(s.complement(), b, env);
    lemma_and(s, a, env);
    lemma_and(s.complement(), a, env);
}

proof fn lemma_mux(s: Lit, a: Lit, b: Lit, env: spec_fn(u32) -> bool)
    requires
        !s.flag && !a.flag && !b.flag,
    ensures
        canonical_mux(s, a, b).settled(),
        canonical_mux(s, a, b).eval(env) == if s.eval(env) {
            a.eval(env)
        } else {
            b.eval(env)
        },
{
    if s.variable is Some && a != b {
        if s.inverted {
            lemma_mux_positive(s.complement(), b, a, env);
        } else {
            lemma_mux_positive(s, a, b, env);
        }
    }
}

proof fn lemma_maj(a: Lit, b: Lit, c: Lit, env: spec_fn(u32) -> bool)
    requires
        !a.flag && !b.flag && !c.flag,
    ensures
        canonical_maj(a, b, c).settled(),
        canonical_maj(a, b, c).eval(env) == majority(a.eval(env), b.eval(env), c.eval(env)),
{
}

/// The canonical form of a node is settled and has the value of the node
/// under every assignment. A canonical node is its own canonical form.
pub proof fn lemma_idempotent(n: AigNode)
    ensures
        n.normalized().settled(),
        forall|env: spec_fn(u32) -> bool| #[trigger] n.normalized().eval(env) == n.eval(env),
        n.canonical() ==> n.normalized() == NormalizationResult::PosNode(n),
{
    let (a, b, c) = n.plain();
    if !n.canonical() {
        assert forall|env: spec_fn(u32) -> bool| #[trigger]
            n.normalized().eval(env) == n.eval(env) by {
            if n.a.flag {
                lemma_mux(a, b, c, env);
            } else {
                lemma_maj(a, b, c, env);
            }
        }
        if n.a.flag {
            lemma_mux(a, b, c, |v: u32| false);
        } else {
            lemma_maj(a, b, c, |v: u32| false);
        }
    }
}

} // verus!
