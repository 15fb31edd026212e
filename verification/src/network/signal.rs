//! Signals: references to a circuit value, with a polarity.

use vstd::prelude::*;

verus! {

/// What a signal refers to, polarity left aside.
#[derive(Clone, Copy, Debug, PartialEq, Eq, Hash, PartialOrd, Ord, Structural)]
pub enum SignalKind {
    /// The constant; non-inverted it is 0, inverted it is 1.
    Constant,
    /// A primary input of the network.
    Input(u32),
    /// The output of a node of the network.
    Node(u32),
}

/// Values of the primary inputs and of the nodes, against which signals and
/// gates are evaluated in specifications.
pub struct Valuation {
    pub inputs: Seq<bool>,
    pub nodes: Seq<bool>,
}

/// A reference to a circuit value: a constant, a primary input or a node,
/// possibly inverted. Every pair of a kind and a polarity is a signal.
#[derive(Clone, Copy, Debug, PartialEq, Eq, Hash, Ord, Structural)]
pub struct Signal {
    pub kind: SignalKind,
    pub inverted: bool,
}

impl SignalKind {
    /// Whether what is referred to exists in a network with `nb_inputs`
    /// primary inputs and `nb_nodes` nodes.
    pub open spec fn in_range(self, nb_inputs: nat, nb_nodes: nat) -> bool {
        match self {
            SignalKind::Constant => true,
            SignalKind::Input(i) => i < nb_inputs,
            SignalKind::Node(i) => i < nb_nodes,
        }
    }

    /// Position of the referenced value in the total order: the constant
    /// first, then the inputs by index, then the nodes by index.
    pub open spec fn ord(self) -> int {
        match self {
            SignalKind::Constant => 0,
            SignalKind::Input(i) => 1 + i,
            SignalKind::Node(i) => 1 + 0x1_0000_0000 + i,
        }
    }
}

impl Signal {
    /// The constant of a given truth value.
    pub open spec fn constant(value: bool) -> Signal {
        Signal { kind: SignalKind::Constant, inverted: value }
    }

    /// The non-inverted signal of node `v`.
    pub open spec fn node(v: u32) -> Signal {
        Signal { kind: SignalKind::Node(v), inverted: false }
    }

    /// The non-inverted signal of primary input `v`.
    pub open spec fn primary(v: u32) -> Signal {
        Signal { kind: SignalKind::Input(v), inverted: false }
    }

    /// Position of the referenced value in the total order, polarity ignored.
    pub open spec fn ord(self) -> int {
        self.kind.ord()
    }

    /// Position of the signal in the total order: by referenced value, the
    /// non-inverted signal before the inverted one.
    pub open spec fn rank(self) -> int {
        2 * self.kind.ord() + if self.inverted { 1int } else { 0int }
    }

    /// The same reference with the opposite polarity.
    pub open spec fn complement(self) -> Signal {
        Signal { kind: self.kind, inverted: !self.inverted }
    }

    /// The same reference, inverted once more when `inv` holds.
    pub open spec fn flip(self, inv: bool) -> Signal {
        Signal { kind: self.kind, inverted: self.inverted != inv }
    }

    /// The same reference, non-inverted.
    pub open spec fn positive(self) -> Signal {
        Signal { kind: self.kind, inverted: false }
    }

    /// The truth value of the signal under a valuation.
    pub open spec fn eval(self, v: Valuation) -> bool {
        let base = match self.kind {
            SignalKind::Constant => false,
            SignalKind::Input(i) => v.inputs[i as int],
            SignalKind::Node(i) => v.nodes[i as int],
        };
        base != self.inverted
    }

    /// Whether the signal refers to something that exists in a network with
    /// `nb_inputs` primary inputs and `nb_nodes` nodes.
    pub open spec fn in_range(self, nb_inputs: nat, nb_nodes: nat) -> bool {
        self.kind.in_range(nb_inputs, nb_nodes)
    }

    /// Whether the signal refers to no node, or to one with an index below
    /// `nb_nodes`.
    pub open spec fn refers_below(self, nb_nodes: nat) -> bool {
        self.kind matches SignalKind::Node(i) ==> i < nb_nodes
    }

    /// The signal through a translation table: a node signal becomes the
    /// table's entry for its node, with the polarity carried over; any other
    /// signal stays.
    pub open spec fn remapped(self, table: Seq<Signal>) -> Signal {
        match self.kind {
            SignalKind::Node(i) => table[i as int].flip(self.inverted),
            _ => self,
        }
    }

    /// The signal in a copy of its network: a node signal becomes the
    /// table's entry for its node, with the polarity carried over; an input
    /// signal moves up by `offset` inputs; a constant stays.
    pub open spec fn instantiated(self, table: Seq<Signal>, offset: nat) -> Signal {
        match self.kind {
            SignalKind::Constant => self,
            SignalKind::Input(k) => Signal {
                kind: SignalKind::Input((offset + k) as u32),
                inverted: self.inverted,
            },
            SignalKind::Node(i) => table[i as int].flip(self.inverted),
        }
    }

    /// The constant 0.
    #[verifier::when_used_as_spec(spec_zero)]
    pub fn zero() -> (s: Signal)
        ensures
            s == Signal::constant(false),
    {
        Signal { kind: SignalKind::Constant, inverted: false }
    }

    pub open spec fn spec_zero() -> Signal {
        Signal::constant(false)
    }

    /// The constant 1.
    #[verifier::when_used_as_spec(spec_one)]
    pub fn one() -> (s: Signal)
        ensures
            s == Signal::constant(true),
    {
        Signal { kind: SignalKind::Constant, inverted: true }
    }

    pub open spec fn spec_one() -> Signal {
        Signal::constant(true)
    }

    /// The non-inverted signal of node `v`.
    pub fn from_var(v: u32) -> (s: Signal)
        ensures
            s == Signal::node(v),
    {
        Signal { kind: SignalKind::Node(v), inverted: false }
    }

    /// The non-inverted signal of primary input `v`.
    pub fn from_input(v: u32) -> (s: Signal)
        ensures
            s == Signal::primary(v),
    {
        Signal { kind: SignalKind::Input(v), inverted: false }
    }

    /// Whether the signal is one of the two constants.
    pub fn is_constant(&self) -> (b: bool)
        ensures
            b == (self.kind == SignalKind::Constant),
    {
        match self.kind {
            SignalKind::Constant => true,
            _ => false,
        }
    }

    /// Whether the signal refers to a primary input.
    pub fn is_input(&self) -> (b: bool)
        ensures
            b == (self.kind is Input),
    {
        match self.kind {
            SignalKind::Input(_) => true,
            _ => false,
        }
    }

    /// Whether the signal refers to a node.
    pub fn is_var(&self) -> (b: bool)
        ensures
            b == (self.kind is Node),
    {
        match self.kind {
            SignalKind::Node(_) => true,
            _ => false,
        }
    }

    /// The index of the node that the signal refers to.
    pub fn var(&self) -> (v: u32)
        requires
            self.kind is Node,
        ensures
            self.kind == SignalKind::Node(v),
    {
        match self.kind {
            SignalKind::Node(v) => v,
            _ => 0,
        }
    }

    /// The index of the primary input that the signal refers to.
    pub fn input(&self) -> (v: u32)
        requires
            self.kind is Input,
        ensures
            self.kind == SignalKind::Input(v),
    {
        match self.kind {
            SignalKind::Input(v) => v,
            _ => 0,
        }
    }

    /// Position of the referenced value in the total order, polarity ignored.
    pub fn ind(&self) -> (r: u64)
        ensures
            r == self.ord(),
    {
        match self.kind {
            SignalKind::Constant => 0,
            SignalKind::Input(i) => 1 + i as u64,
            SignalKind::Node(i) => 0x1_0000_0001 + i as u64,
        }
    }

    /// Position of the signal in the total order.
    pub fn raw(&self) -> (r: u64)
        ensures
            r == self.rank(),
    {
        let base: u64 = 2 * self.ind();
        if self.inverted {
            base + 1
        } else {
            base
        }
    }

    /// Whether the signal is inverted.
    pub fn is_inverted(&self) -> (b: bool)
        ensures
            b == self.inverted,
    {
        self.inverted
    }

    /// Whether the signal is inverted.
    pub fn pol(&self) -> (b: bool)
        ensures
            b == self.inverted,
    {
        self.inverted
    }

    /// The same reference, non-inverted.
    pub fn without_inversion(&self) -> (s: Signal)
        ensures
            s == self.positive(),
    {
        Signal { kind: self.kind, inverted: false }
    }

    /// Whether the signal refers to something that exists in a network with
    /// `nb_inputs` primary inputs and `nb_nodes` nodes.
    pub fn is_in_range(&self, nb_inputs: usize, nb_nodes: usize) -> (b: bool)
        ensures
            b == self.in_range(nb_inputs as nat, nb_nodes as nat),
    {
        match self.kind {
            SignalKind::Constant => true,
            SignalKind::Input(i) => (i as usize) < nb_inputs,
            SignalKind::Node(i) => (i as usize) < nb_nodes,
        }
    }

    /// The signal through a translation table.
    pub fn remap(&self, table: &[Signal]) -> (s: Signal)
        requires
            self.refers_below(table@.len()),
        ensures
            s == self.remapped(table@),
    {
        match self.kind {
            SignalKind::Node(i) => {
                let t = table[i as usize];
                Signal { kind: t.kind, inverted: t.inverted != self.inverted }
            },
            _ => *self,
        }
    }

    /// The signal in a copy of its network; see `instantiated`.
    pub fn instantiate(&self, table: &[Signal], offset: u32) -> (s: Signal)
        requires
            self.refers_below(table@.len()),
            self.kind matches SignalKind::Input(k) ==> offset + k <= u32::MAX,
        ensures
            s == self.instantiated(table@, offset as nat),
    {
        match self.kind {
            SignalKind::Constant => *self,
            SignalKind::Input(k) => Signal {
                kind: SignalKind::Input(offset + k),
                inverted: self.inverted,
            },
            SignalKind::Node(i) => {
                let t = table[i as usize];
                Signal { kind: t.kind, inverted: t.inverted != self.inverted }
            },
        }
    }

    /// Two signals are equal exactly when their positions in the order are.
    pub proof fn lemma_rank_injective(a: Signal, b: Signal)
        ensures
            a.rank() == b.rank() <==> a == b,
            a.ord() == b.ord() <==> a.kind == b.kind,
    {
    }
}

impl core::ops::Not for Signal {
    type Output = Signal;

    fn not(self) -> (r: Signal) {
        Signal { kind: self.kind, inverted: !self.inverted }
    }
}

impl vstd::std_specs::ops::NotSpecImpl for Signal {
    open spec fn obeys_not_spec() -> bool {
        true
    }

    open spec fn not_req(self) -> bool {
        true
    }

    open spec fn not_spec(self) -> Signal {
        self.complement()
    }
}

impl core::ops::BitXor<bool> for Signal {
    type Output = Signal;

    fn bitxor(self, rhs: bool) -> (r: Signal) {
        Signal { kind: self.kind, inverted: self.inverted != rhs }
    }
}

impl vstd::std_specs::ops::BitXorSpecImpl<bool> for Signal {
    open spec fn obeys_bitxor_spec() -> bool {
        true
    }

    open spec fn bitxor_req(self, rhs: bool) -> bool {
        true
    }

    open spec fn bitxor_spec(self, rhs: bool) -> Signal {
        self.flip(rhs)
    }
}

} // verus!
