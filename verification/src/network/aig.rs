//! The logic network: gates addressed by their index, primary inputs and
//! outputs, with hash-consed construction.

use super::dedup::{lemma_dedup_size, lemma_deduped, settled, Progress};
use super::gates::{lemma_normalized_kind, Gate, GateKind, Normalization};
use super::preserve::{
    kept_whole, lemma_dedup_table_meaning, lemma_deduped_run, lemma_swept_hash_consed,
    lemma_swept_run, lemma_topo_order_whole,
};
use super::reach::mark_reachable;
use super::eval::lemma_with_gate_models;
use super::signal::{Signal, Valuation};
use super::topo::{acyclic, has_loop, is_topo_order, topological_order};
use super::view::{
    count_kind, extends, first_index, is_selection, lemma_consistent_closed, lemma_count_kind,
    lemma_count_kind_rest, lemma_first_index, lemma_remapped_depends, lemma_reordered_sorted,
    lemma_selected, lemma_swept, lemma_with_gate_hash_consed, lemma_with_gate_kept, selected,
    translation, AigView,
};
use core::ops::{BitXor, Not};
use std::collections::HashMap;
use vstd::prelude::*;

verus! {

/// The dependencies within the clock step form a loop, so that the nodes
/// have no topological order.
#[derive(Clone, Copy, Debug, PartialEq, Eq)]
pub struct CombinationalLoop {}

/// A signal of the network that refers to an input or a node that does
/// not exist.
#[derive(Clone, Copy, Debug, PartialEq, Eq)]
pub enum Inconsistency {
    /// The first node, by index, whose gate holds such a signal.
    Node(usize),
    /// The first output, by index, that is such a signal, where no gate
    /// holds one.
    Output(usize),
}

/// A logic network. The node of index `i` is what `gate(i)` returns, and
/// the value to which the signal `node(i)` refers. Inputs and nodes are
/// numbered in 32 bits: a network holds at most `u32::MAX` of each.
#[derive(Debug, Clone)]
pub struct Aig {
    nb_inputs: usize,
    nodes: Vec<Gate>,
    outputs: Vec<Signal>,
    /// For the key of each gate in `nodes`, the first index that holds it.
    index: HashMap<u128, u32>,
}

/// Whether a structural index suits a sequence of gates: it finds the key
/// of each gate, at the first node that holds it, and nothing else.
pub open spec fn index_matches(index: Map<u128, u32>, nodes: Seq<Gate>) -> bool {
    &&& forall|i: int|
        0 <= i < nodes.len() ==> index.contains_key((#[trigger] nodes[i]).spec_key())
    &&& forall|k: u128| #[trigger]
        index.contains_key(k) ==> {
            let i = index[k] as int;
            &&& i < nodes.len()
            &&& nodes[i].spec_key() == k
            &&& first_index(nodes, nodes[i]) == i
        }
}

/// Where an index suits a sequence of gates, looking a gate up by its key
/// finds its first node, and fails exactly where no node holds it.
pub proof fn lemma_index_lookup(index: Map<u128, u32>, nodes: Seq<Gate>, g: Gate)
    requires
        index_matches(index, nodes),
    ensures
        index.contains_key(g.spec_key()) <==> first_index(nodes, g) < nodes.len(),
        index.contains_key(g.spec_key()) ==> index[g.spec_key()] == first_index(nodes, g),
{
    let k = g.spec_key();
    lemma_first_index(nodes, g);
    if index.contains_key(k) {
        Gate::lemma_key_injective(nodes[index[k] as int], g);
    } else if first_index(nodes, g) < nodes.len() {
        assert(index.contains_key(nodes[first_index(nodes, g)].spec_key()));
    }
}

/// Records in the index a gate that is about to become node `i`.
fn index_add(index: &mut HashMap<u128, u32>, Ghost(nodes): Ghost<Seq<Gate>>, gate: Gate, i: u32)
    requires
        index_matches(old(index)@, nodes),
        i == nodes.len(),
    ensures
        index_matches(final(index)@, nodes.push(gate)),
{
    let k: u128 = gate.key();
    proof {
        lemma_index_lookup(index@, nodes, gate);
        lemma_first_index(nodes, gate);
        assert(nodes.push(gate).drop_last() =~= nodes);
        assert forall|j: int| 0 <= j < nodes.len() implies first_index(
            nodes.push(gate),
            #[trigger] nodes[j],
        ) == first_index(nodes, nodes[j]) by {
            lemma_first_index(nodes, nodes[j]);
        }
    }
    if !index.contains_key(&k) {
        index.insert(k, i);
    }
}

/// The structural index of a sequence of gates.
fn build_index(nodes: &Vec<Gate>) -> (index: HashMap<u128, u32>)
    requires
        nodes@.len() <= u32::MAX,
    ensures
        index_matches(index@, nodes@),
{
    let mut index: HashMap<u128, u32> = HashMap::new();
    let mut i: usize = 0;
    while i < nodes.len()
        invariant
            i <= nodes@.len(),
            nodes@.len() <= u32::MAX,
            index_matches(index@, nodes@.take(i as int)),
        decreases nodes@.len() - i,
    {
        proof {
            assert(nodes@.take(i as int).push(nodes@[i as int]) =~= nodes@.take(i + 1));
        }
        index_add(&mut index, Ghost(nodes@.take(i as int)), nodes[i], i as u32);
        i += 1;
    }
    proof {
        assert(nodes@.take(i as int) =~= nodes@);
    }
    index
}

impl View for Aig {
    type V = AigView;

    closed spec fn view(&self) -> AigView {
        AigView { nb_inputs: self.nb_inputs as nat, nodes: self.nodes@, outputs: self.outputs@ }
    }
}

impl Aig {
    /// The invariant of the representation: inputs and nodes are few
    /// enough to be numbered in 32 bits, and the structural index finds
    /// each gate that a node holds, at its first node.
    pub closed spec fn wf(&self) -> bool {
        &&& self.nb_inputs <= u32::MAX
        &&& self.nodes@.len() <= u32::MAX
        &&& index_matches(self.index@, self.nodes@)
    }

    /// A well-formed network numbers its inputs and nodes in 32 bits.
    pub proof fn lemma_wf_bounds(&self)
        requires
            self.wf(),
        ensures
            self@.nb_inputs <= u32::MAX,
            self@.nodes.len() <= u32::MAX,
    {
    }

    /// The empty network.
    pub fn new() -> (aig: Aig)
        ensures
            aig.wf(),
            aig@.nb_inputs == 0,
            aig@.nodes.len() == 0,
            aig@.outputs.len() == 0,
    {
        Aig { nb_inputs: 0, nodes: Vec::new(), outputs: Vec::new(), index: HashMap::new() }
    }

    /// The number of primary inputs.
    pub fn nb_inputs(&self) -> (n: usize)
        ensures
            n == self@.nb_inputs,
    {
        self.nb_inputs
    }

    /// The number of primary outputs.
    pub fn nb_outputs(&self) -> (n: usize)
        ensures
            n == self@.outputs.len(),
    {
        self.outputs.len()
    }

    /// The number of nodes.
    pub fn nb_nodes(&self) -> (n: usize)
        ensures
            n == self@.nodes.len(),
    {
        self.nodes.len()
    }

    /// The signal of primary input `i`.
    pub fn input(&self, i: usize) -> (s: Signal)
        requires
            self.wf(),
            i < self@.nb_inputs,
        ensures
            s == Signal::primary(i as u32),
            i as u32 == i,
    {
        Signal::from_input(i as u32)
    }

    /// The signal that drives primary output `i`.
    pub fn output(&self, i: usize) -> (s: Signal)
        requires
            i < self@.outputs.len(),
        ensures
            s == self@.outputs[i as int],
    {
        self.outputs[i]
    }

    /// The signal of node `i`.
    pub fn node(&self, i: usize) -> (s: Signal)
        requires
            i <= u32::MAX,
        ensures
            s == Signal::node(i as u32),
    {
        Signal::from_var(i as u32)
    }

    /// What node `i` holds.
    pub fn gate(&self, i: usize) -> (g: &Gate)
        requires
            i < self@.nodes.len(),
        ensures
            *g == self@.nodes[i as int],
    {
        &self.nodes[i]
    }

    /// The number of gates of a kind.
    pub fn nb_kind(&self, kind: GateKind) -> (n: usize)
        ensures
            n == count_kind(self@.nodes, kind),
    {
        let mut n: usize = 0;
        let mut i: usize = 0;
        while i < self.nodes.len()
            invariant
                i <= self.nodes@.len(),
                n <= i,
                n == count_kind(self.nodes@.take(i as int), kind),
            decreases self.nodes@.len() - i,
        {
            proof {
                assert(self.nodes@.take(i + 1).drop_last() =~= self.nodes@.take(i as int));
            }
            if self.nodes[i].kind() == kind {
                n += 1;
            }
            i += 1;
        }
        proof {
            assert(self.nodes@.take(i as int) =~= self.nodes@);
        }
        n
    }

    /// The number of And2 gates.
    pub fn nb_and(&self) -> (n: usize)
        ensures
            n == count_kind(self@.nodes, GateKind::And),
    {
        self.nb_kind(GateKind::And)
    }

    /// The number of Xor2 gates.
    pub fn nb_xor(&self) -> (n: usize)
        ensures
            n == count_kind(self@.nodes, GateKind::Xor),
    {
        self.nb_kind(GateKind::Xor)
    }

    /// The number of And3 gates.
    pub fn nb_and3(&self) -> (n: usize)
        ensures
            n == count_kind(self@.nodes, GateKind::And3),
    {
        self.nb_kind(GateKind::And3)
    }

    /// The number of Xor3 gates.
    pub fn nb_xor3(&self) -> (n: usize)
        ensures
            n == count_kind(self@.nodes, GateKind::Xor3),
    {
        self.nb_kind(GateKind::Xor3)
    }

    /// The number of Mux gates.
    pub fn nb_mux(&self) -> (n: usize)
        ensures
            n == count_kind(self@.nodes, GateKind::Mux),
    {
        self.nb_kind(GateKind::Mux)
    }

    /// The number of Maj gates.
    pub fn nb_maj(&self) -> (n: usize)
        ensures
            n == count_kind(self@.nodes, GateKind::Maj),
    {
        self.nb_kind(GateKind::Maj)
    }

    /// The number of flip-flops.
    pub fn nb_dff(&self) -> (n: usize)
        ensures
            n == count_kind(self@.nodes, GateKind::Dff),
    {
        self.nb_kind(GateKind::Dff)
    }

    /// Whether the network is combinational, that is, holds no flip-flop.
    pub fn is_comb(&self) -> (b: bool)
        ensures
            b == self@.comb(),
    {
        proof {
            lemma_count_kind(self@.nodes, GateKind::Dff);
            if self@.comb() {
                assert forall|i: int| 0 <= i < self@.nodes.len() implies (
                #[trigger] self@.nodes[i]).spec_kind() != GateKind::Dff by {
                    assert(!(self@.nodes[i] is Dff));
                }
            }
            if count_kind(self@.nodes, GateKind::Dff) == 0 {
                assert forall|i: int| 0 <= i < self@.nodes.len() implies !((
                #[trigger] self@.nodes[i]) is Dff) by {
                    assert(self@.nodes[i].spec_kind() != GateKind::Dff);
                }
            }
        }
        self.nb_dff() == 0
    }

    /// Builds the And of two signals.
    pub fn and(&mut self, a: Signal, b: Signal) -> (s: Signal)
        requires
            old(self).wf(),
            old(self)@.nodes.len() < u32::MAX,
        ensures
            final(self).wf(),
            final(self)@ == old(self)@.with_gate(Gate::And(a, b)),
            s == old(self)@.gate_signal(Gate::And(a, b)),
            old(self)@.hash_consed() ==> final(self)@.hash_consed(),
            forall|v: Valuation| #[trigger] final(self)@.models(v) ==> s.eval(v) == (a.eval(v) && b.eval(v)),
    {
        self.add_gate(Gate::And(a, b))
    }

    /// Builds the Or of two signals, as the complement of the And of their
    /// complements.
    pub fn or(&mut self, a: Signal, b: Signal) -> (s: Signal)
        requires
            old(self).wf(),
            old(self)@.nodes.len() < u32::MAX,
        ensures
            final(self).wf(),
            final(self)@ == old(self)@.with_gate(Gate::And(a.complement(), b.complement())),
            s == old(self)@.gate_signal(
                Gate::And(a.complement(), b.complement()),
            ).complement(),
            old(self)@.hash_consed() ==> final(self)@.hash_consed(),
            forall|v: Valuation| #[trigger] final(self)@.models(v) ==> s.eval(v) == (a.eval(v) || b.eval(v)),
    {
        self.and(a.not(), b.not()).not()
    }

    /// Builds the Xor of two signals.
    pub fn xor(&mut self, a: Signal, b: Signal) -> (s: Signal)
        requires
            old(self).wf(),
            old(self)@.nodes.len() < u32::MAX,
        ensures
            final(self).wf(),
            final(self)@ == old(self)@.with_gate(Gate::Xor(a, b)),
            s == old(self)@.gate_signal(Gate::Xor(a, b)),
            old(self)@.hash_consed() ==> final(self)@.hash_consed(),
            forall|v: Valuation| #[trigger] final(self)@.models(v) ==> s.eval(v) == (a.eval(v) != b.eval(v)),
    {
        self.add_gate(Gate::Xor(a, b))
    }

    /// Builds the And of three signals.
    pub fn and3(&mut self, a: Signal, b: Signal, c: Signal) -> (s: Signal)
        requires
            old(self).wf(),
            old(self)@.nodes.len() < u32::MAX,
        ensures
            final(self).wf(),
            final(self)@ == old(self)@.with_gate(Gate::And3(a, b, c)),
            s == old(self)@.gate_signal(Gate::And3(a, b, c)),
            old(self)@.hash_consed() ==> final(self)@.hash_consed(),
            forall|v: Valuation| #[trigger] final(self)@.models(v) ==> s.eval(v) == (a.eval(v) && b.eval(v) && c.eval(v)),
    {
        self.add_gate(Gate::And3(a, b, c))
    }

    /// Builds the Or of three signals, as the complement of the And of
    /// their complements.
    pub fn or3(&mut self, a: Signal, b: Signal, c: Signal) -> (s: Signal)
        requires
            old(self).wf(),
            old(self)@.nodes.len() < u32::MAX,
        ensures
            final(self).wf(),
            final(self)@ == old(self)@.with_gate(
                Gate::And3(a.complement(), b.complement(), c.complement()),
            ),
            s == old(self)@.gate_signal(
                Gate::And3(a.complement(), b.complement(), c.complement()),
            ).complement(),
            old(self)@.hash_consed() ==> final(self)@.hash_consed(),
            forall|v: Valuation| #[trigger] final(self)@.models(v) ==> s.eval(v) == (a.eval(v) || b.eval(v) || c.eval(v)),
    {
        self.and3(a.not(), b.not(), c.not()).not()
    }

    /// Builds the Xor of three signals.
    pub fn xor3(&mut self, a: Signal, b: Signal, c: Signal) -> (s: Signal)
        requires
            old(self).wf(),
            old(self)@.nodes.len() < u32::MAX,
        ensures
            final(self).wf(),
            final(self)@ == old(self)@.with_gate(Gate::Xor3(a, b, c)),
            s == old(self)@.gate_signal(Gate::Xor3(a, b, c)),
            old(self)@.hash_consed() ==> final(self)@.hash_consed(),
            forall|v: Valuation| #[trigger] final(self)@.models(v) ==> s.eval(v) == ((a.eval(v) != b.eval(v)) != c.eval(v)),
    {
        self.add_gate(Gate::Xor3(a, b, c))
    }

    /// Builds the multiplexer that selects `a` where `s` holds and `b`
    /// elsewhere.
    pub fn mux(&mut self, s: Signal, a: Signal, b: Signal) -> (r: Signal)
        requires
            old(self).wf(),
            old(self)@.nodes.len() < u32::MAX,
        ensures
            final(self).wf(),
            final(self)@ == old(self)@.with_gate(Gate::Mux(s, a, b)),
            r == old(self)@.gate_signal(Gate::Mux(s, a, b)),
            old(self)@.hash_consed() ==> final(self)@.hash_consed(),
            forall|v: Valuation| #[trigger] final(self)@.models(v) ==> r.eval(v) == if s.eval(v) {
                    a.eval(v)
                } else {
                    b.eval(v)
                },
    {
        self.add_gate(Gate::Mux(s, a, b))
    }

    /// Builds the majority of three signals.
    pub fn maj(&mut self, a: Signal, b: Signal, c: Signal) -> (s: Signal)
        requires
            old(self).wf(),
            old(self)@.nodes.len() < u32::MAX,
        ensures
            final(self).wf(),
            final(self)@ == old(self)@.with_gate(Gate::Maj(a, b, c)),
            s == old(self)@.gate_signal(Gate::Maj(a, b, c)),
            old(self)@.hash_consed() ==> final(self)@.hash_consed(),
            forall|v: Valuation| #[trigger] final(self)@.models(v) ==> s.eval(v) == ((a.eval(v) && b.eval(v)) || (a.eval(v) && c.eval(v)) || (b.eval(v)
                && c.eval(v))),
    {
        self.add_gate(Gate::Maj(a, b, c))
    }

    /// Builds a flip-flop with data, enable and reset.
    pub fn dff(&mut self, data: Signal, enable: Signal, reset: Signal) -> (s: Signal)
        requires
            old(self).wf(),
            old(self)@.nodes.len() < u32::MAX,
        ensures
            final(self).wf(),
            final(self)@ == old(self)@.with_gate(Gate::Dff(data, enable, reset)),
            s == old(self)@.gate_signal(Gate::Dff(data, enable, reset)),
            old(self)@.hash_consed() ==> final(self)@.hash_consed(),
    {
        self.add_gate(Gate::Dff(data, enable, reset))
    }

    /// Adds a primary input and returns its signal.
    pub fn add_input(&mut self) -> (s: Signal)
        requires
            old(self).wf(),
            old(self)@.nb_inputs < u32::MAX,
        ensures
            final(self).wf(),
            final(self)@ == (AigView { nb_inputs: old(self)@.nb_inputs + 1, ..old(self)@ }),
            s == Signal::primary(old(self)@.nb_inputs as u32),
    {
        self.nb_inputs += 1;
        Signal::from_input((self.nb_inputs - 1) as u32)
    }

    /// Adds `nb` primary inputs.
    pub fn add_inputs(&mut self, nb: usize)
        requires
            old(self).wf(),
            old(self)@.nb_inputs + nb <= u32::MAX,
        ensures
            final(self).wf(),
            final(self)@ == (AigView { nb_inputs: (old(self)@.nb_inputs + nb) as nat, ..old(self)@ }),
    {
        self.nb_inputs += nb;
    }

    /// Adds a primary output driven by `l`.
    pub fn add_output(&mut self, l: Signal)
        requires
            old(self).wf(),
        ensures
            final(self).wf(),
            final(self)@ == (AigView { outputs: old(self)@.outputs.push(l), ..old(self)@ }),
    {
        self.outputs.push(l)
    }

    /// Adds a node that holds `gate` as it is, neither brought to canonical
    /// form nor looked up, and returns its signal.
    pub fn add_raw_gate(&mut self, gate: Gate) -> (s: Signal)
        requires
            old(self).wf(),
            old(self)@.nodes.len() < u32::MAX,
        ensures
            final(self).wf(),
            final(self)@ == old(self)@.with_node(gate),
            s == Signal::node(old(self)@.nodes.len() as u32),
    {
        let i: u32 = self.nodes.len() as u32;
        index_add(&mut self.index, Ghost(self.nodes@), gate, i);
        self.nodes.push(gate);
        Signal::from_var(i)
    }

    /// Takes every output through a translation table.
    fn remap_outputs(&mut self, table: &Vec<Signal>)
        requires
            forall|j: int|
                0 <= j < old(self).outputs@.len() ==> (#[trigger] old(self).outputs@[j]).refers_below(
                    table@.len(),
                ),
        ensures
            final(self).nb_inputs == old(self).nb_inputs,
            final(self).nodes == old(self).nodes,
            final(self).index == old(self).index,
            final(self).outputs@ == Seq::new(
                old(self).outputs@.len(),
                |j: int| old(self).outputs@[j].remapped(table@),
            ),
    {
        let mut new_outputs: Vec<Signal> = Vec::new();
        let mut j: usize = 0;
        while j < self.outputs.len()
            invariant
                j <= self.outputs@.len(),
                forall|j: int|
                    0 <= j < self.outputs@.len() ==> (#[trigger] self.outputs@[j]).refers_below(
                        table@.len(),
                    ),
                new_outputs@ == Seq::new(j as nat, |j: int| self.outputs@[j].remapped(table@)),
            decreases self.outputs@.len() - j,
        {
            new_outputs.push(self.outputs[j].remap(table.as_slice()));
            assert(new_outputs@ =~= Seq::new(
                (j + 1) as nat,
                |j: int| self.outputs@[j].remapped(table@),
            ));
            j += 1;
        }
        self.outputs = new_outputs;
    }

    /// Reorders the nodes: node `k` becomes the old node `order[k]`, the
    /// nodes that `order` leaves out go, and gates and outputs are rewritten
    /// accordingly. Returns the translation table from the old nodes.
    fn remap(&mut self, order: &Vec<u32>) -> (table: Vec<Signal>)
        requires
            old(self).wf(),
            old(self)@.closed(),
            is_selection(order@, old(self)@.nodes.len()),
        ensures
            final(self).wf(),
            final(self)@ == old(self)@.reordered(order@),
            table@ == translation(order@, old(self)@.nodes.len()),
    {
        let n = self.nodes.len();
        let ghost before = self@;
        let mut table: Vec<Signal> = Vec::new();
        let mut i: usize = 0;
        while i < n
            invariant
                i <= n,
                table@ == Seq::new(i as nat, |i: int| Signal::constant(false)),
            decreases n - i,
        {
            table.push(Signal::zero());
            assert(table@ =~= Seq::new((i + 1) as nat, |i: int| Signal::constant(false)));
            i += 1;
        }
        assert(table@ =~= translation(order@.take(0), n as nat));
        let mut k: usize = 0;
        while k < order.len()
            invariant
                k <= order@.len(),
                order@.len() <= n <= u32::MAX,
                forall|k: int| 0 <= k < order@.len() ==> (#[trigger] order@[k]) < n,
                table@.len() == n,
                table@ == translation(order@.take(k as int), n as nat),
            decreases order@.len() - k,
        {
            proof {
                assert(order@.take(k + 1).drop_last() =~= order@.take(k as int));
            }
            table[order[k] as usize] = Signal::from_var(k as u32);
            k += 1;
        }
        assert(order@.take(k as int) =~= order@);

        let mut new_nodes: Vec<Gate> = Vec::new();
        let mut k: usize = 0;
        while k < order.len()
            invariant
                k <= order@.len(),
                order@.len() <= n <= u32::MAX,
                n == self.nodes@.len(),
                self@ == before,
                before.closed(),
                forall|k: int| 0 <= k < order@.len() ==> (#[trigger] order@[k]) < n,
                table@.len() == n,
                new_nodes@ == Seq::new(
                    k as nat,
                    |k: int| before.nodes[order@[k] as int].remapped(table@),
                ),
            decreases order@.len() - k,
        {
            let g = self.nodes[order[k] as usize].remap(table.as_slice());
            new_nodes.push(g);
            assert(new_nodes@ =~= Seq::new(
                (k + 1) as nat,
                |k: int| before.nodes[order@[k] as int].remapped(table@),
            ));
            k += 1;
        }
        self.index = build_index(&new_nodes);
        self.nodes = new_nodes;
        proof {
            assert forall|j: int| 0 <= j < self.outputs@.len() implies (
            #[trigger] self.outputs@[j]).refers_below(table@.len()) by {
                assert(before.outputs[j].refers_below(before.nodes.len()));
            }
        }
        self.remap_outputs(&table);
        assert(self@.nodes =~= before.reordered(order@).nodes);
        assert(self@.outputs =~= before.reordered(order@).outputs);
        table
    }

    /// Whether every node comes after the nodes on which it depends within
    /// the clock step. The operands of flip-flops are free.
    pub fn is_topo_sorted(&self) -> (b: bool)
        requires
            self.wf(),
        ensures
            b == self@.topo_sorted(),
    {
        let n = self.nodes.len();
        let mut i: usize = 0;
        while i < n
            invariant
                i <= n,
                n == self.nodes@.len(),
                n <= u32::MAX,
                forall|j: int, v: u32|
                    0 <= j < i && (#[trigger] self.nodes@[j].comb_depends_on(v)) ==> v < j,
            decreases n - i,
        {
            let vars = self.nodes[i].comb_vars();
            let mut k: usize = 0;
            while k < vars.len()
                invariant
                    k <= vars@.len(),
                    i < n,
                    n == self.nodes@.len(),
                    n <= u32::MAX,
                    forall|v: u32| vars@.contains(v) <==> self.nodes@[i as int].comb_depends_on(v),
                    forall|l: int| 0 <= l < k ==> (#[trigger] vars@[l]) < i,
                decreases vars@.len() - k,
            {
                if vars[k] >= i as u32 {
                    proof {
                        assert(vars@.contains(vars@[k as int]));
                        assert(self@.nodes[i as int].comb_depends_on(vars@[k as int]));
                    }
                    return false;
                }
                k += 1;
            }
            proof {
                assert forall|v: u32| self.nodes@[i as int].comb_depends_on(v) implies v < i by {
                    assert(vars@.contains(v));
                    let l = choose|l: int| 0 <= l < vars@.len() && vars@[l] == v;
                    assert(vars@[l] < i);
                }
            }
            i += 1;
        }
        true
    }

    /// Checks that every signal of the network refers to an input or a node
    /// that exists, and reports the first that does not: by node, then by
    /// output.
    pub fn check(&self) -> (r: Result<(), Inconsistency>)
        ensures
            r is Ok <==> self@.consistent(),
            r matches Err(Inconsistency::Node(i)) ==> i < self@.nodes.len() && !self@.nodes[i as int].in_range(
                self@.nb_inputs,
                self@.nodes.len(),
            ) && forall|j: int|
                0 <= j < i ==> (#[trigger] self@.nodes[j]).in_range(
                    self@.nb_inputs,
                    self@.nodes.len(),
                ),
            r matches Err(Inconsistency::Output(i)) ==> i < self@.outputs.len()
                && !self@.outputs[i as int].in_range(self@.nb_inputs, self@.nodes.len())
                && (forall|j: int|
                0 <= j < i ==> (#[trigger] self@.outputs[j]).in_range(
                    self@.nb_inputs,
                    self@.nodes.len(),
                )) && forall|j: int|
                0 <= j < self@.nodes.len() ==> (#[trigger] self@.nodes[j]).in_range(
                    self@.nb_inputs,
                    self@.nodes.len(),
                ),
    {
        let nb_inputs = self.nb_inputs;
        let nb_nodes = self.nodes.len();
        let mut i: usize = 0;
        while i < nb_nodes
            invariant
                i <= nb_nodes,
                nb_nodes == self@.nodes.len(),
                nb_inputs == self@.nb_inputs,
                self@.nodes == self.nodes@,
                forall|j: int|
                    0 <= j < i ==> (#[trigger] self@.nodes[j]).in_range(
                        nb_inputs as nat,
                        nb_nodes as nat,
                    ),
            decreases nb_nodes - i,
        {
            if !self.nodes[i].is_in_range(nb_inputs, nb_nodes) {
                return Err(Inconsistency::Node(i));
            }
            i += 1;
        }
        let mut j: usize = 0;
        while j < self.outputs.len()
            invariant
                j <= self.outputs@.len(),
                nb_nodes == self@.nodes.len(),
                nb_inputs == self@.nb_inputs,
                self@.outputs == self.outputs@,
                forall|j: int|
                    0 <= j < nb_nodes ==> (#[trigger] self@.nodes[j]).in_range(
                        nb_inputs as nat,
                        nb_nodes as nat,
                    ),
                forall|l: int|
                    0 <= l < j ==> (#[trigger] self@.outputs[l]).in_range(
                        nb_inputs as nat,
                        nb_nodes as nat,
                    ),
            decreases self.outputs@.len() - j,
        {
            if !self.outputs[j].is_in_range(nb_inputs, nb_nodes) {
                return Err(Inconsistency::Output(j));
            }
            j += 1;
        }
        Ok(())
    }

    /// Reorders the nodes so that each comes after the nodes on which it
    /// depends within the clock step; the operands of flip-flops are free.
    /// Returns the translation table from the old nodes, through which
    /// earlier signals are to be taken. Fails, and leaves the network as it
    /// is, exactly where these dependencies form a loop.
    pub fn topo_sort(&mut self) -> (r: Result<Vec<Signal>, CombinationalLoop>)
        requires
            old(self).wf(),
            old(self)@.closed(),
        ensures
            final(self).wf(),
            r is Ok <==> acyclic(old(self)@.nodes),
            r is Err <==> has_loop(old(self)@.nodes),
            r is Err ==> final(self)@ == old(self)@,
            r matches Ok(table) ==> exists|order: Seq<u32>|
                {
                    &&& is_topo_order(old(self)@.nodes, order)
                    &&& kept_whole(old(self)@, order)
                    &&& final(self)@ == old(self)@.reordered(order)
                    &&& table@ == translation(order, old(self)@.nodes.len())
                },
            r is Ok ==> final(self)@.topo_sorted(),
            r is Ok ==> final(self)@.closed(),
            r is Ok && old(self)@.consistent() ==> final(self)@.consistent(),
    {
        match topological_order(&self.nodes) {
            None => Err(CombinationalLoop {  }),
            Some(order) => {
                proof {
                    lemma_reordered_sorted(self@, order@);
                    lemma_topo_order_whole(self@, order@);
                }
                Ok(self.remap(&order))
            },
        }
    }

    /// Removes the nodes that no output reaches, through dependencies
    /// within the clock step or across steps. The other nodes keep their
    /// order. Returns the translation table from the old nodes: the new
    /// node for a node that stays, the constant 0 for one that goes. Earlier
    /// signals are to be taken through it. Every node that stays is
    /// reachable, canonical gates stay canonical and different, and a sorted
    /// network gives the outputs that it gave, at each step of every run.
    pub fn sweep(&mut self) -> (table: Vec<Signal>)
        requires
            old(self).wf(),
            old(self)@.closed(),
        ensures
            final(self).wf(),
            final(self)@ == old(self)@.swept(),
            table@ == translation(old(self)@.live_order(), old(self)@.nodes.len()),
            forall|v: u32|
                v < old(self)@.nodes.len() ==> (table@[v as int].kind is Node) == #[trigger] old(
                    self,
                )@.reachable(v),
            forall|v: u32|
                v < old(self)@.nodes.len() && !(#[trigger] old(self)@.reachable(v)) ==> table@[v as int]
                    == Signal::constant(false),
            forall|v: u32| v < final(self)@.nodes.len() ==> #[trigger] final(self)@.reachable(v),
            final(self)@.closed(),
            old(self)@.consistent() ==> final(self)@.consistent(),
            old(self)@.topo_sorted() ==> final(self)@.topo_sorted(),
            old(self)@.hash_consed() ==> final(self)@.hash_consed(),
            old(self)@.consistent() && old(self)@.topo_sorted() ==> forall|trace: Seq<Seq<bool>>|
                #[trigger] final(self)@.run(trace) == old(self)@.run(trace),
    {
        let visited = mark_reachable(&self.nodes, &self.outputs);
        let n = self.nodes.len();
        let ghost marks = Seq::new(self@.nodes.len(), |i: int| self@.reachable(i as u32));
        assert(visited@ =~= marks);
        let mut order: Vec<u32> = Vec::new();
        let mut i: usize = 0;
        while i < n
            invariant
                i <= n,
                n == visited@.len(),
                n <= u32::MAX,
                order@ == selected(visited@, i as nat),
            decreases n - i,
        {
            if visited[i] {
                order.push(i as u32);
            }
            i += 1;
        }
        proof {
            lemma_selected(marks, n as nat);
            lemma_swept(self@);
            if self@.hash_consed() {
                lemma_swept_hash_consed(self@);
            }
            if self@.consistent() && self@.topo_sorted() {
                assert forall|trace: Seq<Seq<bool>>| #[trigger]
                    self@.swept().run(trace) == self@.run(trace) by {
                    lemma_swept_run(self@, trace);
                }
            }
        }
        self.remap(&order)
    }

    /// Removes duplicate logic from a sorted network and makes every
    /// combinational gate canonical. The flip-flops are built first, with
    /// the operands that they have; then each combinational gate in turn,
    /// with its operands taken through the translation table so far; at last
    /// the operands of the flip-flops and the outputs are taken through the
    /// finished table. Returns that table, from the old nodes to the signals
    /// that stand for them. The network gives the outputs that it gave, at
    /// each step of every run, and the entry of each old node has the value
    /// that the node had.
    pub fn dedup(&mut self) -> (table: Vec<Signal>)
        requires
            old(self).wf(),
            old(self)@.consistent(),
            old(self)@.topo_sorted(),
        ensures
            final(self).wf(),
            final(self)@ == old(self)@.deduped(),
            table@ == old(self)@.dedup_table(),
            forall|i: int|
                0 <= i < table@.len() ==> (#[trigger] table@[i]).in_range(
                    final(self)@.nb_inputs,
                    final(self)@.nodes.len(),
                ),
            final(self)@.consistent(),
            final(self)@.topo_sorted(),
            final(self)@.dffs_first(),
            final(self)@.comb_hash_consed(),
            old(self)@.comb() ==> final(self)@.hash_consed(),
            forall|trace: Seq<Seq<bool>>|
                (forall|u: int|
                    0 <= u < trace.len() ==> (#[trigger] trace[u]).len() == old(self)@.nb_inputs)
                    ==> #[trigger] final(self)@.run(trace) == old(self)@.run(trace),
            forall|trace: Seq<Seq<bool>>, t: nat, i: int|
                (forall|u: int|
                    0 <= u < trace.len() ==> (#[trigger] trace[u]).len() == old(self)@.nb_inputs)
                    && t < trace.len() && 0 <= i < table@.len() ==> #[trigger] table@[i].eval(
                    final(self)@.valuation(trace[t as int], final(self)@.held_after(trace, t)),
                ) == old(self)@.valuation(
                    trace[t as int],
                    old(self)@.held_after(trace, t),
                ).nodes[i],
    {
        let n = self.nodes.len();
        let ghost before = self@;
        proof {
            lemma_deduped(before);
            lemma_consistent_closed(before);
            assert forall|trace: Seq<Seq<bool>>|
                (forall|u: int|
                    0 <= u < trace.len() ==> (#[trigger] trace[u]).len() == before.nb_inputs) implies #[trigger] before.deduped().run(
                trace,
            ) == before.run(trace) by {
                lemma_deduped_run(before, trace);
            }
            assert forall|trace: Seq<Seq<bool>>, t: nat, i: int|
                (forall|u: int|
                    0 <= u < trace.len() ==> (#[trigger] trace[u]).len() == before.nb_inputs)
                    && t < trace.len() && 0 <= i < before.nodes.len() implies #[trigger] before.dedup_table()[i].eval(
                before.deduped().valuation(trace[t as int], before.deduped().held_after(trace, t)),
            ) == before.valuation(trace[t as int], before.held_after(trace, t)).nodes[i] by {
                lemma_dedup_table_meaning(before, trace, t, i);
            }
        }
        let mut table: Vec<Signal> = Vec::new();
        let mut i: usize = 0;
        while i < n
            invariant
                i <= n,
                n <= u32::MAX,
                table@ == Seq::new(i as nat, |i: int| Signal::node(i as u32)),
            decreases n - i,
        {
            table.push(Signal::from_var(i as u32));
            assert(table@ =~= Seq::new((i + 1) as nat, |i: int| Signal::node(i as u32)));
            i += 1;
        }
        let mut scratch = Aig::new();
        scratch.add_inputs(self.nb_inputs);
        assert(scratch@.nodes =~= Seq::empty());
        assert(scratch@.outputs =~= Seq::empty());
        let mut i: usize = 0;
        while i < n
            invariant
                i <= n,
                n <= u32::MAX,
                n == self.nodes@.len(),
                self@ == before,
                before.closed(),
                scratch.wf(),
                table@.len() == n,
                (Progress { net: scratch@, table: table@ }) == before.dedup_dffs(i as nat),
                scratch@.nodes.len() <= i,
                forall|k: int|
                    0 <= k < scratch@.nodes.len() ==> (#[trigger] scratch@.nodes[k]).refers_below(
                        n as nat,
                    ) && scratch@.nodes[k] is Dff,
            decreases n - i,
        {
            let g = self.nodes[i];
            if !g.is_comb() {
                let ghost net = scratch@;
                let s = scratch.add_gate(g);
                table[i] = s;
                proof {
                    lemma_normalized_kind(g);
                    assert(before.nodes[i as int].refers_below(n as nat));
                    lemma_first_index(net.nodes, g);
                }
            }
            i += 1;
        }
        let ghost dffs = count_kind(before.nodes, GateKind::Dff);
        let mut i: usize = 0;
        proof {
            lemma_dedup_size(before, n as nat);
            assert(before.nodes.take(n as int) =~= before.nodes);
            assert(before.nodes.take(0) =~= Seq::empty());
            assert(scratch@ == before.dedup_dffs(n as nat).net);
        }
        while i < n
            invariant
                i <= n,
                n <= u32::MAX,
                n == self.nodes@.len(),
                self@ == before,
                before.closed(),
                scratch.wf(),
                table@.len() == n,
                dffs == count_kind(before.nodes, GateKind::Dff),
                (Progress { net: scratch@, table: table@ }) == before.dedup_combs(i as nat),
                scratch@.nodes.len() + count_kind(before.nodes.take(i as int), GateKind::Dff) <= dffs
                    + i,
                forall|k: int|
                    0 <= k < scratch@.nodes.len() && (#[trigger] scratch@.nodes[k]) is Dff
                        ==> scratch@.nodes[k].refers_below(n as nat),
            decreases n - i,
        {
            proof {
                assert(before.nodes[i as int].refers_below(n as nat));
                lemma_remapped_depends(before.nodes[i as int], table@, 0);
                lemma_count_kind_rest(before.nodes, GateKind::Dff, i as int);
                lemma_count_kind_rest(before.nodes, GateKind::Dff, i + 1);
                assert(before.nodes.take(i + 1).drop_last() =~= before.nodes.take(i as int));
            }
            let g = self.nodes[i].remap(table.as_slice());
            if g.is_comb() {
                let ghost net = scratch@;
                let s = scratch.add_gate(g);
                table[i] = s;
                proof {
                    lemma_normalized_kind(g);
                    lemma_first_index(net.nodes, g);
                }
            }
            i += 1;
        }
        let mut new_nodes: Vec<Gate> = Vec::new();
        let mut k: usize = 0;
        while k < scratch.nodes.len()
            invariant
                k <= scratch.nodes@.len(),
                table@.len() == n,
                forall|k: int|
                    0 <= k < scratch.nodes@.len() && (#[trigger] scratch.nodes@[k]) is Dff
                        ==> scratch.nodes@[k].refers_below(n as nat),
                new_nodes@ == Seq::new(k as nat, |k: int| settled(scratch.nodes@[k], table@)),
            decreases scratch.nodes@.len() - k,
        {
            let g = scratch.nodes[k];
            if g.is_comb() {
                new_nodes.push(g);
            } else {
                new_nodes.push(g.remap(table.as_slice()));
            }
            assert(new_nodes@ =~= Seq::new(
                (k + 1) as nat,
                |k: int| settled(scratch.nodes@[k], table@),
            ));
            k += 1;
        }
        self.index = build_index(&new_nodes);
        self.nodes = new_nodes;
        proof {
            assert forall|j: int| 0 <= j < self.outputs@.len() implies (
            #[trigger] self.outputs@[j]).refers_below(table@.len()) by {
                assert(before.outputs[j].refers_below(before.nodes.len()));
            }
        }
        self.remap_outputs(&table);
        assert(self@.nodes =~= before.deduped().nodes);
        assert(self@.outputs =~= before.deduped().outputs);
        table
    }

    /// Builds `gate` in the network, brought to canonical form and shared
    /// with the node that already holds that form if there is one, and
    /// returns the signal that stands for it. A network in which every gate
    /// is canonical and no two nodes hold the same gate stays so. Every
    /// node that was there keeps its index and its gate. Wherever
    /// each node has the value of its gate, the signal has the value of
    /// `gate`.
    pub fn add_gate(&mut self, gate: Gate) -> (s: Signal)
        requires
            old(self).wf(),
            old(self)@.nodes.len() < u32::MAX,
        ensures
            final(self).wf(),
            final(self)@ == old(self)@.with_gate(gate),
            s == old(self)@.gate_signal(gate),
            old(self)@.hash_consed() ==> final(self)@.hash_consed(),
            !(gate is Dff) ==> forall|v: Valuation| #[trigger]
                final(self)@.models(v) ==> s.eval(v) == gate.eval(v, false),
            extends(final(self)@.nodes, old(self)@.nodes),
            final(self)@.nodes.len() <= old(self)@.nodes.len() + 1,
            final(self)@.nb_inputs == old(self)@.nb_inputs,
            final(self)@.outputs == old(self)@.outputs,
    {
        proof {
            lemma_with_gate_kept(self@, gate);
            if self@.hash_consed() {
                lemma_with_gate_hash_consed(self@, gate);
            }
            if !(gate is Dff) {
                assert forall|v: Valuation| #[trigger]
                    self@.with_gate(gate).models(v) implies self@.gate_signal(gate).eval(v)
                    == gate.eval(v, false) by {
                    lemma_with_gate_models(self@, gate, v);
                }
            }
        }
        match gate.make_canonical() {
            Normalization::Buf(l) => l,
            Normalization::Node(g, inv) => {
                let k: u128 = g.key();
                proof {
                    lemma_index_lookup(self.index@, self.nodes@, g);
                }
                let found: Option<u32> = match self.index.get(&k) {
                    Some(i) => Some(*i),
                    None => None,
                };
                match found {
                    Some(i) => Signal::from_var(i).bitxor(inv),
                    None => self.add_raw_gate(g).bitxor(inv),
                }
            },
        }
    }
}

impl Default for Aig {
    fn default() -> (aig: Aig)
        ensures
            aig.wf(),
            aig@.nb_inputs == 0,
            aig@.nodes.len() == 0,
            aig@.outputs.len() == 0,
    {
        Aig::new()
    }
}
} // verus!
