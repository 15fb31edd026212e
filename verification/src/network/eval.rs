//! What a network computes: the values of its nodes and outputs, step
//! after step.

use super::aig::Aig;
use super::gates::{lemma_normalized_kind, lemma_normalized_preserves_function, Normalization};
use super::view::{first_index, lemma_first_index, AigView};
use super::gates::Gate;
use super::signal::{Signal, SignalKind, Valuation};
use vstd::prelude::*;

verus! {

/// The values of the first `upto` nodes of a sorted network within a clock
/// step: that of a flip-flop is what it holds, that of any other gate
/// follows from the inputs and the nodes before it.
pub open spec fn node_values(nodes: Seq<Gate>, inputs: Seq<bool>, held: Seq<bool>, upto: nat) -> Seq<
    bool,
>
    decreases upto,
{
    if upto == 0 {
        Seq::empty()
    } else {
        let before = node_values(nodes, inputs, held, (upto - 1) as nat);
        let g = nodes[upto - 1];
        before.push(
            if g is Dff {
                held[upto - 1]
            } else {
                g.eval(Valuation { inputs, nodes: before }, false)
            },
        )
    }
}

impl AigView {
    /// The values of the inputs and of all nodes within a clock step.
    pub open spec fn valuation(self, inputs: Seq<bool>, held: Seq<bool>) -> Valuation {
        Valuation { inputs, nodes: node_values(self.nodes, inputs, held, self.nodes.len()) }
    }

    /// The values of the outputs within a clock step.
    pub open spec fn output_values(self, inputs: Seq<bool>, held: Seq<bool>) -> Seq<bool> {
        Seq::new(
            self.outputs.len(),
            |j: int| self.outputs[j].eval(self.valuation(inputs, held)),
        )
    }

    /// What the nodes hold after a clock step: a flip-flop what its gate
    /// makes of the values of the step and of what it held; any other node
    /// nothing, written as 0.
    pub open spec fn next_held(self, inputs: Seq<bool>, held: Seq<bool>) -> Seq<bool> {
        Seq::new(
            self.nodes.len(),
            |i: int|
                if self.nodes[i] is Dff {
                    self.nodes[i].eval(self.valuation(inputs, held), held[i])
                } else {
                    false
                },
        )
    }

    /// What the nodes hold after the first `t` steps of a run on `trace`,
    /// which gives the inputs of each step: 0 before the first step.
    pub open spec fn held_after(self, trace: Seq<Seq<bool>>, t: nat) -> Seq<bool>
        decreases t,
    {
        if t == 0 {
            Seq::new(self.nodes.len(), |i: int| false)
        } else {
            self.next_held(trace[t - 1], self.held_after(trace, (t - 1) as nat))
        }
    }

    /// The values of the outputs at step `t` of a run on `trace`.
    pub open spec fn outputs_at(self, trace: Seq<Seq<bool>>, t: nat) -> Seq<bool> {
        self.output_values(trace[t as int], self.held_after(trace, t))
    }

    /// The values of the outputs at each step of a run on `trace`.
    pub open spec fn run(self, trace: Seq<Seq<bool>>) -> Seq<Seq<bool>> {
        Seq::new(trace.len(), |t: int| self.outputs_at(trace, t as nat))
    }
}

/// The sequences held by a vector of vectors.
pub open spec fn trace_view(trace: Seq<Vec<bool>>) -> Seq<Seq<bool>> {
    Seq::new(trace.len(), |t: int| trace[t]@)
}

impl Signal {
    /// The truth value of the signal, given the values of the inputs and of
    /// the nodes.
    pub fn compute(&self, inputs: &Vec<bool>, nodes: &Vec<bool>) -> (b: bool)
        requires
            self.in_range(inputs@.len(), nodes@.len()),
        ensures
            b == self.eval(Valuation { inputs: inputs@, nodes: nodes@ }),
    {
        let base = match self.kind {
            SignalKind::Constant => false,
            SignalKind::Input(i) => inputs[i as usize],
            SignalKind::Node(i) => nodes[i as usize],
        };
        base != self.inverted
    }
}

impl Gate {
    /// The value of this gate, given the values of the inputs and of the
    /// nodes, and for a flip-flop what it holds; see `eval`.
    pub fn compute(&self, inputs: &Vec<bool>, nodes: &Vec<bool>, held: bool) -> (b: bool)
        requires
            self.in_range(inputs@.len(), nodes@.len()),
        ensures
            b == self.eval(Valuation { inputs: inputs@, nodes: nodes@ }, held),
    {
        match self {
            Gate::And(a, b) => a.compute(inputs, nodes) && b.compute(inputs, nodes),
            Gate::Xor(a, b) => a.compute(inputs, nodes) != b.compute(inputs, nodes),
            Gate::And3(a, b, c) => a.compute(inputs, nodes) && b.compute(inputs, nodes)
                && c.compute(inputs, nodes),
            Gate::Xor3(a, b, c) => (a.compute(inputs, nodes) != b.compute(inputs, nodes))
                != c.compute(inputs, nodes),
            Gate::Mux(s, a, b) => if s.compute(inputs, nodes) {
                a.compute(inputs, nodes)
            } else {
                b.compute(inputs, nodes)
            },
            Gate::Maj(a, b, c) => {
                let x = a.compute(inputs, nodes);
                let y = b.compute(inputs, nodes);
                let z = c.compute(inputs, nodes);
                (x && y) || (x && z) || (y && z)
            },
            Gate::Dff(d, en, res) => if res.compute(inputs, nodes) {
                false
            } else if en.compute(inputs, nodes) {
                d.compute(inputs, nodes)
            } else {
                held
            },
        }
    }
}

/// A combinational gate of a sorted network refers to nodes before it.
pub proof fn lemma_sorted_gate(net: AigView, i: int)
    requires
        net.consistent(),
        net.topo_sorted(),
        0 <= i < net.nodes.len(),
        !(net.nodes[i] is Dff),
    ensures
        net.nodes[i].in_range(net.nb_inputs, i as nat),
{
    let g = net.nodes[i];
    assert(g.in_range(net.nb_inputs, net.nodes.len()));
    let ops = g.operands();
    assert forall|k: int| 0 <= k < ops.len() implies (#[trigger] ops[k]).in_range(
        net.nb_inputs,
        i as nat,
    ) by {
        if let SignalKind::Node(w) = ops[k].kind {
            assert(g.comb_depends_on(w));
        }
    }
    assert(ops[0].in_range(net.nb_inputs, i as nat));
    assert(ops[1].in_range(net.nb_inputs, i as nat));
    if ops.len() == 3 {
        assert(ops[2].in_range(net.nb_inputs, i as nat));
    }
}

impl Aig {
    /// The values of all nodes within a clock step, given the inputs and
    /// what the flip-flops hold.
    pub fn node_values(&self, inputs: &Vec<bool>, held: &Vec<bool>) -> (values: Vec<bool>)
        requires
            self.wf(),
            self@.consistent(),
            self@.topo_sorted(),
            inputs@.len() == self@.nb_inputs,
            held@.len() == self@.nodes.len(),
        ensures
            values@ == self@.valuation(inputs@, held@).nodes,
            values@.len() == self@.nodes.len(),
    {
        let n = self.nb_nodes();
        let mut values: Vec<bool> = Vec::new();
        let mut i: usize = 0;
        while i < n
            invariant
                i <= n,
                n == self@.nodes.len(),
                self@.consistent(),
                self@.topo_sorted(),
                inputs@.len() == self@.nb_inputs,
                held@.len() == n,
                values@ == node_values(self@.nodes, inputs@, held@, i as nat),
                values@.len() == i,
            decreases n - i,
        {
            let g = self.gate(i);
            if g.is_comb() {
                proof {
                    lemma_sorted_gate(self@, i as int);
                }
                let v = g.compute(inputs, &values, false);
                values.push(v);
            } else {
                values.push(held[i]);
            }
            i += 1;
        }
        values
    }

    /// Runs the network on `trace`, which gives the inputs of each clock
    /// step, from the state in which every flip-flop holds 0, and returns
    /// the values of the outputs at each step.
    pub fn simulate(&self, trace: &Vec<Vec<bool>>) -> (r: Vec<Vec<bool>>)
        requires
            self.wf(),
            self@.consistent(),
            self@.topo_sorted(),
            forall|t: int| 0 <= t < trace@.len() ==> (#[trigger] trace@[t])@.len() == self@.nb_inputs,
        ensures
            trace_view(r@) == self@.run(trace_view(trace@)),
    {
        let n = self.nb_nodes();
        let ghost steps = trace_view(trace@);
        let mut held: Vec<bool> = Vec::new();
        let mut i: usize = 0;
        while i < n
            invariant
                i <= n,
                held@ == Seq::new(i as nat, |i: int| false),
            decreases n - i,
        {
            held.push(false);
            assert(held@ =~= Seq::new((i + 1) as nat, |i: int| false));
            i += 1;
        }
        let mut r: Vec<Vec<bool>> = Vec::new();
        let mut t: usize = 0;
        while t < trace.len()
            invariant
                t <= trace@.len(),
                n == self@.nodes.len(),
                self.wf(),
                self@.consistent(),
                self@.topo_sorted(),
                steps == trace_view(trace@),
                forall|t: int|
                    0 <= t < trace@.len() ==> (#[trigger] trace@[t])@.len() == self@.nb_inputs,
                held@ == self@.held_after(steps, t as nat),
                trace_view(r@) == Seq::new(t as nat, |t: int| self@.outputs_at(steps, t as nat)),
            decreases trace@.len() - t,
        {
            let inputs = &trace[t];
            assert(steps[t as int] == inputs@);
            let values = self.node_values(inputs, &held);
            let mut outs: Vec<bool> = Vec::new();
            let mut j: usize = 0;
            while j < self.nb_outputs()
                invariant
                    j <= self@.outputs.len(),
                    self@.consistent(),
                    inputs@.len() == self@.nb_inputs,
                    values@.len() == self@.nodes.len(),
                    values@ == self@.valuation(inputs@, held@).nodes,
                    outs@ == Seq::new(
                        j as nat,
                        |j: int| self@.outputs[j].eval(self@.valuation(inputs@, held@)),
                    ),
                decreases self@.outputs.len() - j,
            {
                proof {
                    assert(self@.outputs[j as int].in_range(self@.nb_inputs, self@.nodes.len()));
                }
                outs.push(self.output(j).compute(inputs, &values));
                assert(outs@ =~= Seq::new(
                    (j + 1) as nat,
                    |j: int| self@.outputs[j].eval(self@.valuation(inputs@, held@)),
                ));
                j += 1;
            }
            let mut next: Vec<bool> = Vec::new();
            let mut i: usize = 0;
            while i < n
                invariant
                    i <= n,
                    n == self@.nodes.len(),
                    self@.consistent(),
                    inputs@.len() == self@.nb_inputs,
                    held@.len() == n,
                    values@.len() == n,
                    values@ == self@.valuation(inputs@, held@).nodes,
                    next@ == self@.next_held(inputs@, held@).take(i as int),
                decreases n - i,
            {
                let g = self.gate(i);
                proof {
                    assert(self@.nodes[i as int].in_range(self@.nb_inputs, self@.nodes.len()));
                }
                if g.is_comb() {
                    next.push(false);
                } else {
                    next.push(g.compute(inputs, &values, held[i]));
                }
                assert(next@ =~= self@.next_held(inputs@, held@).take(i + 1));
                i += 1;
            }
            proof {
                assert(next@ =~= self@.next_held(inputs@, held@));
                assert(outs@ =~= self@.outputs_at(steps, t as nat));
            }
            let ghost done = r@;
            r.push(outs);
            held = next;
            t += 1;
            proof {
                assert(trace_view(done).len() == t - 1);
                assert(r@.len() == t);
                assert(trace_view(r@) =~= Seq::new(
                    t as nat,
                    |t: int| self@.outputs_at(steps, t as nat),
                )) by {
                    assert forall|u: int| 0 <= u < t implies trace_view(r@)[u] == self@.outputs_at(
                        steps,
                        u as nat,
                    ) by {
                        if u < t - 1 {
                            assert(r@[u] == done[u]);
                            assert(trace_view(r@)[u] == trace_view(done)[u]);
                        }
                    }
                }
            }
        }
        assert(trace_view(r@) =~= self@.run(steps));
        r
    }
}

/// The values of the first nodes are a part of the values of more nodes.
pub proof fn lemma_node_values(nodes: Seq<Gate>, inputs: Seq<bool>, held: Seq<bool>, k: nat, m: nat)
    requires
        k <= m,
    ensures
        node_values(nodes, inputs, held, m).len() == m,
        forall|i: int|
            0 <= i < k ==> #[trigger] node_values(nodes, inputs, held, m)[i] == node_values(
                nodes,
                inputs,
                held,
                k,
            )[i],
    decreases m,
{
    if m > 0 {
        if k < m {
            lemma_node_values(nodes, inputs, held, k, (m - 1) as nat);
        } else {
            lemma_node_values(nodes, inputs, held, (m - 1) as nat, (m - 1) as nat);
        }
    }
}

/// Whether two valuations give the same values to the inputs below
/// `nb_inputs` and to the nodes below `nb_nodes`.
pub open spec fn agree(v: Valuation, w: Valuation, nb_inputs: nat, nb_nodes: nat) -> bool {
    &&& forall|k: int| 0 <= k < nb_inputs ==> #[trigger] v.inputs[k] == w.inputs[k]
    &&& forall|i: int| 0 <= i < nb_nodes ==> #[trigger] v.nodes[i] == w.nodes[i]
}

/// The value of a gate depends on the values of its operands alone.
pub proof fn lemma_eval_local(
    g: Gate,
    v: Valuation,
    w: Valuation,
    nb_inputs: nat,
    nb_nodes: nat,
    held: bool,
)
    requires
        g.in_range(nb_inputs, nb_nodes),
        agree(v, w, nb_inputs, nb_nodes),
    ensures
        g.eval(v, held) == g.eval(w, held),
{
    let ops = g.operands();
    assert forall|k: int| 0 <= k < ops.len() implies (#[trigger] ops[k]).eval(v) == ops[k].eval(
        w,
    ) by {
        assert(ops[k].in_range(nb_inputs, nb_nodes)) by {
            assert(ops[0].in_range(nb_inputs, nb_nodes));
            assert(ops[1].in_range(nb_inputs, nb_nodes));
            if ops.len() == 3 {
                assert(ops[2].in_range(nb_inputs, nb_nodes));
            }
        }
        match ops[k].kind {
            SignalKind::Constant => {},
            SignalKind::Input(i) => {
                assert(v.inputs[i as int] == w.inputs[i as int]);
            },
            SignalKind::Node(i) => {
                assert(v.nodes[i as int] == w.nodes[i as int]);
            },
        }
    }
    assert(ops[0].eval(v) == ops[0].eval(w));
    assert(ops[1].eval(v) == ops[1].eval(w));
    if ops.len() == 3 {
        assert(ops[2].eval(v) == ops[2].eval(w));
    }
}

/// Whether a valuation gives each node of a sorted network its value in a
/// clock step: a flip-flop what it holds, any other gate what follows from
/// its operands.
pub open spec fn follows(net: AigView, v: Valuation, held: Seq<bool>) -> bool {
    forall|i: int|
        0 <= i < net.nodes.len() ==> v.nodes[i] == if (#[trigger] net.nodes[i]) is Dff {
            held[i]
        } else {
            net.nodes[i].eval(v, false)
        }
}

/// The values of the nodes of a sorted network are the only ones that
/// follow from the inputs and from what the flip-flops hold.
pub proof fn lemma_follows(net: AigView, v: Valuation, held: Seq<bool>, upto: nat)
    requires
        net.consistent(),
        net.topo_sorted(),
        follows(net, v, held),
        upto <= net.nodes.len(),
    ensures
        forall|i: int|
            0 <= i < upto ==> #[trigger] v.nodes[i] == node_values(
                net.nodes,
                v.inputs,
                held,
                upto,
            )[i],
    decreases upto,
{
    if upto > 0 {
        lemma_follows(net, v, held, (upto - 1) as nat);
        lemma_node_values(net.nodes, v.inputs, held, (upto - 1) as nat, upto);
        let before = node_values(net.nodes, v.inputs, held, (upto - 1) as nat);
        let g = net.nodes[upto - 1];
        if !(g is Dff) {
            lemma_sorted_gate(net, upto - 1);
            let w = Valuation { inputs: v.inputs, nodes: before };
            lemma_eval_local(g, v, w, net.nb_inputs, (upto - 1) as nat, false);
        }
    }
}

/// The values of the nodes of a sorted network follow from the inputs and
/// from what the flip-flops hold; in particular, the valuation gives each
/// combinational node the value of its gate.
pub proof fn lemma_valuation_follows(net: AigView, inputs: Seq<bool>, held: Seq<bool>)
    requires
        net.consistent(),
        net.topo_sorted(),
    ensures
        follows(net, net.valuation(inputs, held), held),
        net.models(net.valuation(inputs, held)),
        net.valuation(inputs, held).nodes.len() == net.nodes.len(),
{
    let n = net.nodes.len();
    let v = net.valuation(inputs, held);
    lemma_node_values(net.nodes, inputs, held, n, n);
    assert forall|i: int| 0 <= i < n implies v.nodes[i] == if (#[trigger] net.nodes[i]) is Dff {
        held[i]
    } else {
        net.nodes[i].eval(v, false)
    } by {
        lemma_node_values(net.nodes, inputs, held, (i + 1) as nat, n);
        lemma_node_values(net.nodes, inputs, held, i as nat, n);
        lemma_node_values(net.nodes, inputs, held, i as nat, (i + 1) as nat);
        lemma_node_values(net.nodes, inputs, held, i as nat, i as nat);
        let before = node_values(net.nodes, inputs, held, i as nat);
        let g = net.nodes[i];
        assert(v.nodes[i] == node_values(net.nodes, inputs, held, (i + 1) as nat)[i]);
        if !(g is Dff) {
            lemma_sorted_gate(net, i);
            let w = Valuation { inputs, nodes: before };
            lemma_eval_local(g, v, w, net.nb_inputs, i as nat, false);
        }
    }
}

/// In a valuation that gives each node of the network once a gate is
/// built the value of its gate, the signal that stands for the built gate
/// has its value; and the valuation does the same for the network before.
pub proof fn lemma_with_gate_models(net: AigView, g: Gate, v: Valuation)
    requires
        net.with_gate(g).models(v),
        !(g is Dff),
        net.nodes.len() <= u32::MAX,
    ensures
        net.gate_signal(g).eval(v) == g.eval(v, false),
        net.models(v),
{
    lemma_normalized_preserves_function(g, v, false);
    lemma_normalized_kind(g);
    let new = net.with_gate(g);
    match g.normalized() {
        Normalization::Buf(s) => {},
        Normalization::Node(c, inv) => {
            lemma_first_index(net.nodes, c);
            let f = first_index(net.nodes, c);
            if f < net.nodes.len() {
                assert(new == net);
                assert(net.nodes[f] == c);
            } else {
                assert(new.nodes == net.nodes.push(c));
                assert(new.nodes[f] == c);
                assert forall|i: int|
                    0 <= i < net.nodes.len() && !((#[trigger] net.nodes[i]) is Dff) implies v.nodes[i]
                    == net.nodes[i].eval(v, false) by {
                    assert(new.nodes[i] == net.nodes[i]);
                }
            }
            assert(v.nodes[f] == new.nodes[f].eval(v, false));
        },
    }
}

} // verus!
