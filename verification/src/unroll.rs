//! Unrolling of a sequential network over a number of clock steps.

use crate::network::aig::Aig;
use crate::network::view::{extends, first_index, lemma_first_index, AigView};
use crate::network::dedup::Progress;
use crate::network::gates::{
    lemma_in_range_mentions, lemma_normalized_in_range, lemma_normalized_kind, Gate, Normalization,
};
use crate::network::nary::lemma_with_gate_size;
use crate::network::signal::{Signal, SignalKind};
use core::ops::Not;
use vstd::prelude::*;

verus! {

/// The copy of the first `upto` gates of `src` into the network of `p`:
/// each combinational gate in turn is built there, its operands taken
/// through the table so far and its inputs moved up by `offset`; the table
/// gets the signal that stands for it. The entry of a flip-flop stays.
pub open spec fn copied(src: Seq<Gate>, p: Progress, offset: nat, upto: nat) -> Progress
    decreases upto,
{
    if upto == 0 {
        p
    } else {
        let before = copied(src, p, offset, (upto - 1) as nat);
        let g = src[upto - 1];
        if g is Dff {
            before
        } else {
            before.built(upto - 1, g.instantiated(before.table, offset))
        }
    }
}

/// What selects the value that a flip-flop takes where it is not reset: its
/// data under enable, else what it holds.
pub open spec fn latch_mux(g: Gate, table: Seq<Signal>, offset: nat, held: Signal) -> Gate {
    Gate::Mux(
        g.operands()[1].instantiated(table, offset),
        g.operands()[0].instantiated(table, offset),
        held,
    )
}

/// What gives the value that a flip-flop holds next: 0 under reset, else
/// what `taken` selects.
pub open spec fn latch_and(g: Gate, table: Seq<Signal>, offset: nat, taken: Signal) -> Gate {
    Gate::And(g.operands()[2].instantiated(table, offset).complement(), taken)
}

/// What the flip-flops among the first `upto` gates of `src` hold after a
/// step, built in the network of `p`: for each, in turn, the selection
/// between data and held value, then the And with the complement of the
/// reset. The operands are taken through the table of `p`, in which the
/// entry of a flip-flop is what it holds before the step; the table that
/// comes back has the new values in their place.
pub open spec fn latched(src: Seq<Gate>, p: Progress, offset: nat, upto: nat) -> Progress
    decreases upto,
{
    if upto == 0 {
        p
    } else {
        let before = latched(src, p, offset, (upto - 1) as nat);
        let g = src[upto - 1];
        if g is Dff {
            let mux = latch_mux(g, p.table, offset, p.table[upto - 1]);
            let taken = before.net.gate_signal(mux);
            let and = latch_and(g, p.table, offset, taken);
            let net = before.net.with_gate(mux);
            Progress {
                net: net.with_gate(and),
                table: before.table.update(upto - 1, net.gate_signal(and)),
            }
        } else {
            before
        }
    }
}

impl AigView {
    /// The unrolling after `t` of `steps` steps: the network so far, with
    /// the outputs of the steps done, and the table for the next step, in
    /// which the entry of a flip-flop is what it holds then. Every
    /// flip-flop holds 0 at first.
    pub open spec fn unrolled_upto(self, steps: nat, t: nat) -> Progress
        decreases t,
    {
        if t == 0 {
            Progress {
                net: AigView {
                    nb_inputs: self.nb_inputs * steps,
                    nodes: Seq::empty(),
                    outputs: Seq::empty(),
                },
                table: Seq::new(self.nodes.len(), |i: int| Signal::constant(false)),
            }
        } else {
            let before = self.unrolled_upto(steps, (t - 1) as nat);
            let offset = (t - 1) * self.nb_inputs;
            let full = copied(self.nodes, before, offset as nat, self.nodes.len());
            let after = latched(self.nodes, full, offset as nat, self.nodes.len());
            Progress {
                net: AigView {
                    nb_inputs: after.net.nb_inputs,
                    nodes: after.net.nodes,
                    outputs: before.net.outputs + Seq::new(
                        self.outputs.len(),
                        |j: int| self.outputs[j].instantiated(full.table, offset as nat),
                    ),
                },
                table: after.table,
            }
        }
    }

    /// The network unrolled over `steps` clock steps: a combinational
    /// network with the inputs of each step, step after step, and the
    /// outputs of each step, step after step.
    pub open spec fn unrolled(self, steps: nat) -> AigView {
        self.unrolled_upto(steps, steps).net
    }
}

/// Copying gates keeps the table's length, the inputs and the outputs, and
/// adds at most one node for each gate.
pub proof fn lemma_copied(src: Seq<Gate>, p: Progress, offset: nat, upto: nat)
    requires
        upto <= src.len(),
        p.table.len() == src.len(),
    ensures
        copied(src, p, offset, upto).table.len() == src.len(),
        copied(src, p, offset, upto).net.nb_inputs == p.net.nb_inputs,
        copied(src, p, offset, upto).net.outputs == p.net.outputs,
        p.net.nodes.len() <= copied(src, p, offset, upto).net.nodes.len() <= p.net.nodes.len()
            + upto,
        p.net.hash_consed() ==> copied(src, p, offset, upto).net.hash_consed(),
    decreases upto,
{
    if upto > 0 {
        lemma_copied(src, p, offset, (upto - 1) as nat);
        let before = copied(src, p, offset, (upto - 1) as nat);
        let g = src[upto - 1].instantiated(before.table, offset);
        lemma_with_gate_size(before.net, g);
        if before.net.hash_consed() {
            crate::network::view::lemma_with_gate_hash_consed(before.net, g);
        }
    }
}

/// Latching keeps the table's length, the inputs and the outputs, and adds
/// at most two nodes for each gate.
pub proof fn lemma_latched(src: Seq<Gate>, p: Progress, offset: nat, upto: nat)
    requires
        upto <= src.len(),
        p.table.len() == src.len(),
    ensures
        latched(src, p, offset, upto).table.len() == src.len(),
        latched(src, p, offset, upto).net.nb_inputs == p.net.nb_inputs,
        latched(src, p, offset, upto).net.outputs == p.net.outputs,
        p.net.nodes.len() <= latched(src, p, offset, upto).net.nodes.len() <= p.net.nodes.len() + 2
            * upto,
        p.net.hash_consed() ==> latched(src, p, offset, upto).net.hash_consed(),
    decreases upto,
{
    if upto > 0 {
        lemma_latched(src, p, offset, (upto - 1) as nat);
        let before = latched(src, p, offset, (upto - 1) as nat);
        let g = src[upto - 1];
        if g is Dff {
            let mux = latch_mux(g, p.table, offset, p.table[upto - 1]);
            let taken = before.net.gate_signal(mux);
            let and = latch_and(g, p.table, offset, taken);
            let net = before.net.with_gate(mux);
            lemma_with_gate_size(before.net, mux);
            lemma_with_gate_size(net, and);
            if before.net.hash_consed() {
                crate::network::view::lemma_with_gate_hash_consed(before.net, mux);
                crate::network::view::lemma_with_gate_hash_consed(net, and);
            }
        }
    }
}

/// The unrolling so far keeps the table's length and the inputs, holds the
/// outputs of the steps done, and has at most three nodes for each gate
/// and step.
pub proof fn lemma_unrolled_upto(net: AigView, steps: nat, t: nat)
    ensures
        net.unrolled_upto(steps, t).table.len() == net.nodes.len(),
        net.unrolled_upto(steps, t).net.nb_inputs == net.nb_inputs * steps,
        net.unrolled_upto(steps, t).net.outputs.len() == t * net.outputs.len(),
        net.unrolled_upto(steps, t).net.nodes.len() <= 3 * net.nodes.len() * t,
        net.unrolled_upto(steps, t).net.hash_consed(),
    decreases t,
{
    let n = net.nodes.len();
    if t > 0 {
        lemma_unrolled_upto(net, steps, (t - 1) as nat);
        let before = net.unrolled_upto(steps, (t - 1) as nat);
        let offset = ((t - 1) * net.nb_inputs) as nat;
        let full = copied(net.nodes, before, offset, n);
        lemma_copied(net.nodes, before, offset, n);
        lemma_latched(net.nodes, full, offset, n);
        assert(3 * n * (t - 1) + 3 * n == 3 * n * t) by (nonlinear_arith);
        assert((t - 1) * net.outputs.len() + net.outputs.len() == t * net.outputs.len())
            by (nonlinear_arith);
    } else {
        assert(3 * n * 0 == 0);
        assert(0 * net.outputs.len() == 0);
    }
}

/// Copies the combinational gates of `src` into `dst`; see `copied`.
pub fn copy_gates(dst: &mut Aig, src: &Aig, table: &mut Vec<Signal>, offset: u32)
    requires
        old(dst).wf(),
        src.wf(),
        src@.consistent(),
        old(table)@.len() == src@.nodes.len(),
        offset + src@.nb_inputs <= u32::MAX + 1,
        old(dst)@.nodes.len() + src@.nodes.len() < u32::MAX,
    ensures
        final(dst).wf(),
        (Progress { net: final(dst)@, table: final(table)@ }) == copied(
            src@.nodes,
            Progress { net: old(dst)@, table: old(table)@ },
            offset as nat,
            src@.nodes.len(),
        ),
{
    let n = src.nb_nodes();
    let ghost start = Progress { net: dst@, table: table@ };
    let mut i: usize = 0;
    while i < n
        invariant
            i <= n,
            n == src@.nodes.len(),
            dst.wf(),
            src.wf(),
            src@.consistent(),
            table@.len() == n,
            start.table.len() == n,
            offset + src@.nb_inputs <= u32::MAX + 1,
            start.net.nodes.len() + n < u32::MAX,
            (Progress { net: dst@, table: table@ }) == copied(
                src@.nodes,
                start,
                offset as nat,
                i as nat,
            ),
        decreases n - i,
    {
        proof {
            lemma_copied(src@.nodes, start, offset as nat, i as nat);
            assert(src@.nodes[i as int].in_range(src@.nb_inputs, src@.nodes.len()));
        }
        let g = src.gate(i);
        if g.is_comb() {
            let c = g.instantiate(table.as_slice(), offset, Ghost(src@.nb_inputs));
            let s = dst.add_gate(c);
            table[i] = s;
        }
        i += 1;
    }
}

/// Builds in `dst` what the flip-flops of `src` hold after a step; see
/// `latched`.
pub fn latch(dst: &mut Aig, src: &Aig, table: &Vec<Signal>, offset: u32) -> (next: Vec<Signal>)
    requires
        old(dst).wf(),
        src.wf(),
        src@.consistent(),
        table@.len() == src@.nodes.len(),
        offset + src@.nb_inputs <= u32::MAX + 1,
        old(dst)@.nodes.len() + 2 * src@.nodes.len() < u32::MAX,
    ensures
        final(dst).wf(),
        (Progress { net: final(dst)@, table: next@ }) == latched(
            src@.nodes,
            Progress { net: old(dst)@, table: table@ },
            offset as nat,
            src@.nodes.len(),
        ),
{
    let n = src.nb_nodes();
    let ghost start = Progress { net: dst@, table: table@ };
    let mut next: Vec<Signal> = Vec::new();
    let mut i: usize = 0;
    while i < n
        invariant
            i <= n,
            n == table@.len(),
            next@ == table@.take(i as int),
        decreases n - i,
    {
        next.push(table[i]);
        assert(next@ =~= table@.take(i + 1));
        i += 1;
    }
    assert(next@ =~= table@);
    let mut i: usize = 0;
    while i < n
        invariant
            i <= n,
            n == src@.nodes.len(),
            dst.wf(),
            src.wf(),
            src@.consistent(),
            table@.len() == n,
            next@.len() == n,
            start.table == table@,
            offset + src@.nb_inputs <= u32::MAX + 1,
            start.net.nodes.len() + 2 * n < u32::MAX,
            (Progress { net: dst@, table: next@ }) == latched(
                src@.nodes,
                start,
                offset as nat,
                i as nat,
            ),
        decreases n - i,
    {
        proof {
            lemma_latched(src@.nodes, start, offset as nat, i as nat);
            assert(src@.nodes[i as int].in_range(src@.nb_inputs, src@.nodes.len()));
        }
        match src.gate(i) {
            Gate::Dff(d, en, res) => {
                let ghost net = dst@;
                let taken = dst.mux(
                    en.instantiate(table.as_slice(), offset),
                    d.instantiate(table.as_slice(), offset),
                    table[i],
                );
                proof {
                    lemma_with_gate_size(
                        net,
                        latch_mux(src@.nodes[i as int], table@, offset as nat, table@[i as int]),
                    );
                }
                let s = dst.and(res.instantiate(table.as_slice(), offset).not(), taken);
                next[i] = s;
            },
            _ => {},
        }
        i += 1;
    }
    next
}

/// Unrolls a sequential network over `nb_steps` clock steps: the result is
/// combinational, takes the inputs of every step, step after step, and
/// gives the outputs of every step, step after step. Each flip-flop holds
/// 0 at the first step, and at each later step what its gate made of the
/// step before. On the inputs of a run, step after step, the result gives
/// the outputs of the run, step after step.
pub fn unroll(aig: &Aig, nb_steps: usize) -> (r: Aig)
    requires
        aig.wf(),
        aig@.consistent(),
        aig@.topo_sorted(),
        aig@.nb_inputs * nb_steps <= u32::MAX,
        3 * aig@.nodes.len() * nb_steps < u32::MAX,
    ensures
        r.wf(),
        r@ == aig@.unrolled(nb_steps as nat),
        r@.sound(),
        r@.nb_inputs == aig@.nb_inputs * nb_steps,
        r@.outputs.len() == nb_steps * aig@.outputs.len(),
        r@.nodes.len() <= 3 * aig@.nodes.len() * nb_steps,
        forall|trace: Seq<Seq<bool>>, held: Seq<bool>|
            trace.len() == nb_steps && (forall|u: int|
                0 <= u < trace.len() ==> (#[trigger] trace[u]).len() == aig@.nb_inputs)
                ==> #[trigger] r@.output_values(crate::meaning::flat(trace, nb_steps as nat), held)
                == crate::meaning::flat_outputs(aig@, trace, nb_steps as nat),
{
    proof {
        lemma_unrolled_sound(aig@, nb_steps as nat, nb_steps as nat);
        assert forall|trace: Seq<Seq<bool>>, held: Seq<bool>|
            trace.len() == nb_steps && (forall|u: int|
                0 <= u < trace.len() ==> (#[trigger] trace[u]).len()
                    == aig@.nb_inputs) implies #[trigger] aig@.unrolled(
            nb_steps as nat,
        ).output_values(crate::meaning::flat(trace, nb_steps as nat), held)
            == crate::meaning::flat_outputs(aig@, trace, nb_steps as nat) by {
            crate::meaning::lemma_unrolled_run(aig@, nb_steps as nat, trace, held);
        }
    }
    let n = aig.nb_nodes();
    let ni = aig.nb_inputs();
    let ghost steps = nb_steps as nat;
    let mut r = Aig::new();
    let mut table: Vec<Signal> = Vec::new();
    let mut i: usize = 0;
    while i < n
        invariant
            i <= n,
            table@ == Seq::new(i as nat, |i: int| Signal::constant(false)),
        decreases n - i,
    {
        table.push(Signal::zero());
        assert(table@ =~= Seq::new((i + 1) as nat, |i: int| Signal::constant(false)));
        i += 1;
    }
    let mut t: usize = 0;
    let mut offset: usize = 0;
    proof {
        assert(r@.nodes =~= Seq::empty());
        assert(r@.outputs =~= Seq::empty());
        assert(0 * ni == 0);
    }
    while t < nb_steps
        invariant
            t <= nb_steps,
            steps == nb_steps,
            n == aig@.nodes.len(),
            ni == aig@.nb_inputs,
            aig.wf(),
            aig@.consistent(),
            r.wf(),
            ni * nb_steps <= u32::MAX,
            3 * n * nb_steps < u32::MAX,
            offset == t * ni,
            r@.nb_inputs == offset,
            (Progress {
                net: AigView { nb_inputs: ni as nat * steps, nodes: r@.nodes, outputs: r@.outputs },
                table: table@,
            }) == aig@.unrolled_upto(steps, t as nat),
        decreases nb_steps - t,
    {
        let ghost before = aig@.unrolled_upto(steps, t as nat);
        proof {
            lemma_unrolled_upto(aig@, steps, t as nat);
            lemma_unrolled_upto(aig@, steps, (t + 1) as nat);
            assert((t + 1) * ni <= nb_steps * ni) by (nonlinear_arith)
                requires
                    t + 1 <= nb_steps,
            ;
            assert((t + 1) * ni == t * ni + ni) by (nonlinear_arith);
            assert(3 * n * t + 3 * n <= 3 * n * nb_steps) by (nonlinear_arith)
                requires
                    t + 1 <= nb_steps,
            ;
            assert(ni * nb_steps == nb_steps * ni) by (nonlinear_arith);
        }
        r.add_inputs(ni);
        let ghost shown = r@;
        proof {
            lemma_copied_inputs(aig@.nodes, Progress { net: shown, table: table@ }, before, offset as nat, n as nat);
            lemma_copied(aig@.nodes, before, offset as nat, n as nat);
        }
        copy_gates(&mut r, aig, &mut table, offset as u32);
        let ghost full = copied(aig@.nodes, before, offset as nat, n as nat);
        let ghost mid = r@;
        let mut j: usize = 0;
        while j < aig.nb_outputs()
            invariant
                j <= aig@.outputs.len(),
                aig.wf(),
                aig@.consistent(),
                r.wf(),
                table@.len() == aig@.nodes.len(),
                ni == aig@.nb_inputs,
                offset + ni <= u32::MAX,
                r@.nb_inputs == mid.nb_inputs,
                r@.nodes == mid.nodes,
                r@.outputs == mid.outputs + Seq::new(
                    j as nat,
                    |j: int| aig@.outputs[j].instantiated(table@, offset as nat),
                ),
            decreases aig@.outputs.len() - j,
        {
            proof {
                assert(aig@.outputs[j as int].in_range(aig@.nb_inputs, aig@.nodes.len()));
            }
            r.add_output(aig.output(j).instantiate(table.as_slice(), offset as u32));
            assert(r@.outputs =~= mid.outputs + Seq::new(
                (j + 1) as nat,
                |j: int| aig@.outputs[j].instantiated(table@, offset as nat),
            ));
            j += 1;
        }
        let ghost shown = r@;
        proof {
            lemma_latched(aig@.nodes, full, offset as nat, n as nat);
            lemma_latched_inputs(
                aig@.nodes,
                Progress { net: shown, table: table@ },
                full,
                offset as nat,
                n as nat,
            );
        }
        table = latch(&mut r, aig, &table, offset as u32);
        offset = offset + ni;
        t += 1;
    }
    proof {
        lemma_unrolled_upto(aig@, steps, steps);
        assert(ni * nb_steps == nb_steps * ni) by (nonlinear_arith);
    }
    r
}

/// Copying does not depend on the inputs and outputs of the network, and
/// leaves them as they are.
proof fn lemma_copied_inputs(src: Seq<Gate>, p: Progress, q: Progress, offset: nat, upto: nat)
    requires
        p.net.nodes == q.net.nodes,
        p.table == q.table,
    ensures
        copied(src, p, offset, upto).net.nodes == copied(src, q, offset, upto).net.nodes,
        copied(src, p, offset, upto).table == copied(src, q, offset, upto).table,
        copied(src, p, offset, upto).net.nb_inputs == p.net.nb_inputs,
        copied(src, p, offset, upto).net.outputs == p.net.outputs,
    decreases upto,
{
    if upto > 0 {
        lemma_copied_inputs(src, p, q, offset, (upto - 1) as nat);
        let a = copied(src, p, offset, (upto - 1) as nat);
        let b = copied(src, q, offset, (upto - 1) as nat);
        let g = src[upto - 1].instantiated(a.table, offset);
        lemma_with_gate_same(a.net, b.net, g);
    }
}

/// Latching does not depend on the inputs and outputs of the network, and
/// leaves them as they are.
proof fn lemma_latched_inputs(src: Seq<Gate>, p: Progress, q: Progress, offset: nat, upto: nat)
    requires
        p.net.nodes == q.net.nodes,
        p.table == q.table,
    ensures
        latched(src, p, offset, upto).net.nodes == latched(src, q, offset, upto).net.nodes,
        latched(src, p, offset, upto).table == latched(src, q, offset, upto).table,
        latched(src, p, offset, upto).net.nb_inputs == p.net.nb_inputs,
        latched(src, p, offset, upto).net.outputs == p.net.outputs,
    decreases upto,
{
    if upto > 0 {
        lemma_latched_inputs(src, p, q, offset, (upto - 1) as nat);
        let a = latched(src, p, offset, (upto - 1) as nat);
        let b = latched(src, q, offset, (upto - 1) as nat);
        let g = src[upto - 1];
        if g is Dff {
            let mux = latch_mux(g, p.table, offset, p.table[upto - 1]);
            lemma_with_gate_same(a.net, b.net, mux);
            let and = latch_and(g, p.table, offset, a.net.gate_signal(mux));
            lemma_with_gate_same(a.net.with_gate(mux), b.net.with_gate(mux), and);
        }
    }
}

/// Building a gate depends on the nodes of the network alone.
pub proof fn lemma_with_gate_same(a: AigView, b: AigView, g: Gate)
    requires
        a.nodes == b.nodes,
    ensures
        a.with_gate(g).nodes == b.with_gate(g).nodes,
        a.gate_signal(g) == b.gate_signal(g),
        a.with_gate(g).nb_inputs == a.nb_inputs,
        a.with_gate(g).outputs == a.outputs,
{
}

impl AigView {
    /// Whether the network is combinational and sorted, and every signal
    /// in it refers to what exists.
    pub open spec fn sound(self) -> bool {
        &&& self.comb()
        &&& self.consistent()
        &&& self.topo_sorted()
    }
}

/// Building a combinational gate over what exists keeps a network sound;
/// the signal that stands for it refers to what exists then.
pub proof fn lemma_with_gate_sound(net: AigView, g: Gate)
    requires
        net.sound(),
        !(g is Dff),
        g.in_range(net.nb_inputs, net.nodes.len()),
    ensures
        net.with_gate(g).sound(),
        net.gate_signal(g).in_range(net.nb_inputs, net.with_gate(g).nodes.len()),
{
    lemma_normalized_in_range(g, net.nb_inputs, net.nodes.len());
    lemma_normalized_kind(g);
    lemma_with_gate_size(net, g);
    let new = net.with_gate(g);
    match g.normalized() {
        Normalization::Buf(s) => {},
        Normalization::Node(c, _) => {
            lemma_first_index(net.nodes, c);
            if first_index(net.nodes, c) >= net.nodes.len() {
                assert(new.nodes == net.nodes.push(c));
                assert forall|i: int| 0 <= i < new.nodes.len() implies (
                #[trigger] new.nodes[i]).in_range(new.nb_inputs, new.nodes.len()) by {
                    if i < net.nodes.len() {
                        assert(net.nodes[i].in_range(net.nb_inputs, net.nodes.len()));
                        lemma_in_range_mentions(net.nodes[i], net.nb_inputs, net.nodes.len());
                        lemma_in_range_mentions(net.nodes[i], net.nb_inputs, new.nodes.len());
                    } else {
                        lemma_in_range_mentions(c, net.nb_inputs, net.nodes.len());
                        lemma_in_range_mentions(c, net.nb_inputs, new.nodes.len());
                    }
                }
                assert forall|i: int, v: u32|
                    0 <= i < new.nodes.len() && (#[trigger] new.nodes[i].comb_depends_on(
                        v,
                    )) implies v < i by {
                    if i < net.nodes.len() {
                        assert(net.nodes[i].comb_depends_on(v));
                    } else {
                        lemma_in_range_mentions(c, net.nb_inputs, net.nodes.len());
                        assert(c.mentions(SignalKind::Node(v)));
                    }
                }
                assert forall|i: int| 0 <= i < new.nodes.len() implies !((
                #[trigger] new.nodes[i]) is Dff) by {
                    if i < net.nodes.len() {
                        assert(!(net.nodes[i] is Dff));
                    }
                }
                assert forall|j: int| 0 <= j < new.outputs.len() implies (
                #[trigger] new.outputs[j]).in_range(new.nb_inputs, new.nodes.len()) by {
                    assert(net.outputs[j].in_range(net.nb_inputs, net.nodes.len()));
                }
            }
        },
    }
}

/// A gate in a copy of its network refers to what exists there, where the
/// table's entries for its operands do and the inputs fit.
pub proof fn lemma_instantiated_in_range(
    g: Gate,
    table: Seq<Signal>,
    offset: nat,
    src_inputs: nat,
    nb_inputs: nat,
    nb_nodes: nat,
)
    requires
        g.in_range(src_inputs, table.len()),
        offset + src_inputs <= nb_inputs,
        nb_inputs <= u32::MAX,
        forall|w: u32| #[trigger] g.depends_on(w) ==> table[w as int].in_range(nb_inputs, nb_nodes),
    ensures
        g.instantiated(table, offset).in_range(nb_inputs, nb_nodes),
        g.instantiated(table, offset) is Dff <==> g is Dff,
{
    let ops = g.operands();
    assert forall|k: int| 0 <= k < ops.len() implies (#[trigger] ops[k]).instantiated(
        table,
        offset,
    ).in_range(nb_inputs, nb_nodes) by {
        if let SignalKind::Node(w) = ops[k].kind {
            assert(g.depends_on(w));
        }
    }
    assert(ops[0].instantiated(table, offset).in_range(nb_inputs, nb_nodes));
    assert(ops[1].instantiated(table, offset).in_range(nb_inputs, nb_nodes));
    if ops.len() == 3 {
        assert(ops[2].instantiated(table, offset).in_range(nb_inputs, nb_nodes));
    }
}

/// Whether the table's entry for node `i` refers to what exists in the
/// network.
pub open spec fn entry_fits(p: Progress, i: int) -> bool {
    p.table[i].in_range(p.net.nb_inputs, p.net.nodes.len())
}

/// Copying the gates of a sorted network into a sound one keeps that one
/// sound; the table's entries for the gates copied, and those for the
/// flip-flops where they did before, refer to what exists.
pub proof fn lemma_copied_sound(src: AigView, p: Progress, offset: nat, upto: nat)
    requires
        src.consistent(),
        src.topo_sorted(),
        upto <= src.nodes.len(),
        p.table.len() == src.nodes.len(),
        p.net.sound(),
        offset + src.nb_inputs <= p.net.nb_inputs <= u32::MAX,
        forall|i: int|
            0 <= i < src.nodes.len() && src.nodes[i] is Dff ==> #[trigger] entry_fits(p, i),
    ensures
        copied(src.nodes, p, offset, upto).net.sound(),
        forall|i: int|
            0 <= i < src.nodes.len() && (src.nodes[i] is Dff || i < upto) ==> #[trigger] entry_fits(
                copied(src.nodes, p, offset, upto),
                i,
            ),
    decreases upto,
{
    if upto > 0 {
        lemma_copied_sound(src, p, offset, (upto - 1) as nat);
        lemma_copied(src.nodes, p, offset, (upto - 1) as nat);
        let before = copied(src.nodes, p, offset, (upto - 1) as nat);
        let raw = src.nodes[upto - 1];
        if !(raw is Dff) {
            assert(raw.in_range(src.nb_inputs, src.nodes.len()));
            assert forall|w: u32| #[trigger] raw.depends_on(w) implies before.table[w as int].in_range(
                before.net.nb_inputs,
                before.net.nodes.len(),
            ) by {
                assert(raw.comb_depends_on(w));
                assert(entry_fits(before, w as int));
            }
            lemma_instantiated_in_range(
                raw,
                before.table,
                offset,
                src.nb_inputs,
                before.net.nb_inputs,
                before.net.nodes.len(),
            );
            let g = raw.instantiated(before.table, offset);
            lemma_with_gate_sound(before.net, g);
            lemma_with_gate_size(before.net, g);
            let after = before.built(upto - 1, g);
            assert forall|i: int|
                0 <= i < src.nodes.len() && (src.nodes[i] is Dff || i < upto) implies #[trigger] entry_fits(
                after,
                i,
            ) by {
                if i != upto - 1 {
                    assert(entry_fits(before, i));
                }
            }
        }
    } else {
        assert forall|i: int|
            0 <= i < src.nodes.len() && (src.nodes[i] is Dff || i < upto) implies #[trigger] entry_fits(
            copied(src.nodes, p, offset, upto),
            i,
        ) by {
            assert(entry_fits(p, i));
        }
    }
}

/// Latching in a sound network keeps it sound; the new entries for the
/// flip-flops refer to what exists.
pub proof fn lemma_latched_sound(src: AigView, p: Progress, offset: nat, upto: nat)
    requires
        src.consistent(),
        upto <= src.nodes.len(),
        p.table.len() == src.nodes.len(),
        p.net.sound(),
        offset + src.nb_inputs <= p.net.nb_inputs <= u32::MAX,
        forall|i: int| 0 <= i < src.nodes.len() ==> #[trigger] entry_fits(p, i),
    ensures
        latched(src.nodes, p, offset, upto).net.sound(),
        forall|i: int|
            0 <= i < src.nodes.len() ==> #[trigger] entry_fits(
                latched(src.nodes, p, offset, upto),
                i,
            ),
    decreases upto,
{
    if upto > 0 {
        lemma_latched_sound(src, p, offset, (upto - 1) as nat);
        lemma_latched(src.nodes, p, offset, (upto - 1) as nat);
        let before = latched(src.nodes, p, offset, (upto - 1) as nat);
        let g = src.nodes[upto - 1];
        if g is Dff {
            let ni = before.net.nb_inputs;
            let len = before.net.nodes.len();
            assert(g.in_range(src.nb_inputs, src.nodes.len()));
            assert forall|w: u32| #[trigger] g.depends_on(w) implies p.table[w as int].in_range(
                ni,
                len,
            ) by {
                assert(entry_fits(p, w as int));
            }
            lemma_instantiated_in_range(g, p.table, offset, src.nb_inputs, ni, len);
            assert(entry_fits(p, upto - 1));
            let mux = latch_mux(g, p.table, offset, p.table[upto - 1]);
            assert(mux.in_range(ni, len));
            lemma_with_gate_sound(before.net, mux);
            lemma_with_gate_size(before.net, mux);
            let net = before.net.with_gate(mux);
            let taken = before.net.gate_signal(mux);
            let and = latch_and(g, p.table, offset, taken);
            assert(and.in_range(ni, net.nodes.len()));
            lemma_with_gate_sound(net, and);
            lemma_with_gate_size(net, and);
            let after = latched(src.nodes, p, offset, upto);
            assert forall|i: int| 0 <= i < src.nodes.len() implies #[trigger] entry_fits(after, i) by {
                if i != upto - 1 {
                    assert(entry_fits(before, i));
                }
            }
        }
    } else {
        assert forall|i: int| 0 <= i < src.nodes.len() implies #[trigger] entry_fits(
            latched(src.nodes, p, offset, upto),
            i,
        ) by {
            assert(entry_fits(p, i));
        }
    }
}

/// The unrolling of a sorted network is sound, at every step.
pub proof fn lemma_unrolled_sound(net: AigView, steps: nat, t: nat)
    requires
        net.consistent(),
        net.topo_sorted(),
        t <= steps,
        net.nb_inputs * steps <= u32::MAX,
    ensures
        net.unrolled_upto(steps, t).net.sound(),
        forall|i: int|
            0 <= i < net.nodes.len() ==> #[trigger] entry_fits(net.unrolled_upto(steps, t), i),
    decreases t,
{
    let n = net.nodes.len();
    lemma_unrolled_upto(net, steps, t);
    if t > 0 {
        lemma_unrolled_sound(net, steps, (t - 1) as nat);
        lemma_unrolled_upto(net, steps, (t - 1) as nat);
        let before = net.unrolled_upto(steps, (t - 1) as nat);
        let offset = ((t - 1) * net.nb_inputs) as nat;
        assert(offset + net.nb_inputs <= net.nb_inputs * steps) by (nonlinear_arith)
            requires
                offset == (t - 1) * net.nb_inputs,
                t <= steps,
        ;
        let full = copied(net.nodes, before, offset, n);
        lemma_copied(net.nodes, before, offset, n);
        lemma_copied_sound(net, before, offset, n);
        let after = latched(net.nodes, full, offset, n);
        lemma_latched(net.nodes, full, offset, n);
        lemma_latched_sound(net, full, offset, n);
        let done = net.unrolled_upto(steps, t);
        assert forall|j: int| 0 <= j < done.net.outputs.len() implies (
        #[trigger] done.net.outputs[j]).in_range(done.net.nb_inputs, done.net.nodes.len()) by {
            if j < before.net.outputs.len() {
                assert(before.net.outputs[j].in_range(
                    before.net.nb_inputs,
                    before.net.nodes.len(),
                ));
            } else {
                let k = j - before.net.outputs.len();
                let s = net.outputs[k];
                assert(s.in_range(net.nb_inputs, n));
                if let SignalKind::Node(w) = s.kind {
                    assert(entry_fits(full, w as int));
                }
            }
        }
        assert(done.net.sound()) by {
            assert(done.net.nodes == after.net.nodes);
            assert forall|i: int| 0 <= i < done.net.nodes.len() implies (
            #[trigger] done.net.nodes[i]).in_range(done.net.nb_inputs, done.net.nodes.len()) by {
                assert(after.net.nodes[i].in_range(after.net.nb_inputs, after.net.nodes.len()));
            }
            assert forall|i: int, v: u32|
                0 <= i < done.net.nodes.len() && (#[trigger] done.net.nodes[i].comb_depends_on(
                    v,
                )) implies v < i by {
                assert(after.net.nodes[i].comb_depends_on(v));
            }
            assert forall|i: int| 0 <= i < done.net.nodes.len() implies !((
            #[trigger] done.net.nodes[i]) is Dff) by {
                assert(!(after.net.nodes[i] is Dff));
            }
        }
        assert forall|i: int| 0 <= i < n implies #[trigger] entry_fits(done, i) by {
            assert(entry_fits(after, i));
        }
    } else {
        let start = net.unrolled_upto(steps, 0);
        assert forall|i: int| 0 <= i < n implies #[trigger] entry_fits(start, i) by {
            assert(start.table[i] == Signal::constant(false));
        }
    }
}

/// Copying more gates keeps the nodes built and the entries written.
pub proof fn lemma_copied_grows(src: Seq<Gate>, p: Progress, offset: nat, k: nat, m: nat)
    requires
        k <= m <= src.len(),
        p.table.len() == src.len(),
    ensures
        extends(copied(src, p, offset, m).net.nodes, copied(src, p, offset, k).net.nodes),
        forall|i: int|
            0 <= i < k ==> #[trigger] copied(src, p, offset, m).table[i] == copied(
                src,
                p,
                offset,
                k,
            ).table[i],
    decreases m - k,
{
    if k < m {
        lemma_copied_grows(src, p, offset, k, (m - 1) as nat);
        lemma_copied(src, p, offset, (m - 1) as nat);
        let before = copied(src, p, offset, (m - 1) as nat);
        let g = src[m - 1].instantiated(before.table, offset);
        lemma_with_gate_size(before.net, g);
        let after = copied(src, p, offset, m);
        let start = copied(src, p, offset, k);
        assert forall|i: int| 0 <= i < start.net.nodes.len() implies #[trigger] after.net.nodes[i]
            == start.net.nodes[i] by {
            assert(before.net.nodes[i] == start.net.nodes[i]);
        }
    }
}

/// Latching for more gates keeps the nodes built and the entries written.
pub proof fn lemma_latched_grows(src: Seq<Gate>, p: Progress, offset: nat, k: nat, m: nat)
    requires
        k <= m <= src.len(),
        p.table.len() == src.len(),
    ensures
        extends(latched(src, p, offset, m).net.nodes, latched(src, p, offset, k).net.nodes),
        forall|i: int|
            0 <= i < k ==> #[trigger] latched(src, p, offset, m).table[i] == latched(
                src,
                p,
                offset,
                k,
            ).table[i],
    decreases m - k,
{
    if k < m {
        lemma_latched_grows(src, p, offset, k, (m - 1) as nat);
        lemma_latched(src, p, offset, (m - 1) as nat);
        let before = latched(src, p, offset, (m - 1) as nat);
        let g = src[m - 1];
        let after = latched(src, p, offset, m);
        let start = latched(src, p, offset, k);
        if g is Dff {
            let mux = latch_mux(g, p.table, offset, p.table[m - 1]);
            let net = before.net.with_gate(mux);
            lemma_with_gate_size(before.net, mux);
            lemma_with_gate_size(net, latch_and(g, p.table, offset, before.net.gate_signal(mux)));
        }
        assert forall|i: int| 0 <= i < start.net.nodes.len() implies #[trigger] after.net.nodes[i]
            == start.net.nodes[i] by {
            assert(before.net.nodes[i] == start.net.nodes[i]);
        }
    }
}

} // verus!
