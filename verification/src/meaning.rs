//! What the networks built from other networks compute: a copy, an
//! unrolling and a miter, in terms of the networks that they come from.

use crate::network::dedup::Progress;
use crate::network::eval::{
    agree, follows, lemma_eval_local, lemma_follows, lemma_sorted_gate, lemma_valuation_follows,
    lemma_with_gate_models,
};
use crate::network::gates::Gate;
use crate::miter::{
    compared, differences, first_copy, fresh, inputs_of, lemma_miter_sound, miter_of,
    miter_signal, outputs_through, second_copy, zeros,
};
use crate::network::nary::{
    complements, join, lemma_paired, lemma_paired_adds, lemma_reduced, lemma_with_gate_size, paired,
    reduced,
};
use crate::network::signal::{Signal, SignalKind, Valuation};
use crate::network::view::{extends, lemma_models_extends, AigView};
use crate::unroll::{
    copied, latch_and, latch_mux, latched, lemma_copied, lemma_latched, lemma_unrolled_sound,
    lemma_unrolled_upto,
};
use vstd::prelude::*;

verus! {

/// How a copy of a network sees a valuation of the network that holds it:
/// the inputs from `offset` on, and for each node the value of the table's
/// entry for it.
pub open spec fn seen(v: Valuation, table: Seq<Signal>, offset: nat, nb_inputs: nat) -> Valuation {
    Valuation {
        inputs: Seq::new(nb_inputs, |k: int| v.inputs[offset + k]),
        nodes: Seq::new(table.len(), |i: int| table[i].eval(v)),
    }
}

/// A signal in a copy has the value that the signal has as the copy sees
/// it.
pub proof fn lemma_signal_seen(
    s: Signal,
    table: Seq<Signal>,
    offset: nat,
    nb_inputs: nat,
    v: Valuation,
)
    requires
        s.in_range(nb_inputs, table.len()),
        offset + nb_inputs <= u32::MAX + 1,
    ensures
        s.instantiated(table, offset).eval(v) == s.eval(seen(v, table, offset, nb_inputs)),
{
}

/// A gate in a copy has the value that it has as the copy sees it.
pub proof fn lemma_gate_seen(
    g: Gate,
    table: Seq<Signal>,
    offset: nat,
    nb_inputs: nat,
    v: Valuation,
    held: bool,
)
    requires
        g.in_range(nb_inputs, table.len()),
        offset + nb_inputs <= u32::MAX + 1,
    ensures
        g.instantiated(table, offset).eval(v, held) == g.eval(
            seen(v, table, offset, nb_inputs),
            held,
        ),
{
    let ops = g.operands();
    lemma_signal_seen(ops[0], table, offset, nb_inputs, v);
    lemma_signal_seen(ops[1], table, offset, nb_inputs, v);
    if ops.len() == 3 {
        lemma_signal_seen(ops[2], table, offset, nb_inputs, v);
    }
}

/// Two tables that agree on the entries below `upto` are seen alike
/// there.
proof fn lemma_seen_agree(
    v: Valuation,
    s: Seq<Signal>,
    t: Seq<Signal>,
    offset: nat,
    nb_inputs: nat,
    upto: nat,
)
    requires
        upto <= s.len(),
        upto <= t.len(),
        forall|i: int| 0 <= i < upto ==> #[trigger] s[i] == t[i],
    ensures
        agree(seen(v, s, offset, nb_inputs), seen(v, t, offset, nb_inputs), nb_inputs, upto),
{
    let a = seen(v, s, offset, nb_inputs);
    let b = seen(v, t, offset, nb_inputs);
    assert forall|i: int| 0 <= i < upto implies #[trigger] a.nodes[i] == b.nodes[i] by {
        assert(s[i] == t[i]);
    }
}

/// What a copy computes: in a valuation that gives each combinational
/// node of the network that holds the copy the value of its gate, the
/// entry of each combinational gate copied has the value that it has
/// as the copy sees the valuation. The entries of the other gates are as
/// they were.
pub proof fn lemma_copied_meaning(src: AigView, p: Progress, offset: nat, upto: nat, v: Valuation)
    requires
        src.consistent(),
        src.topo_sorted(),
        upto <= src.nodes.len(),
        p.table.len() == src.nodes.len(),
        offset + src.nb_inputs <= u32::MAX + 1,
        copied(src.nodes, p, offset, upto).net.nodes.len() <= u32::MAX,
        copied(src.nodes, p, offset, upto).net.models(v),
    ensures
        p.net.models(v),
        forall|i: int|
            0 <= i < upto && !((#[trigger] src.nodes[i]) is Dff) ==> copied(
                src.nodes,
                p,
                offset,
                upto,
            ).table[i].eval(v) == src.nodes[i].eval(
                seen(v, copied(src.nodes, p, offset, upto).table, offset, src.nb_inputs),
                false,
            ),
        forall|i: int|
            0 <= i < src.nodes.len() && ((#[trigger] src.nodes[i]) is Dff || i >= upto) ==> copied(
                src.nodes,
                p,
                offset,
                upto,
            ).table[i] == p.table[i],
    decreases upto,
{
    if upto > 0 {
        let n = src.nodes.len();
        let ni = src.nb_inputs;
        let before = copied(src.nodes, p, offset, (upto - 1) as nat);
        let after = copied(src.nodes, p, offset, upto);
        lemma_copied(src.nodes, p, offset, (upto - 1) as nat);
        let g = src.nodes[upto - 1];
        assert(g.in_range(ni, n));
        if g is Dff {
            lemma_copied_meaning(src, p, offset, (upto - 1) as nat, v);
        } else {
            let built = g.instantiated(before.table, offset);
            lemma_with_gate_size(before.net, built);
            lemma_with_gate_models(before.net, built, v);
            lemma_copied_meaning(src, p, offset, (upto - 1) as nat, v);
            let sb = seen(v, before.table, offset, ni);
            let sa = seen(v, after.table, offset, ni);
            lemma_seen_agree(v, before.table, after.table, offset, ni, (upto - 1) as nat);
            lemma_gate_seen(g, before.table, offset, ni, v, false);
            lemma_sorted_gate(src, upto - 1);
            lemma_eval_local(g, sb, sa, ni, (upto - 1) as nat, false);
            assert forall|i: int|
                0 <= i < upto && !((#[trigger] src.nodes[i]) is Dff) implies after.table[i].eval(v)
                == src.nodes[i].eval(sa, false) by {
                if i < upto - 1 {
                    lemma_sorted_gate(src, i);
                    lemma_seen_agree(v, before.table, after.table, offset, ni, i as nat);
                    lemma_eval_local(src.nodes[i], sb, sa, ni, i as nat, false);
                }
            }
        }
    }
}

/// What latching computes: in a valuation that gives each combinational
/// node of the network that holds the copy the value of its gate, the new
/// entry of each flip-flop passed has the value that the flip-flop takes,
/// given the values of the step and what it holds, both as the copy sees
/// them through the table of the step. The entries of the other gates are
/// as they were.
pub proof fn lemma_latched_meaning(src: AigView, p: Progress, offset: nat, upto: nat, v: Valuation)
    requires
        src.consistent(),
        upto <= src.nodes.len(),
        p.table.len() == src.nodes.len(),
        offset + src.nb_inputs <= u32::MAX + 1,
        p.net.nodes.len() + 2 * upto <= u32::MAX,
        latched(src.nodes, p, offset, upto).net.models(v),
    ensures
        p.net.models(v),
        forall|i: int|
            0 <= i < upto && (#[trigger] src.nodes[i]) is Dff ==> latched(
                src.nodes,
                p,
                offset,
                upto,
            ).table[i].eval(v) == src.nodes[i].eval(
                seen(v, p.table, offset, src.nb_inputs),
                p.table[i].eval(v),
            ),
        forall|i: int|
            0 <= i < src.nodes.len() && (!((#[trigger] src.nodes[i]) is Dff) || i >= upto)
                ==> latched(src.nodes, p, offset, upto).table[i] == p.table[i],
    decreases upto,
{
    if upto > 0 {
        let n = src.nodes.len();
        let ni = src.nb_inputs;
        let before = latched(src.nodes, p, offset, (upto - 1) as nat);
        let after = latched(src.nodes, p, offset, upto);
        lemma_latched(src.nodes, p, offset, (upto - 1) as nat);
        let g = src.nodes[upto - 1];
        if g is Dff {
            assert(g.in_range(ni, n));
            let held = p.table[upto - 1];
            let mux = latch_mux(g, p.table, offset, held);
            let taken = before.net.gate_signal(mux);
            let and = latch_and(g, p.table, offset, taken);
            let net = before.net.with_gate(mux);
            lemma_with_gate_size(before.net, mux);
            lemma_with_gate_models(net, and, v);
            lemma_with_gate_models(before.net, mux, v);
            lemma_latched_meaning(src, p, offset, (upto - 1) as nat, v);
            let ops = g.operands();
            lemma_signal_seen(ops[0], p.table, offset, ni, v);
            lemma_signal_seen(ops[1], p.table, offset, ni, v);
            lemma_signal_seen(ops[2], p.table, offset, ni, v);
        } else {
            lemma_latched_meaning(src, p, offset, (upto - 1) as nat, v);
        }
    }
}

/// The inputs of the first `t` steps of a trace, step after step.
pub open spec fn flat(trace: Seq<Seq<bool>>, t: nat) -> Seq<bool>
    decreases t,
{
    if t == 0 {
        Seq::empty()
    } else {
        flat(trace, (t - 1) as nat) + trace[t - 1]
    }
}

/// The outputs of the first `t` steps of a run, step after step.
pub open spec fn flat_outputs(net: AigView, trace: Seq<Seq<bool>>, t: nat) -> Seq<bool>
    decreases t,
{
    if t == 0 {
        Seq::empty()
    } else {
        flat_outputs(net, trace, (t - 1) as nat) + net.outputs_at(trace, (t - 1) as nat)
    }
}

/// The inputs of a trace, step after step, hold the inputs of each step in
/// their place.
pub proof fn lemma_flat(trace: Seq<Seq<bool>>, nb_inputs: nat, t: nat, s: nat, k: nat)
    requires
        t <= trace.len(),
        forall|u: int| 0 <= u < trace.len() ==> (#[trigger] trace[u]).len() == nb_inputs,
        s < t,
        k < nb_inputs,
    ensures
        flat(trace, t).len() == t * nb_inputs,
        s * nb_inputs + k < t * nb_inputs,
        flat(trace, t)[(s * nb_inputs + k) as int] == trace[s as int][k as int],
    decreases t,
{
    lemma_flat_len(trace, nb_inputs, t);
    lemma_flat_len(trace, nb_inputs, (t - 1) as nat);
    assert((t - 1) * nb_inputs + nb_inputs == t * nb_inputs) by (nonlinear_arith);
    if s < t - 1 {
        lemma_flat(trace, nb_inputs, (t - 1) as nat, s, k);
    } else {
        assert(s * nb_inputs + k - (t - 1) * nb_inputs == k);
    }
}

pub proof fn lemma_flat_len(trace: Seq<Seq<bool>>, nb_inputs: nat, t: nat)
    requires
        t <= trace.len(),
        forall|u: int| 0 <= u < trace.len() ==> (#[trigger] trace[u]).len() == nb_inputs,
    ensures
        flat(trace, t).len() == t * nb_inputs,
    decreases t,
{
    if t > 0 {
        lemma_flat_len(trace, nb_inputs, (t - 1) as nat);
        assert((t - 1) * nb_inputs + nb_inputs == t * nb_inputs) by (nonlinear_arith);
    } else {
        assert(0 * nb_inputs == 0);
    }
}

/// A signal has the same value under valuations that agree on what
/// exists.
proof fn lemma_signal_local(s: Signal, v: Valuation, w: Valuation, nb_inputs: nat, nb_nodes: nat)
    requires
        s.in_range(nb_inputs, nb_nodes),
        agree(v, w, nb_inputs, nb_nodes),
    ensures
        s.eval(v) == s.eval(w),
{
    match s.kind {
        SignalKind::Constant => {},
        SignalKind::Input(i) => {
            assert(v.inputs[i as int] == w.inputs[i as int]);
        },
        SignalKind::Node(i) => {
            assert(v.nodes[i as int] == w.nodes[i as int]);
        },
    }
}

/// What an unrolling computes: in a valuation of its inputs and nodes
/// that takes the inputs of a trace, step after step, and gives each node
/// the value of its gate, the entry of each flip-flop has the value that
/// the flip-flop holds after the steps done, and each output has the value
/// that the run on the trace gives it.
pub proof fn lemma_unrolled_meaning(
    src: AigView,
    steps: nat,
    t: nat,
    trace: Seq<Seq<bool>>,
    v: Valuation,
)
    requires
        src.consistent(),
        src.topo_sorted(),
        t <= steps,
        src.nb_inputs * steps <= u32::MAX,
        3 * src.nodes.len() * steps < u32::MAX,
        trace.len() == steps,
        forall|u: int| 0 <= u < trace.len() ==> (#[trigger] trace[u]).len() == src.nb_inputs,
        v.inputs == flat(trace, steps),
        src.unrolled_upto(steps, t).net.models(v),
    ensures
        forall|i: int|
            0 <= i < src.nodes.len() && (#[trigger] src.nodes[i]) is Dff ==> src.unrolled_upto(
                steps,
                t,
            ).table[i].eval(v) == src.held_after(trace, t)[i],
        src.unrolled_upto(steps, t).net.outputs.len() == flat_outputs(src, trace, t).len(),
        forall|p: int|
            0 <= p < src.unrolled_upto(steps, t).net.outputs.len() ==> (
            #[trigger] src.unrolled_upto(steps, t).net.outputs[p]).eval(v) == flat_outputs(
                src,
                trace,
                t,
            )[p],
    decreases t,
{
    let n = src.nodes.len();
    let ni = src.nb_inputs;
    if t > 0 {
        let q = src.unrolled_upto(steps, t);
        let before = src.unrolled_upto(steps, (t - 1) as nat);
        let offset = ((t - 1) * ni) as nat;
        let full = copied(src.nodes, before, offset, n);
        let after = latched(src.nodes, full, offset, n);
        lemma_unrolled_upto(src, steps, (t - 1) as nat);
        lemma_copied(src.nodes, before, offset, n);
        lemma_latched(src.nodes, full, offset, n);
        assert(3 * n * (t - 1) + 3 * n <= 3 * n * steps) by (nonlinear_arith)
            requires
                t <= steps,
                t >= 1,
                n >= 0,
        ;
        assert(offset + ni <= ni * steps) by (nonlinear_arith)
            requires
                offset == (t - 1) * ni,
                t <= steps,
                t >= 1,
                ni >= 0,
        ;
        assert(extends(q.net.nodes, after.net.nodes));
        lemma_models_extends(q.net, after.net, v);
        lemma_latched_meaning(src, full, offset, n, v);
        lemma_copied_meaning(src, before, offset, n, v);
        lemma_unrolled_meaning(src, steps, (t - 1) as nat, trace, v);
        let held = src.held_after(trace, (t - 1) as nat);
        let x = trace[t - 1];
        let sv = seen(v, full.table, offset, ni);
        assert(sv.inputs =~= x) by {
            assert forall|k: int| 0 <= k < ni implies sv.inputs[k] == x[k] by {
                lemma_flat(trace, ni, steps, (t - 1) as nat, k as nat);
            }
        }
        assert(follows(src, sv, held)) by {
            assert forall|i: int| 0 <= i < n implies sv.nodes[i] == if (
            #[trigger] src.nodes[i]) is Dff {
                held[i]
            } else {
                src.nodes[i].eval(sv, false)
            } by {
                if src.nodes[i] is Dff {
                    assert(full.table[i] == before.table[i]);
                }
            }
        }
        lemma_follows(src, sv, held, n);
        let w = src.valuation(x, held);
        assert(agree(sv, w, ni, n));
        assert forall|i: int| 0 <= i < n && (#[trigger] src.nodes[i]) is Dff implies q.table[i].eval(
            v,
        ) == src.held_after(trace, t)[i] by {
            assert(src.nodes[i].in_range(ni, n));
            assert(full.table[i] == before.table[i]);
            lemma_eval_local(src.nodes[i], sv, w, ni, n, held[i]);
        }
        let done = before.net.outputs;
        assert forall|p: int| 0 <= p < q.net.outputs.len() implies (#[trigger] q.net.outputs[p]).eval(
            v,
        ) == flat_outputs(src, trace, t)[p] by {
            if p < done.len() {
                assert(q.net.outputs[p] == done[p]);
            } else {
                let j = p - done.len();
                let s = src.outputs[j];
                assert(s.in_range(ni, n));
                lemma_signal_seen(s, full.table, offset, ni, v);
                lemma_signal_local(s, sv, w, ni, n);
            }
        }
    }
}

/// What the differences compute: each holds exactly where the two signals
/// of its pair differ.
pub proof fn lemma_compared_meaning(
    net: AigView,
    xs: Seq<Signal>,
    ys: Seq<Signal>,
    upto: nat,
    v: Valuation,
)
    requires
        net.nodes.len() + upto <= u32::MAX,
        compared(net, xs, ys, upto).net.models(v),
    ensures
        net.models(v),
        compared(net, xs, ys, upto).signals.len() == upto,
        net.nodes.len() <= compared(net, xs, ys, upto).net.nodes.len() <= net.nodes.len() + upto,
        forall|j: int|
            0 <= j < upto ==> #[trigger] compared(net, xs, ys, upto).signals[j].eval(v) == (
            xs[j].eval(v) != ys[j].eval(v)),
    decreases upto,
{
    if upto > 0 {
        let before = compared(net, xs, ys, (upto - 1) as nat);
        let g = Gate::Xor(xs[upto - 1], ys[upto - 1]);
        lemma_compared_size(net, xs, ys, (upto - 1) as nat);
        lemma_with_gate_size(before.net, g);
        lemma_with_gate_models(before.net, g, v);
        lemma_compared_meaning(net, xs, ys, (upto - 1) as nat, v);
    }
}

proof fn lemma_compared_size(net: AigView, xs: Seq<Signal>, ys: Seq<Signal>, upto: nat)
    ensures
        compared(net, xs, ys, upto).signals.len() == upto,
        net.nodes.len() <= compared(net, xs, ys, upto).net.nodes.len() <= net.nodes.len() + upto,
    decreases upto,
{
    if upto > 0 {
        lemma_compared_size(net, xs, ys, (upto - 1) as nat);
        let before = compared(net, xs, ys, (upto - 1) as nat);
        lemma_with_gate_size(before.net, Gate::Xor(xs[upto - 1], ys[upto - 1]));
    }
}

/// Whether every signal holds under the valuation.
pub open spec fn all_hold(signals: Seq<Signal>, v: Valuation) -> bool {
    forall|k: int| 0 <= k < signals.len() ==> (#[trigger] signals[k]).eval(v)
}

/// What a level of an And tree computes: each signal holds exactly where
/// the signals that it joins do.
pub proof fn lemma_paired_meaning(net: AigView, signals: Seq<Signal>, upto: nat, v: Valuation)
    requires
        2 * upto <= signals.len() + 1,
        net.nodes.len() + upto <= u32::MAX,
        paired(net, signals, false, upto).net.models(v),
    ensures
        net.models(v),
        forall|k: int|
            0 <= k < upto ==> #[trigger] paired(net, signals, false, upto).signals[k].eval(v) == (
            signals[2 * k].eval(v) && (2 * k + 1 < signals.len() ==> signals[2 * k + 1].eval(v))),
    decreases upto,
{
    if upto > 0 {
        let before = paired(net, signals, false, (upto - 1) as nat);
        lemma_paired(net, signals, false, (upto - 1) as nat);
        let k = upto - 1;
        if 2 * k + 1 < signals.len() {
            let g = join(false, signals[2 * k], signals[2 * k + 1]);
            lemma_with_gate_size(before.net, g);
            lemma_with_gate_models(before.net, g, v);
        }
        lemma_paired_meaning(net, signals, (upto - 1) as nat, v);
    }
}

/// What an And tree computes: its root holds exactly where every signal
/// does.
pub proof fn lemma_reduced_meaning(net: AigView, signals: Seq<Signal>, v: Valuation)
    requires
        net.nodes.len() + signals.len() <= u32::MAX,
        reduced(net, signals, false).0.models(v),
    ensures
        net.models(v),
        reduced(net, signals, false).1.eval(v) == all_hold(signals, v),
    decreases signals.len(),
{
    if signals.len() == 1 {
        assert(all_hold(signals, v) == signals[0].eval(v));
    } else if signals.len() > 1 {
        let half = ((signals.len() + 1) / 2) as nat;
        let level = paired(net, signals, false, half);
        lemma_paired(net, signals, false, half);
        lemma_paired_adds(net, signals, false, half);
        lemma_reduced_meaning(level.net, level.signals, v);
        lemma_paired_meaning(net, signals, half, v);
        if all_hold(signals, v) {
            assert forall|k: int| 0 <= k < level.signals.len() implies (
            #[trigger] level.signals[k]).eval(v) by {
                assert(signals[2 * k].eval(v));
                if 2 * k + 1 < signals.len() {
                    assert(signals[2 * k + 1].eval(v));
                }
            }
        }
        if all_hold(level.signals, v) {
            assert forall|i: int| 0 <= i < signals.len() implies (#[trigger] signals[i]).eval(v) by {
                let k = i / 2;
                assert(level.signals[k].eval(v));
            }
        }
    }
}

/// What a copy of a combinational network computes: each output in the
/// copy has the value that the network gives it on the inputs of the
/// valuation.
proof fn lemma_copy_outputs(src: AigView, p: Progress, v: Valuation, held: Seq<bool>, j: int)
    requires
        src.sound(),
        p.table.len() == src.nodes.len(),
        src.nb_inputs <= u32::MAX,
        p.net.nodes.len() + src.nodes.len() <= u32::MAX,
        copied(src.nodes, p, 0, src.nodes.len()).net.models(v),
        0 <= j < src.outputs.len(),
    ensures
        outputs_through(src.outputs, copied(src.nodes, p, 0, src.nodes.len()).table)[j].eval(v)
            == src.output_values(inputs_of(v, src.nb_inputs), held)[j],
{
    let n = src.nodes.len();
    let ni = src.nb_inputs;
    let q = copied(src.nodes, p, 0, n);
    lemma_copied(src.nodes, p, 0, n);
    lemma_copied_meaning(src, p, 0, n, v);
    let sv = seen(v, q.table, 0, ni);
    let x = inputs_of(v, ni);
    assert(sv.inputs =~= x);
    assert(follows(src, sv, held)) by {
        assert forall|i: int| 0 <= i < n implies sv.nodes[i] == if (#[trigger] src.nodes[i]) is Dff {
            held[i]
        } else {
            src.nodes[i].eval(sv, false)
        } by {
            assert(!(src.nodes[i] is Dff));
        }
    }
    lemma_follows(src, sv, held, n);
    let w = src.valuation(x, held);
    assert(agree(sv, w, ni, n));
    let s = src.outputs[j];
    assert(s.in_range(ni, n));
    lemma_signal_seen(s, q.table, 0, ni, v);
    lemma_signal_local(s, sv, w, ni, n);
}

/// What a miter computes: in a valuation that gives each node the value
/// of its gate, the miter's signal holds exactly where the two networks
/// give some output different values on the inputs of the valuation.
pub proof fn lemma_miter_meaning(a: AigView, b: AigView, v: Valuation, held: Seq<bool>)
    requires
        a.sound(),
        b.sound(),
        a.nb_inputs == b.nb_inputs,
        a.outputs.len() == b.outputs.len(),
        a.nb_inputs <= u32::MAX,
        a.nodes.len() + b.nodes.len() + 2 * a.outputs.len() <= u32::MAX,
        miter_of(a, b).models(v),
    ensures
        miter_signal(a, b).eval(v) == (a.output_values(inputs_of(v, a.nb_inputs), held)
            != b.output_values(inputs_of(v, a.nb_inputs), held)),
{
    let x = inputs_of(v, a.nb_inputs);
    let pa = first_copy(a);
    let pb = second_copy(a, b);
    let d = differences(a, b);
    let cs = complements(d.signals);
    let top = reduced(d.net, cs, false);
    let m = miter_of(a, b);
    lemma_miter_sound(a, b);
    let xs = outputs_through(a.outputs, pa.table);
    let ys = outputs_through(b.outputs, pb.table);
    assert(extends(m.nodes, top.0.nodes));
    lemma_models_extends(m, top.0, v);
    lemma_reduced(d.net, cs, false);
    lemma_reduced_meaning(d.net, cs, v);
    lemma_compared_meaning(pb.net, xs, ys, a.outputs.len(), v);
    let mid = Progress { net: pa.net, table: zeros(b.nodes.len()) };
    lemma_copied(b.nodes, mid, 0, b.nodes.len());
    lemma_copied_meaning(b, mid, 0, b.nodes.len(), v);
    lemma_copied(a.nodes, fresh(a), 0, a.nodes.len());
    let va = a.output_values(x, held);
    let vb = b.output_values(x, held);
    assert forall|j: int| 0 <= j < a.outputs.len() implies #[trigger] d.signals[j].eval(v) == (va[j]
        != vb[j]) by {
        lemma_copy_outputs(a, fresh(a), v, held, j);
        lemma_copy_outputs(b, mid, v, held, j);
    }
    if all_hold(cs, v) {
        assert forall|j: int| 0 <= j < va.len() implies va[j] == vb[j] by {
            assert(cs[j].eval(v));
            assert(!d.signals[j].eval(v));
        }
        assert(va =~= vb);
    } else {
        let k = choose|k: int| 0 <= k < cs.len() && !(#[trigger] cs[k]).eval(v);
        assert(d.signals[k].eval(v));
        assert(va[k] != vb[k]);
    }
}

/// Runs that give the same outputs, step after step, give the same
/// outputs at each step.
pub proof fn lemma_flat_outputs(a: AigView, b: AigView, trace: Seq<Seq<bool>>, t: nat)
    requires
        a.outputs.len() == b.outputs.len(),
        flat_outputs(a, trace, t) == flat_outputs(b, trace, t),
    ensures
        forall|u: int| 0 <= u < t ==> #[trigger] a.outputs_at(trace, u as nat) == b.outputs_at(
            trace,
            u as nat,
        ),
    decreases t,
{
    if t > 0 {
        let fa = flat_outputs(a, trace, (t - 1) as nat);
        let fb = flat_outputs(b, trace, (t - 1) as nat);
        let oa = a.outputs_at(trace, (t - 1) as nat);
        let ob = b.outputs_at(trace, (t - 1) as nat);
        lemma_flat_outputs_len(a, b, trace, (t - 1) as nat);
        assert(fa =~= fb) by {
            assert forall|i: int| 0 <= i < fa.len() implies fa[i] == fb[i] by {
                assert((fa + oa)[i] == (fb + ob)[i]);
            }
        }
        assert(oa =~= ob) by {
            assert forall|i: int| 0 <= i < oa.len() implies oa[i] == ob[i] by {
                assert((fa + oa)[fa.len() + i] == (fb + ob)[fb.len() + i]);
            }
        }
        lemma_flat_outputs(a, b, trace, (t - 1) as nat);
    }
}

proof fn lemma_flat_outputs_len(a: AigView, b: AigView, trace: Seq<Seq<bool>>, t: nat)
    requires
        a.outputs.len() == b.outputs.len(),
    ensures
        flat_outputs(a, trace, t).len() == flat_outputs(b, trace, t).len(),
    decreases t,
{
    if t > 0 {
        lemma_flat_outputs_len(a, b, trace, (t - 1) as nat);
    }
}

/// Whether some signal holds under the valuation.
pub open spec fn any_holds(signals: Seq<Signal>, v: Valuation) -> bool {
    exists|k: int| 0 <= k < signals.len() && (#[trigger] signals[k]).eval(v)
}

/// Whether an odd number of the first `upto` signals hold under the
/// valuation.
pub open spec fn parity(signals: Seq<Signal>, v: Valuation, upto: nat) -> bool
    decreases upto,
{
    if upto == 0 {
        false
    } else {
        parity(signals, v, (upto - 1) as nat) != signals[upto - 1].eval(v)
    }
}

/// What a level of a Xor tree computes: each signal holds exactly where
/// one of the two signals that it joins does; so the level has the parity
/// of the signals that it joins.
pub proof fn lemma_paired_parity(net: AigView, signals: Seq<Signal>, upto: nat, v: Valuation)
    requires
        2 * upto <= signals.len() + 1,
        net.nodes.len() + upto <= u32::MAX,
        paired(net, signals, true, upto).net.models(v),
    ensures
        net.models(v),
        parity(paired(net, signals, true, upto).signals, v, upto) == parity(
            signals,
            v,
            if 2 * upto <= signals.len() {
                2 * upto
            } else {
                signals.len()
            },
        ),
    decreases upto,
{
    if upto > 0 {
        let before = paired(net, signals, true, (upto - 1) as nat);
        let after = paired(net, signals, true, upto);
        lemma_paired(net, signals, true, (upto - 1) as nat);
        lemma_paired(net, signals, true, upto);
        let k = upto - 1;
        if 2 * k + 1 < signals.len() {
            let g = join(true, signals[2 * k], signals[2 * k + 1]);
            lemma_with_gate_size(before.net, g);
            lemma_with_gate_models(before.net, g, v);
        }
        lemma_paired_parity(net, signals, (upto - 1) as nat, v);
        lemma_parity_prefix(after.signals, before.signals, v, (upto - 1) as nat);
        if 2 * k + 1 < signals.len() {
            assert(parity(signals, v, (2 * k + 2) as nat) == (parity(signals, v, (2 * k) as nat)
                != signals[2 * k].eval(v)) != signals[2 * k + 1].eval(v)) by {
                assert(parity(signals, v, (2 * k + 1) as nat) == (parity(
                    signals,
                    v,
                    (2 * k) as nat,
                ) != signals[2 * k].eval(v)));
            }
        }
    }
}

/// The parity of the first signals depends on these signals alone.
proof fn lemma_parity_prefix(s: Seq<Signal>, t: Seq<Signal>, v: Valuation, upto: nat)
    requires
        upto <= s.len(),
        upto <= t.len(),
        forall|i: int| 0 <= i < upto ==> #[trigger] s[i] == t[i],
    ensures
        parity(s, v, upto) == parity(t, v, upto),
    decreases upto,
{
    if upto > 0 {
        lemma_parity_prefix(s, t, v, (upto - 1) as nat);
        assert(s[upto - 1] == t[upto - 1]);
    }
}

/// What a Xor tree computes: its root holds exactly where an odd number
/// of the signals do.
pub proof fn lemma_reduced_parity(net: AigView, signals: Seq<Signal>, v: Valuation)
    requires
        net.nodes.len() + signals.len() <= u32::MAX,
        reduced(net, signals, true).0.models(v),
    ensures
        net.models(v),
        reduced(net, signals, true).1.eval(v) == parity(signals, v, signals.len()),
    decreases signals.len(),
{
    if signals.len() == 1 {
        assert(parity(signals, v, 1) == (parity(signals, v, 0) != signals[0].eval(v)));
    } else if signals.len() > 1 {
        let half = ((signals.len() + 1) / 2) as nat;
        let level = paired(net, signals, true, half);
        lemma_paired(net, signals, true, half);
        lemma_paired_adds(net, signals, true, half);
        lemma_reduced_parity(level.net, level.signals, v);
        lemma_paired_parity(net, signals, half, v);
    }
}

/// What an unrolled network gives: on the inputs of a trace, step after
/// step, the outputs of the run on the trace, step after step.
pub proof fn lemma_unrolled_run(
    src: AigView,
    steps: nat,
    trace: Seq<Seq<bool>>,
    held: Seq<bool>,
)
    requires
        src.consistent(),
        src.topo_sorted(),
        src.nb_inputs * steps <= u32::MAX,
        3 * src.nodes.len() * steps < u32::MAX,
        trace.len() == steps,
        forall|u: int| 0 <= u < trace.len() ==> (#[trigger] trace[u]).len() == src.nb_inputs,
    ensures
        src.unrolled(steps).output_values(flat(trace, steps), held) == flat_outputs(
            src,
            trace,
            steps,
        ),
{
    let u = src.unrolled(steps);
    let x = flat(trace, steps);
    lemma_unrolled_sound(src, steps, steps);
    lemma_valuation_follows(u, x, held);
    lemma_unrolled_meaning(src, steps, steps, trace, u.valuation(x, held));
    assert(u.output_values(x, held) =~= flat_outputs(src, trace, steps));
}

/// Runs that give the same outputs at each step give the same outputs,
/// step after step.
pub proof fn lemma_flat_outputs_same(a: AigView, b: AigView, trace: Seq<Seq<bool>>, t: nat)
    requires
        t <= trace.len(),
        a.run(trace) == b.run(trace),
    ensures
        flat_outputs(a, trace, t) == flat_outputs(b, trace, t),
    decreases t,
{
    if t > 0 {
        lemma_flat_outputs_same(a, b, trace, (t - 1) as nat);
        assert(a.run(trace)[t - 1] == a.outputs_at(trace, (t - 1) as nat));
        assert(b.run(trace)[t - 1] == b.outputs_at(trace, (t - 1) as nat));
    }
}

} // verus!
