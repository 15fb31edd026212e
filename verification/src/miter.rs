//! The miter of two combinational networks: both built over the same
//! inputs in one network, with one signal that tells whether some output
//! differs.

use crate::network::aig::Aig;
use crate::network::view::{extends, first_index, lemma_first_index, AigView};
use crate::network::dedup::Progress;
use crate::network::gates::{Gate, Normalization};
use crate::network::nary::{
    complements, join, lemma_paired, lemma_reduced, lemma_with_gate_size, paired, reduced, Built,
};
use crate::network::signal::{Signal, SignalKind, Valuation};
use crate::unroll::{
    copied, copy_gates, entry_fits, lemma_copied, lemma_copied_grows, lemma_copied_sound,
    lemma_with_gate_sound,
};
use core::ops::Not;
use vstd::prelude::*;

verus! {

/// The values that a valuation gives to the first `nb_inputs` inputs.
pub open spec fn inputs_of(v: Valuation, nb_inputs: nat) -> Seq<bool> {
    Seq::new(nb_inputs, |k: int| v.inputs[k])
}

/// A table of `len` entries, each the constant 0.
pub open spec fn zeros(len: nat) -> Seq<Signal> {
    Seq::new(len, |i: int| Signal::constant(false))
}

/// The outputs of a network in a copy of it over the same inputs.
pub open spec fn outputs_through(outputs: Seq<Signal>, table: Seq<Signal>) -> Seq<Signal> {
    Seq::new(outputs.len(), |j: int| outputs[j].instantiated(table, 0))
}

/// The first `upto` differences: the Xor of each pair of signals, built in
/// the network.
pub open spec fn compared(net: AigView, xs: Seq<Signal>, ys: Seq<Signal>, upto: nat) -> Built
    decreases upto,
{
    if upto == 0 {
        Built { net, signals: Seq::empty() }
    } else {
        let before = compared(net, xs, ys, (upto - 1) as nat);
        let g = Gate::Xor(xs[upto - 1], ys[upto - 1]);
        Built {
            net: before.net.with_gate(g),
            signals: before.signals.push(before.net.gate_signal(g)),
        }
    }
}

/// An empty network with the inputs of `a`, and a table of zeros for it.
pub open spec fn fresh(a: AigView) -> Progress {
    Progress {
        net: AigView { nb_inputs: a.nb_inputs, nodes: Seq::empty(), outputs: Seq::empty() },
        table: zeros(a.nodes.len()),
    }
}

/// The first network copied into an empty one.
pub open spec fn first_copy(a: AigView) -> Progress {
    copied(a.nodes, fresh(a), 0, a.nodes.len())
}

/// The second network copied beside the first.
pub open spec fn second_copy(a: AigView, b: AigView) -> Progress {
    copied(
        b.nodes,
        Progress { net: first_copy(a).net, table: zeros(b.nodes.len()) },
        0,
        b.nodes.len(),
    )
}

/// The differences of the outputs, pair by pair.
pub open spec fn differences(a: AigView, b: AigView) -> Built {
    compared(
        second_copy(a, b).net,
        outputs_through(a.outputs, first_copy(a).table),
        outputs_through(b.outputs, second_copy(a, b).table),
        a.outputs.len(),
    )
}

/// The signal that holds exactly where some output of the two networks
/// differs: the Or of the differences.
pub open spec fn miter_signal(a: AigView, b: AigView) -> Signal {
    let d = differences(a, b);
    reduced(d.net, complements(d.signals), false).1.complement()
}

/// The miter of two networks over the same inputs: both networks, the
/// differences of their outputs and the Or of these, which is the one
/// output.
pub open spec fn miter_of(a: AigView, b: AigView) -> AigView {
    let d = differences(a, b);
    let net = reduced(d.net, complements(d.signals), false).0;
    AigView { nb_inputs: net.nb_inputs, nodes: net.nodes, outputs: seq![miter_signal(a, b)] }
}

/// Whether each signal refers to what exists in the network.
pub open spec fn all_in_range(signals: Seq<Signal>, net: AigView) -> bool {
    forall|i: int|
        0 <= i < signals.len() ==> (#[trigger] signals[i]).in_range(net.nb_inputs, net.nodes.len())
}

/// Comparing signals that exist keeps a network sound, and the
/// differences exist.
pub proof fn lemma_compared(net: AigView, xs: Seq<Signal>, ys: Seq<Signal>, upto: nat)
    requires
        net.sound(),
        upto <= xs.len(),
        upto <= ys.len(),
        all_in_range(xs, net),
        all_in_range(ys, net),
    ensures
        compared(net, xs, ys, upto).net.sound(),
        compared(net, xs, ys, upto).signals.len() == upto,
        all_in_range(compared(net, xs, ys, upto).signals, compared(net, xs, ys, upto).net),
        net.nodes.len() <= compared(net, xs, ys, upto).net.nodes.len() <= net.nodes.len() + upto,
        compared(net, xs, ys, upto).net.nb_inputs == net.nb_inputs,
        compared(net, xs, ys, upto).net.outputs == net.outputs,
    decreases upto,
{
    if upto > 0 {
        lemma_compared(net, xs, ys, (upto - 1) as nat);
        let before = compared(net, xs, ys, (upto - 1) as nat);
        let g = Gate::Xor(xs[upto - 1], ys[upto - 1]);
        assert(xs[upto - 1].in_range(net.nb_inputs, net.nodes.len()));
        assert(ys[upto - 1].in_range(net.nb_inputs, net.nodes.len()));
        lemma_with_gate_sound(before.net, g);
        lemma_with_gate_size(before.net, g);
        let after = compared(net, xs, ys, upto);
        assert forall|i: int| 0 <= i < after.signals.len() implies (
        #[trigger] after.signals[i]).in_range(after.net.nb_inputs, after.net.nodes.len()) by {
            if i < upto - 1 {
                assert(before.signals[i].in_range(before.net.nb_inputs, before.net.nodes.len()));
            }
        }
    }
}

/// A level of a tree over signals that exist keeps a network sound, and
/// its signals exist.
pub proof fn lemma_paired_sound(net: AigView, signals: Seq<Signal>, xor: bool, upto: nat)
    requires
        net.sound(),
        2 * upto <= signals.len() + 1,
        all_in_range(signals, net),
    ensures
        paired(net, signals, xor, upto).net.sound(),
        all_in_range(paired(net, signals, xor, upto).signals, paired(net, signals, xor, upto).net),
    decreases upto,
{
    if upto > 0 {
        lemma_paired_sound(net, signals, xor, (upto - 1) as nat);
        lemma_paired(net, signals, xor, (upto - 1) as nat);
        let before = paired(net, signals, xor, (upto - 1) as nat);
        let after = paired(net, signals, xor, upto);
        let k = upto - 1;
        assert(signals[2 * k].in_range(net.nb_inputs, net.nodes.len()));
        if 2 * k + 1 < signals.len() {
            assert(signals[2 * k + 1].in_range(net.nb_inputs, net.nodes.len()));
            let g = join(xor, signals[2 * k], signals[2 * k + 1]);
            lemma_with_gate_sound(before.net, g);
            lemma_with_gate_size(before.net, g);
        }
        assert forall|i: int| 0 <= i < after.signals.len() implies (
        #[trigger] after.signals[i]).in_range(after.net.nb_inputs, after.net.nodes.len()) by {
            if i < upto - 1 {
                assert(before.signals[i].in_range(before.net.nb_inputs, before.net.nodes.len()));
            }
        }
    }
}

/// A tree over signals that exist keeps a network sound, and its root
/// exists.
pub proof fn lemma_reduced_sound(net: AigView, signals: Seq<Signal>, xor: bool)
    requires
        net.sound(),
        all_in_range(signals, net),
    ensures
        reduced(net, signals, xor).0.sound(),
        reduced(net, signals, xor).1.in_range(
            net.nb_inputs,
            reduced(net, signals, xor).0.nodes.len(),
        ),
    decreases signals.len(),
{
    lemma_reduced(net, signals, xor);
    if signals.len() == 1 {
        assert(signals[0].in_range(net.nb_inputs, net.nodes.len()));
    } else if signals.len() > 1 {
        let half = ((signals.len() + 1) / 2) as nat;
        let level = paired(net, signals, xor, half);
        lemma_paired(net, signals, xor, half);
        lemma_paired_sound(net, signals, xor, half);
        lemma_reduced_sound(level.net, level.signals, xor);
        lemma_reduced(level.net, level.signals, xor);
    }
}

/// The miter of two sound networks over the same inputs is sound, and no
/// larger than the two networks and their differences together.
pub proof fn lemma_miter_sound(a: AigView, b: AigView)
    requires
        a.sound(),
        b.sound(),
        a.nb_inputs == b.nb_inputs,
        a.outputs.len() == b.outputs.len(),
        a.nb_inputs <= u32::MAX,
    ensures
        miter_of(a, b).sound(),
        miter_of(a, b).nb_inputs == a.nb_inputs,
        miter_of(a, b).nodes.len() <= a.nodes.len() + b.nodes.len() + 2 * a.outputs.len(),
        first_copy(a).net.nodes.len() <= a.nodes.len(),
        second_copy(a, b).net.nodes.len() <= a.nodes.len() + b.nodes.len(),
        differences(a, b).net.nodes.len() <= a.nodes.len() + b.nodes.len() + a.outputs.len(),
        differences(a, b).signals.len() == a.outputs.len(),
        first_copy(a).table.len() == a.nodes.len(),
        second_copy(a, b).table.len() == b.nodes.len(),
        second_copy(a, b).net.sound(),
        all_in_range(outputs_through(a.outputs, first_copy(a).table), second_copy(a, b).net),
        all_in_range(outputs_through(b.outputs, second_copy(a, b).table), second_copy(a, b).net),
{
    let pa = first_copy(a);
    lemma_copied(a.nodes, fresh(a), 0, a.nodes.len());
    lemma_copied_sound(a, fresh(a), 0, a.nodes.len());
    let mid = Progress { net: pa.net, table: zeros(b.nodes.len()) };
    let pb = second_copy(a, b);
    lemma_copied(b.nodes, mid, 0, b.nodes.len());
    lemma_copied_sound(b, mid, 0, b.nodes.len());
    let xs = outputs_through(a.outputs, pa.table);
    let ys = outputs_through(b.outputs, pb.table);
    assert forall|j: int| 0 <= j < xs.len() implies (#[trigger] xs[j]).in_range(
        pb.net.nb_inputs,
        pb.net.nodes.len(),
    ) by {
        assert(a.outputs[j].in_range(a.nb_inputs, a.nodes.len()));
        if let SignalKind::Node(w) = a.outputs[j].kind {
            assert(entry_fits(pa, w as int));
        }
    }
    assert forall|j: int| 0 <= j < ys.len() implies (#[trigger] ys[j]).in_range(
        pb.net.nb_inputs,
        pb.net.nodes.len(),
    ) by {
        assert(b.outputs[j].in_range(b.nb_inputs, b.nodes.len()));
        if let SignalKind::Node(w) = b.outputs[j].kind {
            assert(entry_fits(pb, w as int));
        }
    }
    lemma_compared(pb.net, xs, ys, a.outputs.len());
    let d = differences(a, b);
    let cs = complements(d.signals);
    assert forall|i: int| 0 <= i < cs.len() implies (#[trigger] cs[i]).in_range(
        d.net.nb_inputs,
        d.net.nodes.len(),
    ) by {
        assert(d.signals[i].in_range(d.net.nb_inputs, d.net.nodes.len()));
    }
    lemma_reduced_sound(d.net, cs, false);
    lemma_reduced(d.net, cs, false);
    let net = reduced(d.net, cs, false).0;
    let m = miter_of(a, b);
    assert forall|i: int| 0 <= i < m.nodes.len() implies (#[trigger] m.nodes[i]).in_range(
        m.nb_inputs,
        m.nodes.len(),
    ) by {
        assert(net.nodes[i].in_range(net.nb_inputs, net.nodes.len()));
    }
    assert forall|i: int, v: u32|
        0 <= i < m.nodes.len() && (#[trigger] m.nodes[i].comb_depends_on(v)) implies v < i by {
        assert(net.nodes[i].comb_depends_on(v));
    }
    assert forall|i: int| 0 <= i < m.nodes.len() implies !((#[trigger] m.nodes[i]) is Dff) by {
        assert(!(net.nodes[i] is Dff));
    }
}

/// Builds the miter of two sound networks over the same inputs, and
/// returns it with its signal. Wherever each node of the miter has the
/// value of its gate, the signal holds exactly where the two networks give
/// some output different values on the inputs.
pub fn miter(a: &Aig, b: &Aig) -> (r: (Aig, Signal))
    requires
        a.wf(),
        b.wf(),
        a@.sound(),
        b@.sound(),
        a@.nb_inputs == b@.nb_inputs,
        a@.outputs.len() == b@.outputs.len(),
        a@.nodes.len() + b@.nodes.len() + 2 * a@.outputs.len() < u32::MAX,
    ensures
        r.0.wf(),
        r.0@ == miter_of(a@, b@),
        r.1 == miter_signal(a@, b@),
        r.0@.sound(),
        forall|v: Valuation, held: Seq<bool>|
            r.0@.models(v) ==> r.1.eval(v) == (#[trigger] a@.output_values(
                inputs_of(v, a@.nb_inputs),
                held,
            ) != b@.output_values(inputs_of(v, a@.nb_inputs), held)),
{
    proof {
        a.lemma_wf_bounds();
        lemma_miter_sound(a@, b@);
        assert forall|v: Valuation, held: Seq<bool>| miter_of(a@, b@).models(v) implies miter_signal(
            a@,
            b@,
        ).eval(v) == (#[trigger] a@.output_values(
            inputs_of(v, a@.nb_inputs),
            held,
        ) != b@.output_values(inputs_of(v, a@.nb_inputs), held)) by {
            crate::meaning::lemma_miter_meaning(a@, b@, v, held);
        }
    }
    let mut m = Aig::new();
    m.add_inputs(a.nb_inputs());
    assert(m@.nodes =~= Seq::empty());
    assert(m@.outputs =~= Seq::empty());
    let mut ta = zero_table(a.nb_nodes());
    copy_gates(&mut m, a, &mut ta, 0);
    assert((Progress { net: m@, table: ta@ }) == first_copy(a@));
    let mut tb = zero_table(b.nb_nodes());
    copy_gates(&mut m, b, &mut tb, 0);
    assert((Progress { net: m@, table: tb@ }) == second_copy(a@, b@));
    let ghost start = m@;
    let ghost xs = outputs_through(a@.outputs, ta@);
    let ghost ys = outputs_through(b@.outputs, tb@);
    let mut diffs: Vec<Signal> = Vec::new();
    let mut j: usize = 0;
    while j < a.nb_outputs()
        invariant
            j <= a@.outputs.len(),
            a.wf(),
            b.wf(),
            m.wf(),
            a@.consistent(),
            b@.consistent(),
            a@.nb_inputs == b@.nb_inputs,
            a@.outputs.len() == b@.outputs.len(),
            ta@.len() == a@.nodes.len(),
            tb@.len() == b@.nodes.len(),
            start.nodes.len() + a@.outputs.len() < u32::MAX,
            a@.nb_inputs <= u32::MAX,
            start.sound(),
            all_in_range(xs, start),
            all_in_range(ys, start),
            xs == outputs_through(a@.outputs, ta@),
            ys == outputs_through(b@.outputs, tb@),
            (Built { net: m@, signals: diffs@ }) == compared(start, xs, ys, j as nat),
        decreases a@.outputs.len() - j,
    {
        proof {
            lemma_compared(start, xs, ys, j as nat);
            assert(a@.outputs[j as int].in_range(a@.nb_inputs, a@.nodes.len()));
            assert(b@.outputs[j as int].in_range(b@.nb_inputs, b@.nodes.len()));
        }
        let x = a.output(j).instantiate(ta.as_slice(), 0);
        let y = b.output(j).instantiate(tb.as_slice(), 0);
        let s = m.xor(x, y);
        diffs.push(s);
        j += 1;
    }
    proof {
        lemma_compared(start, xs, ys, a@.outputs.len());
        lemma_copied(a@.nodes, fresh(a@), 0, a@.nodes.len());
        lemma_copied(
            b@.nodes,
            Progress { net: first_copy(a@).net, table: zeros(b@.nodes.len()) },
            0,
            b@.nodes.len(),
        );
        lemma_reduced(m@, complements(diffs@), false);
        assert(start.outputs =~= Seq::empty());
    }
    let diff = m.or_n(&diffs);
    m.add_output(diff);
    assert(m@.outputs =~= seq![diff]);
    (m, diff)
}

/// A table of `len` entries, each the constant 0.
fn zero_table(len: usize) -> (table: Vec<Signal>)
    ensures
        table@ == zeros(len as nat),
{
    let mut table: Vec<Signal> = Vec::new();
    let mut i: usize = 0;
    while i < len
        invariant
            i <= len,
            table@ == zeros(i as nat),
        decreases len - i,
    {
        table.push(Signal::zero());
        assert(table@ =~= zeros((i + 1) as nat));
        i += 1;
    }
    table
}

/// A gate found among the first gates of a sequence is found there in the
/// whole sequence.
proof fn lemma_first_index_extends(pre: Seq<Gate>, full: Seq<Gate>, g: Gate)
    requires
        extends(full, pre),
        first_index(pre, g) < pre.len(),
    ensures
        first_index(full, g) == first_index(pre, g),
    decreases full.len(),
{
    if full.len() == pre.len() {
        assert(full =~= pre);
    } else {
        let front = full.drop_last();
        assert forall|i: int| 0 <= i < pre.len() implies #[trigger] front[i] == pre[i] by {
            assert(full[i] == pre[i]);
        }
        lemma_first_index_extends(pre, front, g);
    }
}

/// Building a gate in a network that begins with the network in which it
/// was built before changes nothing, and gives the same signal.
proof fn lemma_build_again(net: AigView, full: AigView, g: Gate)
    requires
        extends(full.nodes, net.with_gate(g).nodes),
    ensures
        full.with_gate(g) == full,
        full.gate_signal(g) == net.gate_signal(g),
{
    match g.normalized() {
        Normalization::Buf(_) => {},
        Normalization::Node(c, _) => {
            lemma_first_index(net.nodes, c);
            let built = net.with_gate(g).nodes;
            if first_index(net.nodes, c) < net.nodes.len() {
                assert(built == net.nodes);
            } else {
                assert(built == net.nodes.push(c));
                assert(built.drop_last() =~= net.nodes);
                assert(first_index(built, c) == net.nodes.len());
            }
            lemma_first_index_extends(built, full.nodes, c);
        },
    }
}

/// A gate in a copy of its network depends on the table's entries for its
/// operands alone.
proof fn lemma_instantiated_agree(g: Gate, s: Seq<Signal>, t: Seq<Signal>, offset: nat)
    requires
        forall|w: u32| #[trigger] g.depends_on(w) ==> s[w as int] == t[w as int],
    ensures
        g.instantiated(s, offset) == g.instantiated(t, offset),
{
    let ops = g.operands();
    assert forall|k: int| 0 <= k < ops.len() implies (#[trigger] ops[k]).instantiated(s, offset)
        == ops[k].instantiated(t, offset) by {
        if let SignalKind::Node(w) = ops[k].kind {
            assert(g.depends_on(w));
        }
    }
    assert(ops[0].instantiated(s, offset) == ops[0].instantiated(t, offset));
    assert(ops[1].instantiated(s, offset) == ops[1].instantiated(t, offset));
    if ops.len() == 3 {
        assert(ops[2].instantiated(s, offset) == ops[2].instantiated(t, offset));
    }
}

/// Copying a network beside its own copy builds nothing, and gives each
/// node the signal that it has in the first copy.
proof fn lemma_copied_again(a: AigView, k: nat)
    requires
        a.sound(),
        k <= a.nodes.len(),
    ensures
        copied(
            a.nodes,
            Progress { net: first_copy(a).net, table: zeros(a.nodes.len()) },
            0,
            k,
        ).net == first_copy(a).net,
        copied(
            a.nodes,
            Progress { net: first_copy(a).net, table: zeros(a.nodes.len()) },
            0,
            k,
        ).table.len() == a.nodes.len(),
        forall|i: int|
            0 <= i < k ==> #[trigger] copied(
                a.nodes,
                Progress { net: first_copy(a).net, table: zeros(a.nodes.len()) },
                0,
                k,
            ).table[i] == first_copy(a).table[i],
    decreases k,
{
    let n = a.nodes.len();
    let pa = first_copy(a);
    let again = Progress { net: pa.net, table: zeros(n) };
    lemma_copied(a.nodes, again, 0, k);
    if k > 0 {
        lemma_copied_again(a, (k - 1) as nat);
        let q = copied(a.nodes, again, 0, (k - 1) as nat);
        let p = copied(a.nodes, fresh(a), 0, (k - 1) as nat);
        let raw = a.nodes[k - 1];
        assert(!(raw is Dff));
        lemma_copied(a.nodes, fresh(a), 0, (k - 1) as nat);
        lemma_copied(a.nodes, fresh(a), 0, k);
        lemma_copied(a.nodes, fresh(a), 0, n);
        lemma_copied(a.nodes, again, 0, (k - 1) as nat);
        lemma_copied_grows(a.nodes, fresh(a), 0, (k - 1) as nat, n);
        lemma_copied_grows(a.nodes, fresh(a), 0, k, n);
        assert forall|w: u32| #[trigger] raw.depends_on(w) implies q.table[w as int]
            == p.table[w as int] by {
            assert(raw.comb_depends_on(w));
            assert(q.table[w as int] == pa.table[w as int]);
            assert(pa.table[w as int] == p.table[w as int]);
        }
        lemma_instantiated_agree(raw, q.table, p.table, 0);
        let g = raw.instantiated(p.table, 0);
        lemma_build_again(p.net, pa.net, g);
        let after = copied(a.nodes, again, 0, k);
        let first = copied(a.nodes, fresh(a), 0, k);
        assert(first.table[k - 1] == p.net.gate_signal(g));
        assert(pa.table[k - 1] == first.table[k - 1]);
        assert forall|i: int| 0 <= i < k implies #[trigger] after.table[i] == pa.table[i] by {
            if i < k - 1 {
                assert(q.table[i] == pa.table[i]);
            }
        }
    }
}

/// The differences of signals with themselves are all 0, and build
/// nothing.
proof fn lemma_compared_same(net: AigView, xs: Seq<Signal>, upto: nat)
    requires
        upto <= xs.len(),
    ensures
        compared(net, xs, xs, upto) == (Built { net, signals: zeros(upto) }),
    decreases upto,
{
    if upto > 0 {
        lemma_compared_same(net, xs, (upto - 1) as nat);
        let g = Gate::Xor(xs[upto - 1], xs[upto - 1]);
        assert(g.normalized() == Normalization::Buf(Signal::constant(false))) by {
            reveal(Gate::normalized);
        }
        assert(zeros((upto - 1) as nat).push(Signal::constant(false)) =~= zeros(upto));
    } else {
        assert(zeros(0) =~= Seq::empty());
    }
}

/// A table of `len` entries, each the constant 1.
pub open spec fn ones(len: nat) -> Seq<Signal> {
    Seq::new(len, |i: int| Signal::constant(true))
}

proof fn lemma_paired_ones(net: AigView, len: nat, upto: nat)
    requires
        2 * upto <= len + 1,
    ensures
        paired(net, ones(len), false, upto) == (Built { net, signals: ones(upto) }),
    decreases upto,
{
    if upto > 0 {
        lemma_paired_ones(net, len, (upto - 1) as nat);
        let g = Gate::And(Signal::constant(true), Signal::constant(true));
        assert(g.normalized() == Normalization::Buf(Signal::constant(true))) by {
            reveal(Gate::normalized);
        }
        assert(ones((upto - 1) as nat).push(Signal::constant(true)) =~= ones(upto));
    } else {
        assert(ones(0) =~= Seq::empty());
    }
}

/// The And of constants 1 is the constant 1, and builds nothing.
proof fn lemma_reduced_ones(net: AigView, len: nat)
    ensures
        reduced(net, ones(len), false) == (net, Signal::constant(true)),
    decreases len,
{
    if len > 1 {
        let half = ((len + 1) / 2) as nat;
        lemma_paired_ones(net, len, half);
        lemma_reduced_ones(net, half);
    }
}

/// The miter of a network with itself tells that no output differs: its
/// signal is the constant 0.
pub proof fn lemma_miter_same(a: AigView)
    requires
        a.sound(),
    ensures
        miter_signal(a, a) == Signal::constant(false),
{
    let n = a.nodes.len();
    let pa = first_copy(a);
    let pb = second_copy(a, a);
    lemma_copied_again(a, n);
    lemma_copied(a.nodes, fresh(a), 0, n);
    assert(pb.table =~= pa.table);
    let xs = outputs_through(a.outputs, pa.table);
    lemma_compared_same(pb.net, xs, a.outputs.len());
    let d = differences(a, a);
    assert(complements(d.signals) =~= ones(a.outputs.len()));
    lemma_reduced_ones(d.net, a.outputs.len());
}

} // verus!
