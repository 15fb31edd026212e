//! What the passes over a network preserve: the values of the outputs, at
//! each step of every run.

use super::eval::{
    agree, follows, lemma_eval_local, lemma_follows, lemma_node_values, lemma_valuation_follows,
};
use super::gates::{Gate, Normalization};
use super::nary::lemma_with_gate_size;
use super::reach::{lemma_reachable_output, lemma_reachable_step};
use super::signal::{Signal, SignalKind, Valuation};
use super::topo::is_topo_order;
use super::view::{
    first_index, is_selection, lemma_first_index, lemma_reordered_sorted, lemma_selected,
    lemma_swept, lemma_translation, translation, AigView,
};
use crate::meaning::{lemma_copied_meaning, lemma_gate_seen, lemma_signal_seen, seen};
use crate::unroll::{copied, lemma_copied, lemma_copied_grows};
use vstd::prelude::*;

verus! {

/// Whether every node to which a gate that stays, or an output, refers
/// stays too.
pub open spec fn kept_whole(net: AigView, order: Seq<u32>) -> bool {
    &&& forall|k: int, w: u32|
        0 <= k < order.len() && (#[trigger] net.nodes[order[k] as int].depends_on(w))
            ==> translation(order, net.nodes.len())[w as int].kind is Node
    &&& forall|j: int|
        0 <= j < net.outputs.len() ==> ((#[trigger] net.outputs[j]).kind matches SignalKind::Node(w)
            ==> translation(order, net.nodes.len())[w as int].kind is Node)
}

/// The values of the nodes that stay, in their new order.
pub open spec fn moved(values: Seq<bool>, order: Seq<u32>) -> Seq<bool> {
    Seq::new(order.len(), |k: int| values[order[k] as int])
}

/// A valuation of the reordered network: the inputs as they are, the
/// nodes in their new order.
pub open spec fn moved_valuation(v: Valuation, order: Seq<u32>) -> Valuation {
    Valuation { inputs: v.inputs, nodes: moved(v.nodes, order) }
}

/// A signal through the translation table has, among the nodes in their
/// new order, the value that it had.
proof fn lemma_signal_moved(s: Signal, order: Seq<u32>, nb_nodes: nat, v: Valuation)
    requires
        is_selection(order, nb_nodes),
        nb_nodes <= u32::MAX,
        s.refers_below(nb_nodes),
        s.kind matches SignalKind::Node(w) ==> translation(order, nb_nodes)[w as int].kind is Node,
    ensures
        s.remapped(translation(order, nb_nodes)).eval(moved_valuation(v, order)) == s.eval(v),
{
    lemma_translation(order, nb_nodes);
    if let SignalKind::Node(w) = s.kind {
        let table = translation(order, nb_nodes);
        if !order.contains(w) {
            assert(table[w as int] == Signal::constant(false));
        }
        let l = choose|l: int| 0 <= l < order.len() && order[l] == w;
        assert(table[order[l] as int] == Signal::node(l as u32));
    }
}

/// A gate through the translation table has, among the nodes in their new
/// order, the value that it had.
proof fn lemma_gate_moved(g: Gate, order: Seq<u32>, nb_nodes: nat, v: Valuation, held: bool)
    requires
        is_selection(order, nb_nodes),
        nb_nodes <= u32::MAX,
        g.refers_below(nb_nodes),
        forall|w: u32| #[trigger] g.depends_on(w) ==> translation(order, nb_nodes)[w as int].kind is Node,
    ensures
        g.remapped(translation(order, nb_nodes)).eval(moved_valuation(v, order), held) == g.eval(
            v,
            held,
        ),
        g.remapped(translation(order, nb_nodes)) is Dff <==> g is Dff,
{
    let ops = g.operands();
    assert forall|k: int| 0 <= k < ops.len() implies (#[trigger] ops[k]).remapped(
        translation(order, nb_nodes),
    ).eval(moved_valuation(v, order)) == ops[k].eval(v) by {
        if let SignalKind::Node(w) = ops[k].kind {
            assert(g.depends_on(w));
        }
        lemma_signal_moved(ops[k], order, nb_nodes, v);
    }
    let t = translation(order, nb_nodes);
    let m = moved_valuation(v, order);
    assert(ops[0].remapped(t).eval(m) == ops[0].eval(v));
    assert(ops[1].remapped(t).eval(m) == ops[1].eval(v));
    if ops.len() == 3 {
        assert(ops[2].remapped(t).eval(m) == ops[2].eval(v));
    }
}

/// Values that follow from the inputs in a network follow from them, in
/// their new order, in the reordered network; each output keeps its value,
/// and each flip-flop takes the value that it took.
pub proof fn lemma_reordered_follows(net: AigView, order: Seq<u32>, v: Valuation, held: Seq<bool>)
    requires
        net.closed(),
        net.nodes.len() <= u32::MAX,
        is_selection(order, net.nodes.len()),
        kept_whole(net, order),
        follows(net, v, held),
    ensures
        follows(net.reordered(order), moved_valuation(v, order), moved(held, order)),
        forall|j: int|
            0 <= j < net.outputs.len() ==> (#[trigger] net.reordered(order).outputs[j]).eval(
                moved_valuation(v, order),
            ) == net.outputs[j].eval(v),
        forall|k: int|
            0 <= k < order.len() ==> (#[trigger] net.reordered(order).nodes[k]).eval(
                moved_valuation(v, order),
                held[order[k] as int],
            ) == net.nodes[order[k] as int].eval(v, held[order[k] as int]),
        forall|k: int|
            0 <= k < order.len() ==> ((#[trigger] net.reordered(order).nodes[k]) is Dff
                <==> net.nodes[order[k] as int] is Dff),
{
    let n = net.nodes.len();
    let new = net.reordered(order);
    let m = moved_valuation(v, order);
    assert forall|k: int| 0 <= k < order.len() implies (#[trigger] new.nodes[k]).eval(
        m,
        held[order[k] as int],
    ) == net.nodes[order[k] as int].eval(v, held[order[k] as int]) && (new.nodes[k] is Dff
        <==> net.nodes[order[k] as int] is Dff) && new.nodes[k].eval(m, false)
        == net.nodes[order[k] as int].eval(v, false) by {
        let g = net.nodes[order[k] as int];
        assert(g.refers_below(n));
        assert forall|w: u32| #[trigger] g.depends_on(w) implies translation(order, n)[w as int].kind is Node by {
            assert(net.nodes[order[k] as int].depends_on(w));
        }
        lemma_gate_moved(g, order, n, v, held[order[k] as int]);
        lemma_gate_moved(g, order, n, v, false);
    }
    assert forall|j: int| 0 <= j < net.outputs.len() implies (#[trigger] new.outputs[j]).eval(m)
        == net.outputs[j].eval(v) by {
        assert(net.outputs[j].refers_below(n));
        lemma_signal_moved(net.outputs[j], order, n, v);
    }
    assert forall|k: int| 0 <= k < new.nodes.len() implies m.nodes[k] == if (
    #[trigger] new.nodes[k]) is Dff {
        moved(held, order)[k]
    } else {
        new.nodes[k].eval(m, false)
    } by {
        assert(new.nodes[k].eval(m, false) == net.nodes[order[k] as int].eval(v, false));
        assert(net.nodes[order[k] as int] is Dff || !(net.nodes[order[k] as int] is Dff));
    }
}

/// What the flip-flops of the reordered network hold after the first
/// steps of a run is what those of the network hold, in their new order.
proof fn lemma_reordered_held(net: AigView, order: Seq<u32>, trace: Seq<Seq<bool>>, t: nat)
    requires
        net.consistent(),
        net.topo_sorted(),
        net.reordered(order).consistent(),
        net.reordered(order).topo_sorted(),
        net.nodes.len() <= u32::MAX,
        is_selection(order, net.nodes.len()),
        kept_whole(net, order),
    ensures
        net.reordered(order).held_after(trace, t) == moved(net.held_after(trace, t), order),
    decreases t,
{
    let new = net.reordered(order);
    if t == 0 {
        assert(new.held_after(trace, 0) =~= moved(net.held_after(trace, 0), order));
    } else {
        lemma_reordered_held(net, order, trace, (t - 1) as nat);
        let x = trace[t - 1];
        let held = net.held_after(trace, (t - 1) as nat);
        lemma_reordered_step(net, order, x, held);
        assert(new.held_after(trace, t) =~= moved(net.held_after(trace, t), order)) by {
            assert forall|k: int| 0 <= k < order.len() implies new.held_after(trace, t)[k]
                == net.held_after(trace, t)[order[k] as int] by {
                assert(new.nodes[k] is Dff <==> net.nodes[order[k] as int] is Dff);
            }
        }
    }
}

/// Within a step, the reordered network gives its outputs the values that
/// the network gives them, and its flip-flops take the values that those of
/// the network take.
proof fn lemma_reordered_step(net: AigView, order: Seq<u32>, x: Seq<bool>, held: Seq<bool>)
    requires
        net.consistent(),
        net.topo_sorted(),
        net.reordered(order).consistent(),
        net.reordered(order).topo_sorted(),
        net.nodes.len() <= u32::MAX,
        is_selection(order, net.nodes.len()),
        kept_whole(net, order),
    ensures
        net.reordered(order).output_values(x, moved(held, order)) == net.output_values(x, held),
        forall|k: int|
            0 <= k < order.len() ==> (#[trigger] net.reordered(order).nodes[k]).eval(
                net.reordered(order).valuation(x, moved(held, order)),
                held[order[k] as int],
            ) == net.nodes[order[k] as int].eval(net.valuation(x, held), held[order[k] as int]),
        forall|k: int|
            0 <= k < order.len() ==> ((#[trigger] net.reordered(order).nodes[k]) is Dff
                <==> net.nodes[order[k] as int] is Dff),
        forall|k: int|
            0 <= k < order.len() ==> (#[trigger] translation(
                order,
                net.nodes.len(),
            )[order[k] as int]).eval(net.reordered(order).valuation(x, moved(held, order)))
                == net.valuation(x, held).nodes[order[k] as int],
{
    let new = net.reordered(order);
    let v = net.valuation(x, held);
    let m = moved_valuation(v, order);
    let h = moved(held, order);
    let w = new.valuation(x, h);
    lemma_translation(order, net.nodes.len());
    super::view::lemma_consistent_closed(net);
    lemma_valuation_follows(net, x, held);
    lemma_reordered_follows(net, order, v, held);
    lemma_follows(new, m, h, new.nodes.len());
    lemma_node_values(new.nodes, x, h, new.nodes.len(), new.nodes.len());
    assert(agree(m, w, new.nb_inputs, new.nodes.len()));
    assert forall|k: int| 0 <= k < order.len() implies (#[trigger] translation(
        order,
        net.nodes.len(),
    )[order[k] as int]).eval(w) == v.nodes[order[k] as int] by {
        assert(translation(order, net.nodes.len())[order[k] as int] == Signal::node(k as u32));
        assert(m.nodes[k] == w.nodes[k]);
    }
    assert forall|j: int| 0 <= j < new.outputs.len() implies new.output_values(x, h)[j]
        == net.output_values(x, held)[j] by {
        let s = new.outputs[j];
        assert(s.in_range(new.nb_inputs, new.nodes.len()));
        match s.kind {
            SignalKind::Constant => {},
            SignalKind::Input(i) => {},
            SignalKind::Node(i) => {
                assert(m.nodes[i as int] == w.nodes[i as int]);
            },
        }
        assert(new.outputs[j].eval(m) == net.outputs[j].eval(v));
    }
    assert(new.output_values(x, h) =~= net.output_values(x, held));
    assert forall|k: int| 0 <= k < order.len() implies (#[trigger] new.nodes[k]).eval(
        w,
        held[order[k] as int],
    ) == net.nodes[order[k] as int].eval(v, held[order[k] as int]) by {
        assert(new.nodes[k].in_range(new.nb_inputs, new.nodes.len()));
        lemma_eval_local(new.nodes[k], m, w, new.nb_inputs, new.nodes.len(), held[order[k] as int]);
    }
}

/// A sorted network and the same network reordered, both sorted, give
/// the same outputs at each step of every run, where every node to which
/// something that stays refers stays too.
pub proof fn lemma_reordered_run(net: AigView, order: Seq<u32>, trace: Seq<Seq<bool>>)
    requires
        net.consistent(),
        net.topo_sorted(),
        net.reordered(order).consistent(),
        net.reordered(order).topo_sorted(),
        net.nodes.len() <= u32::MAX,
        is_selection(order, net.nodes.len()),
        kept_whole(net, order),
    ensures
        net.reordered(order).run(trace) == net.run(trace),
{
    let new = net.reordered(order);
    assert forall|t: int| 0 <= t < trace.len() implies #[trigger] new.run(trace)[t] == net.run(
        trace,
    )[t] by {
        lemma_reordered_held(net, order, trace, t as nat);
        lemma_reordered_step(net, order, trace[t], net.held_after(trace, t as nat));
    }
    assert(new.run(trace) =~= net.run(trace));
}

/// A sweep keeps every node to which something that stays refers.
pub proof fn lemma_swept_whole(net: AigView)
    requires
        net.closed(),
        net.nodes.len() <= u32::MAX,
    ensures
        kept_whole(net, net.live_order()),
{
    let order = net.live_order();
    lemma_swept(net);
    assert forall|k: int, w: u32|
        0 <= k < order.len() && (#[trigger] net.nodes[order[k] as int].depends_on(
            w,
        )) implies translation(order, net.nodes.len())[w as int].kind is Node by {
        assert(order.contains(order[k]));
        assert(net.reachable(order[k]));
        assert(net.nodes[order[k] as int].refers_below(net.nodes.len()));
        lemma_reachable_step(net.nodes, net.outputs, order[k], w);
        assert(net.reachable(w));
    }
    assert forall|j: int| 0 <= j < net.outputs.len() implies ((
    #[trigger] net.outputs[j]).kind matches SignalKind::Node(w) ==> translation(
        order,
        net.nodes.len(),
    )[w as int].kind is Node) by {
        if let SignalKind::Node(w) = net.outputs[j].kind {
            assert(net.outputs[j].refers_below(net.nodes.len()));
            lemma_reachable_output(net.nodes, net.outputs, j, w);
            assert(net.reachable(w));
        }
    }
}

/// A sweep changes no output of a sorted network, at any step of any run.
pub proof fn lemma_swept_run(net: AigView, trace: Seq<Seq<bool>>)
    requires
        net.consistent(),
        net.topo_sorted(),
        net.nodes.len() <= u32::MAX,
    ensures
        net.swept().run(trace) == net.run(trace),
{
    super::view::lemma_consistent_closed(net);
    lemma_swept(net);
    lemma_swept_whole(net);
    lemma_reordered_run(net, net.live_order(), trace);
}

/// What the table of a reordering means: at each step of every run, the
/// entry of each node that stays has, in the reordered network, the value
/// that the node had.
pub proof fn lemma_reordered_table_meaning(
    net: AigView,
    order: Seq<u32>,
    trace: Seq<Seq<bool>>,
    t: nat,
    k: int,
)
    requires
        net.consistent(),
        net.topo_sorted(),
        net.reordered(order).consistent(),
        net.reordered(order).topo_sorted(),
        net.nodes.len() <= u32::MAX,
        is_selection(order, net.nodes.len()),
        kept_whole(net, order),
        t < trace.len(),
        0 <= k < order.len(),
    ensures
        translation(order, net.nodes.len())[order[k] as int].eval(
            net.reordered(order).valuation(
                trace[t as int],
                net.reordered(order).held_after(trace, t),
            ),
        ) == net.valuation(trace[t as int], net.held_after(trace, t)).nodes[order[k] as int],
{
    lemma_reordered_held(net, order, trace, t);
    lemma_reordered_step(net, order, trace[t as int], net.held_after(trace, t));
}

/// What the table of a sweep means: at each step of every run, the entry
/// of each node that some output reaches has, in the swept network, the
/// value that the node had.
pub proof fn lemma_swept_table_meaning(net: AigView, trace: Seq<Seq<bool>>, t: nat, v: u32)
    requires
        net.consistent(),
        net.topo_sorted(),
        net.nodes.len() <= u32::MAX,
        t < trace.len(),
        v < net.nodes.len(),
        net.reachable(v),
    ensures
        translation(net.live_order(), net.nodes.len())[v as int].eval(
            net.swept().valuation(trace[t as int], net.swept().held_after(trace, t)),
        ) == net.valuation(trace[t as int], net.held_after(trace, t)).nodes[v as int],
{
    let order = net.live_order();
    super::view::lemma_consistent_closed(net);
    lemma_swept(net);
    lemma_swept_whole(net);
    assert(order.contains(v));
    let k = choose|k: int| 0 <= k < order.len() && order[k] == v;
    lemma_reordered_table_meaning(net, order, trace, t, k);
}

/// A topological order keeps every node.
pub proof fn lemma_topo_order_whole(net: AigView, order: Seq<u32>)
    requires
        net.closed(),
        net.nodes.len() <= u32::MAX,
        is_topo_order(net.nodes, order),
    ensures
        is_selection(order, net.nodes.len()),
        kept_whole(net, order),
{
    let n = net.nodes.len();
    lemma_reordered_sorted(net, order);
    lemma_translation(order, n);
    let table = translation(order, n);
    assert forall|w: u32| w < n implies (#[trigger] table[w as int]).kind is Node by {
        assert(order.contains(w));
        let l = choose|l: int| 0 <= l < order.len() && order[l] == w;
        assert(table[order[l] as int] == Signal::node(l as u32));
    }
    assert forall|k: int, w: u32|
        0 <= k < order.len() && (#[trigger] net.nodes[order[k] as int].depends_on(
            w,
        )) implies table[w as int].kind is Node by {
        assert(net.nodes[order[k] as int].refers_below(n));
    }
    assert forall|j: int| 0 <= j < net.outputs.len() implies ((
    #[trigger] net.outputs[j]).kind matches SignalKind::Node(w) ==> table[w as int].kind is Node) by {
        assert(net.outputs[j].refers_below(n));
    }
}

/// A gate through a table is what it is in a copy over the same inputs.
proof fn lemma_remapped_is_instantiated(g: Gate, table: Seq<Signal>)
    ensures
        g.remapped(table) == g.instantiated(table, 0),
{
    let ops = g.operands();
    assert(ops[0].remapped(table) == ops[0].instantiated(table, 0));
    assert(ops[1].remapped(table) == ops[1].instantiated(table, 0));
    if ops.len() == 3 {
        assert(ops[2].remapped(table) == ops[2].instantiated(table, 0));
    }
}

/// The second pass of the deduplication is a copy of the combinational
/// gates over the same inputs.
proof fn lemma_dedup_combs_is_copied(old: AigView, upto: nat)
    requires
        upto <= old.nodes.len(),
    ensures
        old.dedup_combs(upto) == copied(
            old.nodes,
            old.dedup_dffs(old.nodes.len()),
            0,
            upto,
        ),
    decreases upto,
{
    if upto > 0 {
        lemma_dedup_combs_is_copied(old, (upto - 1) as nat);
        let before = old.dedup_combs((upto - 1) as nat);
        lemma_remapped_is_instantiated(old.nodes[upto - 1], before.table);
        super::view::lemma_remapped_depends(old.nodes[upto - 1], before.table, 0);
    }
}

/// Whether a flip-flop can never leave 0: its data is the constant 0, it
/// is never enabled, or it is always reset.
pub open spec fn stuck(g: Gate) -> bool {
    g matches Gate::Dff(d, en, res) && (d == Signal::constant(false) || en == Signal::constant(
        false,
    ) || res == Signal::constant(true))
}

proof fn lemma_stuck(g: Gate, v: Valuation)
    requires
        g is Dff,
    ensures
        stuck(g) ==> g.normalized() == Normalization::Buf(Signal::constant(false)) && !g.eval(
            v,
            false,
        ),
        !stuck(g) ==> g.normalized() == Normalization::Node(g, false),
{
    reveal(Gate::normalized);
}

/// What the first pass of the deduplication gives the flip-flops passed:
/// the constant 0 to one that can never leave 0, and to any other the
/// signal of a node that holds the flip-flop. It builds nothing but these
/// flip-flops.
proof fn lemma_dedup_dffs_entries(old: AigView, upto: nat)
    requires
        upto <= old.nodes.len(),
        old.nodes.len() <= u32::MAX,
    ensures
        old.dedup_dffs(upto).net.nodes.len() <= upto,
        old.dedup_dffs(upto).table.len() == old.nodes.len(),
        forall|k: int|
            0 <= k < old.dedup_dffs(upto).net.nodes.len() ==> (#[trigger] old.dedup_dffs(
                upto,
            ).net.nodes[k]) is Dff,
        forall|i: int|
            0 <= i < upto && (#[trigger] old.nodes[i]) is Dff ==> if stuck(old.nodes[i]) {
                old.dedup_dffs(upto).table[i] == Signal::constant(false)
            } else {
                exists|k: int|
                    0 <= k < old.dedup_dffs(upto).net.nodes.len() && old.dedup_dffs(upto).table[i]
                        == Signal::node(k as u32) && #[trigger] old.dedup_dffs(upto).net.nodes[k]
                        == old.nodes[i]
            },
    decreases upto,
{
    if upto > 0 {
        lemma_dedup_dffs_entries(old, (upto - 1) as nat);
        let before = old.dedup_dffs((upto - 1) as nat);
        let after = old.dedup_dffs(upto);
        let g = old.nodes[upto - 1];
        if g is Dff {
            lemma_stuck(g, Valuation { inputs: Seq::empty(), nodes: Seq::empty() });
            lemma_with_gate_size(before.net, g);
            lemma_first_index(before.net.nodes, g);
            assert forall|i: int|
                0 <= i < upto && (#[trigger] old.nodes[i]) is Dff implies if stuck(old.nodes[i]) {
                after.table[i] == Signal::constant(false)
            } else {
                exists|k: int|
                    0 <= k < after.net.nodes.len() && after.table[i] == Signal::node(k as u32)
                        && #[trigger] after.net.nodes[k] == old.nodes[i]
            } by {
                if i < upto - 1 {
                    if !stuck(old.nodes[i]) {
                        let k = choose|k: int|
                            0 <= k < before.net.nodes.len() && before.table[i] == Signal::node(
                                k as u32,
                            ) && #[trigger] before.net.nodes[k] == old.nodes[i];
                        assert(after.net.nodes[k] == old.nodes[i]);
                    }
                } else {
                    if !stuck(g) {
                        let k = first_index(before.net.nodes, g);
                        assert(after.net.nodes[k] == g);
                    }
                }
            }
        }
    }
}

/// What a table makes of the values that the new flip-flops hold: for
/// each old node, the value of its entry.
pub open spec fn held_through(table: Seq<Signal>, held: Seq<bool>) -> Seq<bool> {
    Seq::new(table.len(), |i: int| table[i].eval(Valuation { inputs: Seq::empty(), nodes: held }))
}

/// Whether what the old flip-flops hold is what the table makes of what
/// the new ones hold.
pub open spec fn held_alike(old: AigView, held: Seq<bool>, new_held: Seq<bool>) -> bool {
    forall|i: int|
        0 <= i < old.nodes.len() && (#[trigger] old.nodes[i]) is Dff ==> held[i] == held_through(
            old.dedup_table(),
            new_held,
        )[i]
}

/// Within a step, the network without duplicates gives its outputs the
/// values that the old network gives them, and what the flip-flops hold
/// afterwards corresponds as it did before.
proof fn lemma_deduped_step(old: AigView, x: Seq<bool>, held: Seq<bool>, new_held: Seq<bool>)
    requires
        old.consistent(),
        old.topo_sorted(),
        old.nodes.len() <= u32::MAX,
        old.nb_inputs <= u32::MAX,
        x.len() == old.nb_inputs,
        held.len() == old.nodes.len(),
        held_alike(old, held, new_held),
        new_held.len() == old.deduped().nodes.len(),
    ensures
        old.deduped().output_values(x, new_held) == old.output_values(x, held),
        held_alike(old, old.next_held(x, held), old.deduped().next_held(x, new_held)),
        forall|i: int|
            0 <= i < old.nodes.len() ==> (#[trigger] old.dedup_table()[i]).eval(
                old.deduped().valuation(x, new_held),
            ) == old.valuation(x, held).nodes[i],
{
    let n = old.nodes.len();
    let ni = old.nb_inputs;
    let new = old.deduped();
    let table = old.dedup_table();
    let first = old.dedup_dffs(n);
    let end = old.dedup_combs(n);
    super::dedup::lemma_deduped(old);
    super::dedup::lemma_dedup_size(old, n);
    lemma_dedup_combs_is_copied(old, n);
    lemma_dedup_dffs_entries(old, n);
    lemma_copied(old.nodes, first, 0, n);
    lemma_copied_grows(old.nodes, first, 0, 0, n);
    let w = new.valuation(x, new_held);
    lemma_valuation_follows(new, x, new_held);
    assert(end.net.models(w)) by {
        assert forall|k: int|
            0 <= k < end.net.nodes.len() && !((#[trigger] end.net.nodes[k]) is Dff) implies w.nodes[k]
            == end.net.nodes[k].eval(w, false) by {
            assert(new.nodes[k] == end.net.nodes[k]);
        }
    }
    lemma_copied_meaning(old, first, 0, n, w);
    let sv = seen(w, table, 0, ni);
    // What each old flip-flop holds is the value of its entry.
    assert forall|i: int| 0 <= i < n && (#[trigger] old.nodes[i]) is Dff implies sv.nodes[i]
        == held[i] && table[i] == first.table[i] by {
        assert(table[i] == first.table[i]);
        if !stuck(old.nodes[i]) {
            let k = choose|k: int|
                0 <= k < first.net.nodes.len() && first.table[i] == Signal::node(k as u32)
                    && #[trigger] first.net.nodes[k] == old.nodes[i];
            assert(end.net.nodes[k] == first.net.nodes[k]);
            super::view::lemma_remapped_depends(end.net.nodes[k], table, 0);
            assert(new.nodes[k] is Dff);
            assert(w.nodes[k] == new_held[k]);
        }
        assert(held[i] == held_through(table, new_held)[i]);
    }
    assert(follows(old, sv, held));
    lemma_follows(old, sv, held, n);
    let v = old.valuation(x, held);
    lemma_node_values(old.nodes, x, held, n, n);
    assert(sv.inputs =~= x);
    assert(agree(sv, v, ni, n));
    assert forall|i: int| 0 <= i < n implies (#[trigger] table[i]).eval(w) == v.nodes[i] by {
        assert(sv.nodes[i] == v.nodes[i]);
    }
    assert forall|j: int| 0 <= j < old.outputs.len() implies new.output_values(x, new_held)[j]
        == old.output_values(x, held)[j] by {
        let s = old.outputs[j];
        assert(s.in_range(ni, n));
        assert(s.remapped(table) == s.instantiated(table, 0));
        lemma_signal_seen(s, table, 0, ni, w);
        match s.kind {
            SignalKind::Constant => {},
            SignalKind::Input(i) => {
                assert(sv.inputs[i as int] == v.inputs[i as int]);
            },
            SignalKind::Node(i) => {
                assert(sv.nodes[i as int] == v.nodes[i as int]);
            },
        }
    }
    assert(new.output_values(x, new_held) =~= old.output_values(x, held));
    let next = old.next_held(x, held);
    let new_next = new.next_held(x, new_held);
    assert forall|i: int| 0 <= i < n && (#[trigger] old.nodes[i]) is Dff implies next[i]
        == held_through(table, new_next)[i] by {
        let g = old.nodes[i];
        assert(g.in_range(ni, n));
        lemma_eval_local(g, sv, v, ni, n, held[i]);
        lemma_stuck(g, sv);
        if stuck(g) {
            assert(held[i] == held_through(table, new_held)[i]);
        } else {
            let k = choose|k: int|
                0 <= k < first.net.nodes.len() && first.table[i] == Signal::node(k as u32)
                    && #[trigger] first.net.nodes[k] == old.nodes[i];
            assert(end.net.nodes[k] == first.net.nodes[k]);
            lemma_remapped_is_instantiated(g, table);
            lemma_gate_seen(g, table, 0, ni, w, new_held[k]);
            assert(new.nodes[k] == g.remapped(table));
            assert(held[i] == held_through(table, new_held)[i]);
        }
    }
}

/// What the flip-flops hold after the first steps of a run corresponds in
/// the old network and in the network without duplicates.
proof fn lemma_deduped_held(old: AigView, trace: Seq<Seq<bool>>, t: nat)
    requires
        old.consistent(),
        old.topo_sorted(),
        old.nodes.len() <= u32::MAX,
        old.nb_inputs <= u32::MAX,
        t <= trace.len(),
        forall|u: int| 0 <= u < trace.len() ==> (#[trigger] trace[u]).len() == old.nb_inputs,
    ensures
        held_alike(old, old.held_after(trace, t), old.deduped().held_after(trace, t)),
        old.deduped().held_after(trace, t).len() == old.deduped().nodes.len(),
        old.held_after(trace, t).len() == old.nodes.len(),
    decreases t,
{
    if t > 0 {
        lemma_deduped_held(old, trace, (t - 1) as nat);
        lemma_deduped_step(
            old,
            trace[t - 1],
            old.held_after(trace, (t - 1) as nat),
            old.deduped().held_after(trace, (t - 1) as nat),
        );
    } else {
        let table = old.dedup_table();
        let zero = old.deduped().held_after(trace, 0);
        super::dedup::lemma_deduped(old);
        assert forall|i: int| 0 <= i < old.nodes.len() && (
        #[trigger] old.nodes[i]) is Dff implies old.held_after(trace, 0)[i] == held_through(
            table,
            zero,
        )[i] by {
            lemma_dedup_dffs_entries(old, old.nodes.len());
            lemma_dedup_combs_is_copied(old, old.nodes.len());
            lemma_copied_grows(old.nodes, old.dedup_dffs(old.nodes.len()), 0, 0, old.nodes.len());
            lemma_copied(old.nodes, old.dedup_dffs(old.nodes.len()), 0, old.nodes.len());
            let first = old.dedup_dffs(old.nodes.len());
            assert(table[i] == first.table[i]) by {
                lemma_copied_entries(old, i);
            }
            if !stuck(old.nodes[i]) {
                let k = choose|k: int|
                    0 <= k < first.net.nodes.len() && first.table[i] == Signal::node(k as u32)
                        && #[trigger] first.net.nodes[k] == old.nodes[i];
                assert(zero[k] == false);
            }
        }
    }
}

/// The second pass of the deduplication leaves the entries of the
/// flip-flops as the first pass made them.
proof fn lemma_copied_entries(old: AigView, i: int)
    requires
        0 <= i < old.nodes.len(),
        old.nodes[i] is Dff,
    ensures
        old.dedup_table()[i] == old.dedup_dffs(old.nodes.len()).table[i],
{
    lemma_dedup_combs_keeps(old, old.nodes.len(), i);
}

proof fn lemma_dedup_combs_keeps(old: AigView, upto: nat, i: int)
    requires
        0 <= i < old.nodes.len(),
        old.nodes[i] is Dff,
        upto <= old.nodes.len(),
    ensures
        old.dedup_combs(upto).table[i] == old.dedup_dffs(old.nodes.len()).table[i],
    decreases upto,
{
    if upto > 0 {
        lemma_dedup_combs_keeps(old, (upto - 1) as nat, i);
        let before = old.dedup_combs((upto - 1) as nat);
        super::view::lemma_remapped_depends(old.nodes[upto - 1], before.table, 0);
        super::dedup::lemma_dedup_size(old, (upto - 1) as nat);
    }
}

/// Deduplication changes no output of a sorted network, at any step of
/// any run.
pub proof fn lemma_deduped_run(old: AigView, trace: Seq<Seq<bool>>)
    requires
        old.consistent(),
        old.topo_sorted(),
        old.nodes.len() <= u32::MAX,
        old.nb_inputs <= u32::MAX,
        forall|u: int| 0 <= u < trace.len() ==> (#[trigger] trace[u]).len() == old.nb_inputs,
    ensures
        old.deduped().run(trace) == old.run(trace),
{
    let new = old.deduped();
    assert forall|t: int| 0 <= t < trace.len() implies #[trigger] new.run(trace)[t] == old.run(
        trace,
    )[t] by {
        lemma_deduped_held(old, trace, t as nat);
        lemma_deduped_step(
            old,
            trace[t],
            old.held_after(trace, t as nat),
            new.held_after(trace, t as nat),
        );
    }
    assert(new.run(trace) =~= old.run(trace));
}

/// What the table of a deduplication means: at each step of every run,
/// the entry of each old node has, in the network without duplicates, the
/// value that the node had in the old network.
pub proof fn lemma_dedup_table_meaning(old: AigView, trace: Seq<Seq<bool>>, t: nat, i: int)
    requires
        old.consistent(),
        old.topo_sorted(),
        old.nodes.len() <= u32::MAX,
        old.nb_inputs <= u32::MAX,
        forall|u: int| 0 <= u < trace.len() ==> (#[trigger] trace[u]).len() == old.nb_inputs,
        t < trace.len(),
        0 <= i < old.nodes.len(),
    ensures
        old.dedup_table()[i].eval(
            old.deduped().valuation(trace[t as int], old.deduped().held_after(trace, t)),
        ) == old.valuation(trace[t as int], old.held_after(trace, t)).nodes[i],
{
    lemma_deduped_held(old, trace, t);
    lemma_deduped_step(
        old,
        trace[t as int],
        old.held_after(trace, t),
        old.deduped().held_after(trace, t),
    );
}

/// Whether a table sends the nodes to which a gate refers to nodes, not
/// inverted, in the order in which they are.
pub open spec fn keeps_order(g: Gate, table: Seq<Signal>) -> bool {
    &&& forall|w: u32| #[trigger]
        g.depends_on(w) ==> w < table.len() && table[w as int].kind is Node
            && !table[w as int].inverted
    &&& forall|w: u32, x: u32|
        #![trigger g.depends_on(w), g.depends_on(x)]
        g.depends_on(w) && g.depends_on(x) && w < x ==> table[w as int].ord()
            < table[x as int].ord()
}

/// A signal through a table that keeps the order of the nodes: its kind
/// stays but for the number of the node, and so does its polarity.
proof fn lemma_signal_renamed(s: Signal, g: Gate, table: Seq<Signal>)
    requires
        keeps_order(g, table),
        g.mentions(s.kind),
    ensures
        s.remapped(table).inverted == s.inverted,
        s.kind is Node <==> s.remapped(table).kind is Node,
        !(s.kind is Node) ==> s.remapped(table) == s,
        s.kind matches SignalKind::Node(w) ==> s.remapped(table).kind == table[w as int].kind,
{
    if let SignalKind::Node(w) = s.kind {
        assert(g.depends_on(w));
    }
}

/// A canonical gate through a table that keeps the order of the nodes is
/// canonical.
pub proof fn lemma_remapped_canonical(g: Gate, table: Seq<Signal>)
    requires
        g.canonical(),
        keeps_order(g, table),
    ensures
        g.remapped(table).canonical(),
{
    let ops = g.operands();
    let a = ops[0];
    let b = ops[1];
    lemma_signal_renamed(a, g, table);
    lemma_signal_renamed(b, g, table);
    lemma_pair_renamed(a, b, g, table);
    if ops.len() == 3 {
        let c = ops[2];
        lemma_signal_renamed(c, g, table);
        lemma_pair_renamed(b, c, g, table);
        lemma_pair_renamed(a, c, g, table);
    }
}

/// Two signals through a table that keeps the order of the nodes are in
/// the order in which they were, and refer to the same thing exactly where
/// they did.
proof fn lemma_pair_renamed(a: Signal, b: Signal, g: Gate, table: Seq<Signal>)
    requires
        keeps_order(g, table),
        g.mentions(a.kind),
        g.mentions(b.kind),
    ensures
        a.ord() > b.ord() <==> a.remapped(table).ord() > b.remapped(table).ord(),
        a.kind == b.kind <==> a.remapped(table).kind == b.remapped(table).kind,
{
    lemma_signal_renamed(a, g, table);
    lemma_signal_renamed(b, g, table);
    if let SignalKind::Node(w) = a.kind {
        if let SignalKind::Node(x) = b.kind {
            assert(g.depends_on(w) && g.depends_on(x));
            if w < x {
                assert(table[w as int].ord() < table[x as int].ord());
            } else if x < w {
                assert(table[x as int].ord() < table[w as int].ord());
            }
        }
    }
}

/// Whether a table sends different nodes to different nodes, not
/// inverted, among those that have a node for entry.
pub open spec fn one_to_one(table: Seq<Signal>) -> bool {
    forall|w: int, x: int|
        0 <= w < table.len() && 0 <= x < table.len() && (#[trigger] table[w]).kind is Node && (
        #[trigger] table[x]).kind is Node && w != x ==> table[w].kind != table[x].kind
}

/// Gates that refer to nodes that stay are different through the table
/// where they were.
proof fn lemma_remapped_differ(g: Gate, h: Gate, table: Seq<Signal>)
    requires
        one_to_one(table),
        forall|w: u32| #[trigger]
            g.depends_on(w) ==> w < table.len() && table[w as int].kind is Node
                && !table[w as int].inverted,
        forall|w: u32| #[trigger]
            h.depends_on(w) ==> w < table.len() && table[w as int].kind is Node
                && !table[w as int].inverted,
        g.remapped(table) == h.remapped(table),
    ensures
        g == h,
{
    let p = g.operands();
    let q = h.operands();
    assert(p.len() == q.len());
    assert forall|k: int| 0 <= k < p.len() implies #[trigger] p[k] == q[k] by {
        let s = p[k];
        let t = q[k];
        assert(s.remapped(table) == t.remapped(table)) by {
            assert(g.remapped(table).operands()[k] == s.remapped(table));
            assert(h.remapped(table).operands()[k] == t.remapped(table));
        }
        if let SignalKind::Node(w) = s.kind {
            assert(g.depends_on(w));
        }
        if let SignalKind::Node(x) = t.kind {
            assert(h.depends_on(x));
        }
    }
    assert(p[0] == q[0]);
    assert(p[1] == q[1]);
    if p.len() == 3 {
        assert(p[2] == q[2]);
    }
}

/// A sweep of a network in which every gate is canonical and no two nodes
/// hold the same gate leaves one.
pub proof fn lemma_swept_hash_consed(net: AigView)
    requires
        net.closed(),
        net.nodes.len() <= u32::MAX,
        net.hash_consed(),
    ensures
        net.swept().hash_consed(),
{
    let n = net.nodes.len();
    let order = net.live_order();
    let table = translation(order, n);
    let new = net.swept();
    lemma_swept(net);
    lemma_swept_whole(net);
    lemma_translation(order, n);
    lemma_selected(Seq::new(n, |i: int| net.reachable(i as u32)), n);
    // The entry of each node that stays is its new node.
    assert forall|w: u32| w < n && (#[trigger] table[w as int]).kind is Node implies exists|l: int|
        0 <= l < order.len() && order[l] == w && table[w as int] == Signal::node(l as u32) by {
        if !order.contains(w) {
            assert(table[w as int] == Signal::constant(false));
        }
        let l = choose|l: int| 0 <= l < order.len() && order[l] == w;
        assert(table[order[l] as int] == Signal::node(l as u32));
    }
    assert(one_to_one(table)) by {
        assert forall|w: int, x: int|
            0 <= w < table.len() && 0 <= x < table.len() && (#[trigger] table[w]).kind is Node && (
            #[trigger] table[x]).kind is Node && w != x implies table[w].kind != table[x].kind by {
            let l = choose|l: int|
                0 <= l < order.len() && order[l] == w as u32 && table[w as u32 as int] == Signal::node(
                    l as u32,
                );
            let m = choose|m: int|
                0 <= m < order.len() && order[m] == x as u32 && table[x as u32 as int] == Signal::node(
                    m as u32,
                );
            assert(l != m);
        }
    }
    assert forall|k: int| 0 <= k < order.len() implies keeps_order(
        #[trigger] net.nodes[order[k] as int],
        table,
    ) by {
        let g = net.nodes[order[k] as int];
        assert(g.refers_below(n));
        assert forall|w: u32| #[trigger] g.depends_on(w) implies w < table.len()
            && table[w as int].kind is Node && !table[w as int].inverted by {
            assert(net.nodes[order[k] as int].depends_on(w));
            assert(table[w as int].kind is Node);
        }
        assert forall|w: u32, x: u32|
            #![trigger g.depends_on(w), g.depends_on(x)]
            g.depends_on(w) && g.depends_on(x) && w < x implies table[w as int].ord()
            < table[x as int].ord() by {
            assert(table[w as int].kind is Node);
            assert(table[x as int].kind is Node);
            let l = choose|l: int|
                0 <= l < order.len() && order[l] == w && table[w as int] == Signal::node(l as u32);
            let m = choose|m: int|
                0 <= m < order.len() && order[m] == x && table[x as int] == Signal::node(m as u32);
            if l >= m {
                if l > m {
                    assert(order[m] < order[l]);
                }
            }
        }
    }
    assert forall|k: int| 0 <= k < new.nodes.len() implies (#[trigger] new.nodes[k]).canonical() by {
        assert(keeps_order(net.nodes[order[k] as int], table));
        assert(net.nodes[order[k] as int].canonical());
        lemma_remapped_canonical(net.nodes[order[k] as int], table);
    }
    assert forall|i: int, j: int| 0 <= i < j < new.nodes.len() implies #[trigger] new.nodes[i]
        != #[trigger] new.nodes[j] by {
        let g = net.nodes[order[i] as int];
        let h = net.nodes[order[j] as int];
        assert(keeps_order(g, table));
        assert(keeps_order(h, table));
        assert(order[i] < order[j]);
        assert(net.nodes[order[i] as int] != net.nodes[order[j] as int]);
        if new.nodes[i] == new.nodes[j] {
            lemma_remapped_differ(g, h, table);
        }
    }
}

} // verus!
