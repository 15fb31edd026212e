//! What a network is, for specifications, and what the passes over it do.

use super::gates::{Gate, GateKind, Normalization};
use super::reach::{is_path, lemma_reachable_output, lemma_reachable_step, reachable};
use super::signal::{Signal, SignalKind, Valuation};
use super::topo::is_topo_order;
use vstd::prelude::*;

verus! {

/// What a network is, for specifications: the number of primary inputs,
/// the gates in the order of their indices, and the outputs.
pub struct AigView {
    pub nb_inputs: nat,
    pub nodes: Seq<Gate>,
    pub outputs: Seq<Signal>,
}

/// The first index at which `nodes` holds `g`, or the length of `nodes`
/// where it holds it nowhere.
pub open spec fn first_index(nodes: Seq<Gate>, g: Gate) -> int
    decreases nodes.len(),
{
    if nodes.len() == 0 {
        0
    } else {
        let before = first_index(nodes.drop_last(), g);
        if before < nodes.len() - 1 {
            before
        } else if nodes.last() == g {
            nodes.len() - 1
        } else {
            nodes.len() as int
        }
    }
}

/// `first_index` is the least index that holds `g`.
pub proof fn lemma_first_index(nodes: Seq<Gate>, g: Gate)
    ensures
        0 <= first_index(nodes, g) <= nodes.len(),
        first_index(nodes, g) < nodes.len() ==> nodes[first_index(nodes, g)] == g,
        forall|j: int| 0 <= j < first_index(nodes, g) ==> nodes[j] != g,
    decreases nodes.len(),
{
    if nodes.len() > 0 {
        let front = nodes.drop_last();
        lemma_first_index(front, g);
        assert forall|j: int| 0 <= j < first_index(nodes, g) implies nodes[j] != g by {
            if j < front.len() {
                assert(front[j] == nodes[j]);
            }
        }
    }
}

/// The translation table of a reordering: node `order[k]` becomes node
/// `k`, and a node that `order` leaves out becomes the constant 0.
pub open spec fn translation(order: Seq<u32>, nb_nodes: nat) -> Seq<Signal>
    decreases order.len(),
{
    if order.len() == 0 {
        Seq::new(nb_nodes, |i: int| Signal::constant(false))
    } else {
        translation(order.drop_last(), nb_nodes).update(
            order.last() as int,
            Signal::node((order.len() - 1) as u32),
        )
    }
}

/// Whether `order` lists nodes of a network of `nb_nodes` nodes, none of
/// them twice.
pub open spec fn is_selection(order: Seq<u32>, nb_nodes: nat) -> bool {
    &&& order.len() <= nb_nodes
    &&& forall|k: int| 0 <= k < order.len() ==> (#[trigger] order[k]) < nb_nodes
    &&& forall|k: int, l: int| 0 <= k < l < order.len() ==> order[k] != order[l]
}

/// The entries of a translation table: the new node for a node that the
/// order lists, the constant 0 for any other.
pub proof fn lemma_translation(order: Seq<u32>, nb_nodes: nat)
    requires
        is_selection(order, nb_nodes),
    ensures
        translation(order, nb_nodes).len() == nb_nodes,
        forall|k: int|
            0 <= k < order.len() ==> translation(order, nb_nodes)[(#[trigger] order[k]) as int]
                == Signal::node(k as u32),
        forall|i: int|
            0 <= i < nb_nodes && !order.contains(i as u32) ==> #[trigger] translation(
                order,
                nb_nodes,
            )[i] == Signal::constant(false),
        forall|i: int|
            0 <= i < nb_nodes ==> (#[trigger] translation(order, nb_nodes)[i]).in_range(
                0,
                order.len(),
            ),
    decreases order.len(),
{
    if order.len() > 0 {
        let front = order.drop_last();
        lemma_translation(front, nb_nodes);
        let t = translation(order, nb_nodes);
        assert forall|k: int| 0 <= k < order.len() implies t[(#[trigger] order[k]) as int]
            == Signal::node(k as u32) by {
            if k < front.len() {
                assert(front[k] == order[k]);
            }
        }
        assert forall|i: int| 0 <= i < nb_nodes && !order.contains(i as u32) implies #[trigger] t[i]
            == Signal::constant(false) by {
            assert(order[order.len() - 1] != i as u32);
            if front.contains(i as u32) {
                let k = choose|k: int| 0 <= k < front.len() && front[k] == i as u32;
                assert(order[k] == i as u32);
            }
        }
    }
}

/// The indices below `upto` at which `marks` holds, in rising order.
pub open spec fn selected(marks: Seq<bool>, upto: nat) -> Seq<u32>
    decreases upto,
{
    if upto == 0 {
        Seq::empty()
    } else if marks[upto - 1] {
        selected(marks, (upto - 1) as nat).push((upto - 1) as u32)
    } else {
        selected(marks, (upto - 1) as nat)
    }
}

/// `selected` lists each marked index once, in rising order.
pub proof fn lemma_selected(marks: Seq<bool>, upto: nat)
    requires
        upto <= marks.len(),
        upto <= u32::MAX,
    ensures
        selected(marks, upto).len() <= upto,
        forall|k: int|
            0 <= k < selected(marks, upto).len() ==> (#[trigger] selected(marks, upto)[k]) < upto
                && marks[selected(marks, upto)[k] as int],
        forall|k: int, l: int|
            0 <= k < l < selected(marks, upto).len() ==> selected(marks, upto)[k] < selected(
                marks,
                upto,
            )[l],
        forall|i: int| 0 <= i < upto && marks[i] ==> selected(marks, upto).contains(i as u32),
    decreases upto,
{
    if upto > 0 {
        let front = selected(marks, (upto - 1) as nat);
        let all = selected(marks, upto);
        lemma_selected(marks, (upto - 1) as nat);
        assert forall|i: int| 0 <= i < upto && marks[i] implies all.contains(i as u32) by {
            if i < upto - 1 {
                let k = choose|k: int| 0 <= k < front.len() && front[k] == i as u32;
                assert(all[k] == i as u32);
            } else {
                assert(all[all.len() - 1] == i as u32);
            }
        }
    }
}

/// The number of gates of a kind.
pub open spec fn count_kind(nodes: Seq<Gate>, kind: GateKind) -> nat
    decreases nodes.len(),
{
    if nodes.len() == 0 {
        0
    } else {
        count_kind(nodes.drop_last(), kind) + if nodes.last().spec_kind() == kind {
            1nat
        } else {
            0nat
        }
    }
}

/// No gate is of a kind exactly when the kind counts 0.
pub proof fn lemma_count_kind(nodes: Seq<Gate>, kind: GateKind)
    ensures
        count_kind(nodes, kind) <= nodes.len(),
        count_kind(nodes, kind) == 0 <==> forall|i: int|
            0 <= i < nodes.len() ==> (#[trigger] nodes[i]).spec_kind() != kind,
    decreases nodes.len(),
{
    if nodes.len() > 0 {
        let front = nodes.drop_last();
        lemma_count_kind(front, kind);
        if count_kind(nodes, kind) == 0 {
            assert forall|i: int| 0 <= i < nodes.len() implies (#[trigger] nodes[i]).spec_kind()
                != kind by {
                if i < front.len() {
                    assert(front[i] == nodes[i]);
                }
            }
        }
        if forall|i: int| 0 <= i < nodes.len() ==> (#[trigger] nodes[i]).spec_kind() != kind {
            assert forall|i: int| 0 <= i < front.len() implies (#[trigger] front[i]).spec_kind()
                != kind by {
                assert(front[i] == nodes[i]);
            }
            assert(nodes[nodes.len() - 1].spec_kind() != kind);
        }
    }
}

/// The gates of a kind beyond the first `k` are at most as many as the
/// gates there.
pub proof fn lemma_count_kind_rest(nodes: Seq<Gate>, kind: GateKind, k: int)
    requires
        0 <= k <= nodes.len(),
    ensures
        count_kind(nodes.take(k), kind) <= count_kind(nodes, kind) <= count_kind(
            nodes.take(k),
            kind,
        ) + nodes.len() - k,
    decreases nodes.len() - k,
{
    if k < nodes.len() {
        lemma_count_kind_rest(nodes, kind, k + 1);
        assert(nodes.take(k + 1).drop_last() =~= nodes.take(k));
    } else {
        assert(nodes.take(k) =~= nodes);
    }
}

impl AigView {
    /// Whether every signal in the network refers to an input or a node
    /// that exists.
    pub open spec fn consistent(self) -> bool {
        &&& forall|i: int|
            0 <= i < self.nodes.len() ==> (#[trigger] self.nodes[i]).in_range(
                self.nb_inputs,
                self.nodes.len(),
            )
        &&& forall|i: int|
            0 <= i < self.outputs.len() ==> (#[trigger] self.outputs[i]).in_range(
                self.nb_inputs,
                self.nodes.len(),
            )
    }

    /// Whether every node comes after the nodes on which it depends within
    /// the clock step.
    pub open spec fn topo_sorted(self) -> bool {
        forall|i: int, v: u32|
            0 <= i < self.nodes.len() && (#[trigger] self.nodes[i].comb_depends_on(v)) ==> v < i
    }

    /// Whether every gate is canonical and no two nodes hold the same gate.
    pub open spec fn hash_consed(self) -> bool {
        &&& forall|i: int| 0 <= i < self.nodes.len() ==> (#[trigger] self.nodes[i]).canonical()
        &&& forall|i: int, j: int|
            0 <= i < j < self.nodes.len() ==> #[trigger] self.nodes[i] != #[trigger] self.nodes[j]
    }

    /// Whether the network holds no flip-flop.
    pub open spec fn comb(self) -> bool {
        forall|i: int| 0 <= i < self.nodes.len() ==> !((#[trigger] self.nodes[i]) is Dff)
    }

    /// Whether the valuation gives each combinational node the value of its
    /// gate. A flip-flop's node stands for what it holds, which is free.
    pub open spec fn models(self, v: Valuation) -> bool {
        forall|i: int|
            0 <= i < self.nodes.len() && !((#[trigger] self.nodes[i]) is Dff) ==> v.nodes[i]
                == self.nodes[i].eval(v, false)
    }

    /// Whether every node to which a gate or an output refers exists.
    pub open spec fn closed(self) -> bool {
        &&& forall|i: int|
            0 <= i < self.nodes.len() ==> (#[trigger] self.nodes[i]).refers_below(
                self.nodes.len(),
            )
        &&& forall|i: int|
            0 <= i < self.outputs.len() ==> (#[trigger] self.outputs[i]).refers_below(
                self.nodes.len(),
            )
    }

    /// Whether node `v` is reachable backward from some output.
    pub open spec fn reachable(self, v: u32) -> bool {
        reachable(self.nodes, self.outputs, v)
    }

    /// The reachable nodes, in rising order.
    pub open spec fn live_order(self) -> Seq<u32> {
        selected(Seq::new(self.nodes.len(), |i: int| self.reachable(i as u32)), self.nodes.len())
    }

    /// The network without the nodes that no output reaches: the others
    /// keep their order.
    pub open spec fn swept(self) -> AigView {
        self.reordered(self.live_order())
    }

    /// The network reordered: node `k` is the old node `order[k]`, and
    /// every gate and output is taken through the order's translation
    /// table.
    pub open spec fn reordered(self, order: Seq<u32>) -> AigView {
        let table = translation(order, self.nodes.len());
        AigView {
            nb_inputs: self.nb_inputs,
            nodes: Seq::new(order.len(), |k: int| self.nodes[order[k] as int].remapped(table)),
            outputs: Seq::new(self.outputs.len(), |j: int| self.outputs[j].remapped(table)),
        }
    }

    /// The network with one more node, which holds `g` as it is.
    pub open spec fn with_node(self, g: Gate) -> AigView {
        AigView { nb_inputs: self.nb_inputs, nodes: self.nodes.push(g), outputs: self.outputs }
    }

    /// The network once the canonical gate `c` is looked up in it: as it
    /// is where a node holds `c`, else with one more node that does.
    pub open spec fn with_canonical(self, c: Gate) -> AigView {
        if first_index(self.nodes, c) < self.nodes.len() {
            self
        } else {
            self.with_node(c)
        }
    }

    /// The network once `g` is built in it: as it is where `g` reduces to
    /// a signal or to a gate that a node holds, else with one more node,
    /// which holds the canonical form of `g`.
    pub open spec fn with_gate(self, g: Gate) -> AigView {
        match g.normalized() {
            Normalization::Buf(_) => self,
            Normalization::Node(c, _) => self.with_canonical(c),
        }
    }

    /// The signal that stands for `g` once it is built in the network: the
    /// signal to which `g` reduces, or that of the first node that holds
    /// its canonical form, inverted where the form is.
    pub open spec fn gate_signal(self, g: Gate) -> Signal {
        match g.normalized() {
            Normalization::Buf(s) => s,
            Normalization::Node(c, inv) => Signal::node(first_index(self.nodes, c) as u32).flip(
                inv,
            ),
        }
    }
}

/// What a translation table does to the dependencies of a gate: it
/// depends on a new node exactly when it depended on an old node that the
/// table sends there.
pub proof fn lemma_remapped_depends(g: Gate, table: Seq<Signal>, x: u32)
    ensures
        g.remapped(table).depends_on(x) <==> exists|w: u32| #[trigger]
            g.depends_on(w) && table[w as int].kind == SignalKind::Node(x),
        g.remapped(table) is Dff <==> g is Dff,
{
    let ops = g.operands();
    if g.remapped(table).depends_on(x) {
        assert(exists|k: int|
            0 <= k < ops.len() && (#[trigger] ops[k]).remapped(table).kind == SignalKind::Node(x));
        let k = choose|k: int|
            0 <= k < ops.len() && (#[trigger] ops[k]).remapped(table).kind == SignalKind::Node(x);
        let w = ops[k].kind->Node_0;
        assert(g.depends_on(w) && table[w as int].kind == SignalKind::Node(x));
    }
    if exists|w: u32| #[trigger] g.depends_on(w) && table[w as int].kind == SignalKind::Node(x) {
        let w = choose|w: u32| #[trigger]
            g.depends_on(w) && table[w as int].kind == SignalKind::Node(x);
        assert(exists|k: int| 0 <= k < ops.len() && (#[trigger] ops[k]).kind == SignalKind::Node(w));
    }
}

/// A network without its unreachable nodes: each node that stays is
/// reachable, each reference is to a node that stays, and what held of the
/// order of the nodes still holds.
pub proof fn lemma_swept(net: AigView)
    requires
        net.closed(),
        net.nodes.len() <= u32::MAX,
    ensures
        is_selection(net.live_order(), net.nodes.len()),
        forall|v: u32|
            v < net.nodes.len() ==> net.live_order().contains(v) == #[trigger] net.reachable(v),
        forall|v: u32|
            v < net.nodes.len() ==> (translation(net.live_order(), net.nodes.len())[v as int].kind is Node)
                == #[trigger] net.reachable(v),
        forall|v: u32|
            v < net.nodes.len() && !(#[trigger] net.reachable(v)) ==> translation(
                net.live_order(),
                net.nodes.len(),
            )[v as int] == Signal::constant(false),
        forall|v: u32| v < net.swept().nodes.len() ==> #[trigger] net.swept().reachable(v),
        net.swept().closed(),
        net.consistent() ==> net.swept().consistent(),
        net.topo_sorted() ==> net.swept().topo_sorted(),
{
    let n = net.nodes.len();
    let marks = Seq::new(n, |i: int| net.reachable(i as u32));
    let order = net.live_order();
    let table = translation(order, n);
    let new = net.swept();
    lemma_selected(marks, n);
    lemma_translation(order, n);
    assert forall|v: u32| v < n implies order.contains(v) == #[trigger] net.reachable(v) by {
        if order.contains(v) {
            let k = choose|k: int| 0 <= k < order.len() && order[k] == v;
            assert(marks[order[k] as int]);
        }
        if net.reachable(v) {
            assert(marks[v as int]);
        }
    }
    assert forall|v: u32| v < n implies (table[v as int].kind is Node) == #[trigger] net.reachable(
        v,
    ) by {
        if order.contains(v) {
            let k = choose|k: int| 0 <= k < order.len() && order[k] == v;
            assert(table[order[k] as int] == Signal::node(k as u32));
        }
    }
    // Each reference from a node that stays, or from an output, is to a node that stays.
    assert forall|k: int, x: u32| 0 <= k < new.nodes.len() && (#[trigger] new.nodes[k].depends_on(
        x,
    )) implies x < order.len() && net.nodes[order[k] as int].depends_on(order[x as int]) by {
        let g = net.nodes[order[k] as int];
        lemma_remapped_depends(g, table, x);
        let w = choose|w: u32| #[trigger] g.depends_on(w) && table[w as int].kind == SignalKind::Node(x);
        assert(g.refers_below(n));
        assert(table[w as int].in_range(0, order.len()));
        assert(table[w as int].kind is Node);
        let l = choose|l: int| 0 <= l < order.len() && order[l] == w;
        assert(table[order[l] as int] == Signal::node(l as u32));
    }
    assert forall|k: int| 0 <= k < new.nodes.len() implies (#[trigger] new.nodes[k]).refers_below(
        new.nodes.len(),
    ) by {
        assert forall|x: u32| new.nodes[k].depends_on(x) implies x < new.nodes.len() by {
            assert(x < order.len() && net.nodes[order[k] as int].depends_on(order[x as int]));
        }
    }
    assert forall|j: int| 0 <= j < new.outputs.len() implies (#[trigger] new.outputs[j]).in_range(
        0,
        new.nodes.len(),
    ) || !(net.outputs[j].kind is Node) by {
        if let SignalKind::Node(w) = net.outputs[j].kind {
            assert(net.outputs[j].refers_below(n));
            assert(table[w as int].in_range(0, order.len()));
        }
    }
    assert(new.closed()) by {
        assert forall|j: int| 0 <= j < new.outputs.len() implies (#[trigger] new.outputs[j]).refers_below(
            new.nodes.len(),
        ) by {
            assert(new.outputs[j].in_range(0, new.nodes.len()) || !(net.outputs[j].kind is Node));
        }
    }
    if net.consistent() {
        assert forall|k: int| 0 <= k < new.nodes.len() implies (#[trigger] new.nodes[k]).in_range(
            new.nb_inputs,
            new.nodes.len(),
        ) by {
            let g = net.nodes[order[k] as int];
            assert(g.in_range(net.nb_inputs, n));
            assert(forall|i: int| 0 <= i < n ==> (#[trigger] table[i]).in_range(0, order.len()));
            lemma_remapped_in_range(g, table, net.nb_inputs, order.len());
        }
        assert forall|j: int| 0 <= j < new.outputs.len() implies (#[trigger] new.outputs[j]).in_range(
            new.nb_inputs,
            new.nodes.len(),
        ) by {
            assert(net.outputs[j].in_range(net.nb_inputs, n));
            assert(new.outputs[j].in_range(0, new.nodes.len()) || !(net.outputs[j].kind is Node));
        }
    }
    if net.topo_sorted() {
        assert forall|k: int, x: u32| 0 <= k < new.nodes.len() && (
        #[trigger] new.nodes[k].comb_depends_on(x)) implies x < k by {
            lemma_remapped_depends(net.nodes[order[k] as int], table, x);
            assert(new.nodes[k].depends_on(x));
            assert(net.nodes[order[k] as int].comb_depends_on(order[x as int]));
            if x >= k {
                if x > k {
                    assert(order[k] < order[x as int]);
                }
            }
        }
    }
    // Each node that stays is reachable in the new network.
    assert forall|x: u32| x < new.nodes.len() implies #[trigger] new.reachable(x) by {
        let k = x as int;
        assert(marks[order[k] as int]);
        let path = choose|path: Seq<u32>|
            is_path(net.nodes, net.outputs, path) && #[trigger] path.last() == order[k];
        lemma_path_survives(net, path, path.len() - 1);
        let l = choose|l: int|
            0 <= l < order.len() && order[l] == path[path.len() - 1] && new.reachable(l as u32);
        assert(l == k);
    }
}

proof fn lemma_remapped_in_range(g: Gate, table: Seq<Signal>, nb_inputs: nat, nb_nodes: nat)
    requires
        g.in_range(nb_inputs, table.len()),
        forall|i: int| 0 <= i < table.len() ==> (#[trigger] table[i]).in_range(0, nb_nodes),
    ensures
        g.remapped(table).in_range(nb_inputs, nb_nodes),
{
    let ops = g.operands();
    assert forall|k: int| 0 <= k < ops.len() implies (#[trigger] ops[k]).remapped(table).in_range(
        nb_inputs,
        nb_nodes,
    ) by {
        if let SignalKind::Node(w) = ops[k].kind {
            assert(table[w as int].in_range(0, nb_nodes));
        }
    }
    assert(ops[0].remapped(table).in_range(nb_inputs, nb_nodes));
    assert(ops[1].remapped(table).in_range(nb_inputs, nb_nodes));
    if ops.len() == 3 {
        assert(ops[2].remapped(table).in_range(nb_inputs, nb_nodes));
    }
}

/// Each node of a path of the old network stays, and is reachable in the
/// new one.
proof fn lemma_path_survives(net: AigView, path: Seq<u32>, m: int)
    requires
        net.closed(),
        net.nodes.len() <= u32::MAX,
        is_path(net.nodes, net.outputs, path),
        0 <= m < path.len(),
        is_selection(net.live_order(), net.nodes.len()),
        forall|v: u32|
            v < net.nodes.len() ==> net.live_order().contains(v) == #[trigger] net.reachable(v),
    ensures
        exists|l: int|
            0 <= l < net.live_order().len() && net.live_order()[l] == path[m] && net.swept().reachable(
                l as u32,
            ),
    decreases m,
{
    let n = net.nodes.len();
    let order = net.live_order();
    let table = translation(order, n);
    let new = net.swept();
    lemma_translation(order, n);
    // The path up to m is a path, so its last node is reachable and stays.
    let prefix = path.take(m + 1);
    assert(prefix[0] == path[0]);
    assert forall|k: int| 0 <= k < prefix.len() - 1 implies (#[trigger] prefix[k]) < net.nodes.len()
        && net.nodes[prefix[k] as int].depends_on(prefix[k + 1]) by {
        assert(prefix[k] == path[k]);
        assert(prefix[k + 1] == path[k + 1]);
    }
    assert(is_path(net.nodes, net.outputs, prefix));
    assert(prefix.last() == path[m]);
    assert(net.reachable(path[m]));
    if m == 0 {
        let j = choose|j: int|
            0 <= j < net.outputs.len() && (#[trigger] net.outputs[j]).kind == SignalKind::Node(path[0]);
        assert(net.outputs[j].refers_below(n));
        assert(order.contains(path[0]));
        let l = choose|l: int| 0 <= l < order.len() && order[l] == path[0];
        assert(table[order[l] as int] == Signal::node(l as u32));
        assert(new.outputs[j].kind == SignalKind::Node(l as u32));
        lemma_reachable_output(new.nodes, new.outputs, j, l as u32);
    } else {
        lemma_path_survives(net, path, m - 1);
        let p = choose|p: int|
            0 <= p < order.len() && order[p] == path[m - 1] && new.reachable(p as u32);
        assert(path[m - 1] < n && net.nodes[path[m - 1] as int].depends_on(path[m - 1 + 1]));
        assert(net.nodes[path[m - 1] as int].refers_below(n));
        assert(order.contains(path[m]));
        let l = choose|l: int| 0 <= l < order.len() && order[l] == path[m];
        assert(table[order[l] as int] == Signal::node(l as u32));
        lemma_remapped_depends(net.nodes[order[p] as int], table, l as u32);
        assert(new.nodes[p].depends_on(l as u32));
        lemma_reachable_step(new.nodes, new.outputs, p as u32, l as u32);
    }
}

/// A network reordered by a topological order is sorted, and refers to
/// what exists where it did before.
pub proof fn lemma_reordered_sorted(net: AigView, order: Seq<u32>)
    requires
        net.closed(),
        net.nodes.len() <= u32::MAX,
        is_topo_order(net.nodes, order),
    ensures
        is_selection(order, net.nodes.len()),
        net.reordered(order).topo_sorted(),
        net.reordered(order).closed(),
        net.consistent() ==> net.reordered(order).consistent(),
{
    let n = net.nodes.len();
    let table = translation(order, n);
    let new = net.reordered(order);
    lemma_translation(order, n);
    assert forall|k: int, x: u32| 0 <= k < new.nodes.len() && (#[trigger] new.nodes[k].depends_on(
        x,
    )) implies x < order.len() && net.nodes[order[k] as int].depends_on(order[x as int]) by {
        let g = net.nodes[order[k] as int];
        lemma_remapped_depends(g, table, x);
        let w = choose|w: u32| #[trigger] g.depends_on(w) && table[w as int].kind == SignalKind::Node(x);
        assert(g.refers_below(n));
        assert(table[w as int].in_range(0, order.len()));
        assert(order.contains(w));
        let l = choose|l: int| 0 <= l < order.len() && order[l] == w;
        assert(table[order[l] as int] == Signal::node(l as u32));
    }
    assert forall|k: int| 0 <= k < new.nodes.len() implies (#[trigger] new.nodes[k]).refers_below(
        new.nodes.len(),
    ) by {
        assert forall|x: u32| new.nodes[k].depends_on(x) implies x < new.nodes.len() by {
            assert(x < order.len() && net.nodes[order[k] as int].depends_on(order[x as int]));
        }
    }
    assert forall|j: int| 0 <= j < new.outputs.len() implies (#[trigger] new.outputs[j]).in_range(
        0,
        new.nodes.len(),
    ) || !(net.outputs[j].kind is Node) by {
        if let SignalKind::Node(w) = net.outputs[j].kind {
            assert(net.outputs[j].refers_below(n));
            assert(table[w as int].in_range(0, order.len()));
        }
    }
    assert(new.closed()) by {
        assert forall|j: int| 0 <= j < new.outputs.len() implies (#[trigger] new.outputs[j]).refers_below(
            new.nodes.len(),
        ) by {
            assert(new.outputs[j].in_range(0, new.nodes.len()) || !(net.outputs[j].kind is Node));
        }
    }
    if net.consistent() {
        assert forall|k: int| 0 <= k < new.nodes.len() implies (#[trigger] new.nodes[k]).in_range(
            new.nb_inputs,
            new.nodes.len(),
        ) by {
            let g = net.nodes[order[k] as int];
            assert(g.in_range(net.nb_inputs, n));
            assert(forall|i: int| 0 <= i < n ==> (#[trigger] table[i]).in_range(0, order.len()));
            lemma_remapped_in_range(g, table, net.nb_inputs, order.len());
        }
        assert forall|j: int| 0 <= j < new.outputs.len() implies (#[trigger] new.outputs[j]).in_range(
            new.nb_inputs,
            new.nodes.len(),
        ) by {
            assert(net.outputs[j].in_range(net.nb_inputs, n));
            assert(new.outputs[j].in_range(0, new.nodes.len()) || !(net.outputs[j].kind is Node));
        }
    }
    assert forall|k: int, x: u32| 0 <= k < new.nodes.len() && (
    #[trigger] new.nodes[k].comb_depends_on(x)) implies x < k by {
        lemma_remapped_depends(net.nodes[order[k] as int], table, x);
        assert(new.nodes[k].depends_on(x));
        assert(net.nodes[order[k] as int].comb_depends_on(order[x as int]));
    }
}

/// In a network whose signals all refer to what exists, every reference
/// to a node is to a node that exists.
pub proof fn lemma_consistent_closed(net: AigView)
    requires
        net.consistent(),
    ensures
        net.closed(),
{
    assert forall|i: int| 0 <= i < net.nodes.len() implies (#[trigger] net.nodes[i]).refers_below(
        net.nodes.len(),
    ) by {
        assert(net.nodes[i].in_range(net.nb_inputs, net.nodes.len()));
    }
    assert forall|i: int| 0 <= i < net.outputs.len() implies (#[trigger] net.outputs[i]).refers_below(
        net.nodes.len(),
    ) by {
        assert(net.outputs[i].in_range(net.nb_inputs, net.nodes.len()));
    }
}

/// Building a gate keeps every gate canonical and no two nodes alike.
pub proof fn lemma_with_gate_hash_consed(net: AigView, g: Gate)
    requires
        net.hash_consed(),
    ensures
        net.with_gate(g).hash_consed(),
{
    super::gates::lemma_normalized_reduces(g);
    match g.normalized() {
        Normalization::Buf(_) => {},
        Normalization::Node(c, _) => {
            lemma_first_index(net.nodes, c);
        },
    }
}
/// Whether `full` begins with the gates of `pre`.
pub open spec fn extends(full: Seq<Gate>, pre: Seq<Gate>) -> bool {
    &&& pre.len() <= full.len()
    &&& forall|i: int| 0 <= i < pre.len() ==> #[trigger] full[i] == pre[i]
}

/// A valuation that gives each combinational node of a network the value
/// of its gate does so for a network that the first begins with.
pub proof fn lemma_models_extends(full: AigView, pre: AigView, v: Valuation)
    requires
        extends(full.nodes, pre.nodes),
        full.models(v),
    ensures
        pre.models(v),
{
    assert forall|i: int|
        0 <= i < pre.nodes.len() && !((#[trigger] pre.nodes[i]) is Dff) implies v.nodes[i]
        == pre.nodes[i].eval(v, false) by {
        assert(full.nodes[i] == pre.nodes[i]);
    }
}

/// Building a gate adds at most one node, and keeps the nodes that were
/// there, the inputs and the outputs.
pub proof fn lemma_with_gate_kept(net: AigView, g: Gate)
    ensures
        extends(net.with_gate(g).nodes, net.nodes),
        net.with_gate(g).nodes.len() <= net.nodes.len() + 1,
        net.with_gate(g).nb_inputs == net.nb_inputs,
        net.with_gate(g).outputs == net.outputs,
{
}

/// Building a gate whose canonical form a node holds builds nothing: the
/// signal is that of the first such node, inverted where the form is, and
/// that of the only such node where no two nodes hold the same gate.
pub proof fn lemma_with_gate_found(net: AigView, g: Gate, k: int)
    requires
        0 <= k < net.nodes.len(),
        net.nodes.len() <= u32::MAX,
        g.normalized() matches Normalization::Node(c, _) && net.nodes[k] == c,
    ensures
        net.with_gate(g) == net,
        g.normalized() matches Normalization::Node(c, inv) && net.gate_signal(g) == Signal::node(
            first_index(net.nodes, c) as u32,
        ).flip(inv) && first_index(net.nodes, c) <= k,
        net.hash_consed() ==> (g.normalized() matches Normalization::Node(_, inv)
            && net.gate_signal(g) == Signal::node(k as u32).flip(inv)),
{
    let c = g.normalized()->Node_0;
    lemma_first_index(net.nodes, c);
    let f = first_index(net.nodes, c);
    if f > k {
        assert(net.nodes[k] != c);
    }
    if net.hash_consed() && f < k {
        assert(net.nodes[f] != net.nodes[k]);
    }
}

} // verus!
