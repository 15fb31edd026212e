//! Deduplication of a sorted network, as a function of the network.

use super::view::{count_kind, first_index, lemma_count_kind_rest, lemma_first_index, lemma_remapped_depends, lemma_with_gate_hash_consed, AigView};
use super::gates::{
    lemma_normalized_idempotent, lemma_normalized_in_range, lemma_normalized_kind,
    lemma_normalized_reduces, Gate, GateKind, Normalization,
};
use super::signal::{Signal, SignalKind};
use vstd::prelude::*;

verus! {

/// The network under construction and the translation table so far.
pub struct Progress {
    pub net: AigView,
    pub table: Seq<Signal>,
}

/// The translation table that sends each node to itself.
pub open spec fn identity_table(nb_nodes: nat) -> Seq<Signal> {
    Seq::new(nb_nodes, |i: int| Signal::node(i as u32))
}

impl Progress {
    /// The progress once `g` is built for the old node `i`.
    pub open spec fn built(self, i: int, g: Gate) -> Progress {
        Progress { net: self.net.with_gate(g), table: self.table.update(i, self.net.gate_signal(g)) }
    }
}

impl AigView {
    /// The first pass over the first `upto` nodes: each flip-flop is built
    /// in a fresh network, with the operands that it has.
    pub open spec fn dedup_dffs(self, upto: nat) -> Progress
        decreases upto,
    {
        if upto == 0 {
            Progress {
                net: AigView { nb_inputs: self.nb_inputs, nodes: Seq::empty(), outputs: Seq::empty() },
                table: identity_table(self.nodes.len()),
            }
        } else {
            let before = self.dedup_dffs((upto - 1) as nat);
            let g = self.nodes[upto - 1];
            if g is Dff {
                before.built(upto - 1, g)
            } else {
                before
            }
        }
    }

    /// The second pass over the first `upto` nodes, after the first pass
    /// over all: each combinational gate is built with its operands taken
    /// through the table so far.
    pub open spec fn dedup_combs(self, upto: nat) -> Progress
        decreases upto,
    {
        if upto == 0 {
            self.dedup_dffs(self.nodes.len())
        } else {
            let before = self.dedup_combs((upto - 1) as nat);
            let g = self.nodes[upto - 1].remapped(before.table);
            if g is Dff {
                before
            } else {
                before.built(upto - 1, g)
            }
        }
    }

    /// The translation table of the deduplication: for each old node, the
    /// signal that stands for it in the new network.
    pub open spec fn dedup_table(self) -> Seq<Signal> {
        self.dedup_combs(self.nodes.len()).table
    }

    /// The network without duplicates: the flip-flops first, then the
    /// combinational gates, each canonical and built once; at last the
    /// operands of the flip-flops and the outputs are taken through the
    /// table.
    pub open spec fn deduped(self) -> AigView {
        let end = self.dedup_combs(self.nodes.len());
        AigView {
            nb_inputs: self.nb_inputs,
            nodes: Seq::new(end.net.nodes.len(), |k: int| settled(end.net.nodes[k], end.table)),
            outputs: Seq::new(self.outputs.len(), |j: int| self.outputs[j].remapped(end.table)),
        }
    }

    /// Whether the flip-flops come before every combinational gate.
    pub open spec fn dffs_first(self) -> bool {
        forall|i: int, j: int|
            0 <= i < j < self.nodes.len() && (#[trigger] self.nodes[j]) is Dff ==> (
            #[trigger] self.nodes[i]) is Dff
    }

    /// Whether every combinational gate is canonical and no two nodes hold
    /// the same combinational gate.
    pub open spec fn comb_hash_consed(self) -> bool {
        &&& forall|i: int|
            0 <= i < self.nodes.len() && !((#[trigger] self.nodes[i]) is Dff)
                ==> self.nodes[i].canonical()
        &&& forall|i: int, j: int|
            0 <= i < j < self.nodes.len() && !(self.nodes[i] is Dff)
                ==> #[trigger] self.nodes[i] != #[trigger] self.nodes[j]
    }
}

/// A gate of the new network at the end: a flip-flop with its operands
/// taken through the table, any other gate as it is.
pub open spec fn settled(g: Gate, table: Seq<Signal>) -> Gate {
    if g is Dff {
        g.remapped(table)
    } else {
        g
    }
}

/// What holds of the progress at every stage: the new network is built
/// from nothing by building gates, its flip-flops come first and hold
/// operands of the old network, and each combinational gate holds operands
/// that come before it.
pub open spec fn steady(old: AigView, p: Progress) -> bool {
    &&& p.table.len() == old.nodes.len()
    &&& p.net.nb_inputs == old.nb_inputs
    &&& p.net.outputs.len() == 0
    &&& p.net.hash_consed()
    &&& p.net.dffs_first()
    &&& forall|k: int|
        0 <= k < p.net.nodes.len() && (#[trigger] p.net.nodes[k]) is Dff ==> p.net.nodes[k].in_range(
            old.nb_inputs,
            old.nodes.len(),
        )
    &&& forall|k: int|
        0 <= k < p.net.nodes.len() && !((#[trigger] p.net.nodes[k]) is Dff)
            ==> p.net.nodes[k].in_range(old.nb_inputs, k as nat)
}

/// Whether the table's entry for the old node `i` refers to what exists in
/// the new network.
pub open spec fn placed(old: AigView, p: Progress, i: int) -> bool {
    p.table[i].in_range(old.nb_inputs, p.net.nodes.len())
}

proof fn lemma_in_range_grows(g: Gate, nb_inputs: nat, a: nat, b: nat)
    requires
        g.in_range(nb_inputs, a),
        a <= b,
    ensures
        g.in_range(nb_inputs, b),
        g.refers_below(b),
{
}

/// A gate taken through a table refers to what exists where the entries
/// for its operands do.
proof fn lemma_remapped_fits(
    g: Gate,
    table: Seq<Signal>,
    nb_inputs: nat,
    nb_old: nat,
    nb_new: nat,
)
    requires
        g.in_range(nb_inputs, nb_old),
        nb_old <= table.len(),
        forall|w: u32| #[trigger] g.depends_on(w) ==> table[w as int].in_range(nb_inputs, nb_new),
    ensures
        g.remapped(table).in_range(nb_inputs, nb_new),
{
    let ops = g.operands();
    assert forall|k: int| 0 <= k < ops.len() implies (#[trigger] ops[k]).remapped(table).in_range(
        nb_inputs,
        nb_new,
    ) by {
        if let SignalKind::Node(w) = ops[k].kind {
            assert(g.depends_on(w));
        }
    }
    assert(ops[0].remapped(table).in_range(nb_inputs, nb_new));
    assert(ops[1].remapped(table).in_range(nb_inputs, nb_new));
    if ops.len() == 3 {
        assert(ops[2].remapped(table).in_range(nb_inputs, nb_new));
    }
}

/// Building a gate that refers to what exists keeps the progress steady,
/// places the entry of its node and keeps the other entries placed.
proof fn lemma_built(old: AigView, p: Progress, i: int, g: Gate)
    requires
        steady(old, p),
        0 <= i < old.nodes.len(),
        g is Dff ==> g.in_range(old.nb_inputs, old.nodes.len()) && forall|k: int|
            0 <= k < p.net.nodes.len() ==> (#[trigger] p.net.nodes[k]) is Dff,
        !(g is Dff) ==> g.in_range(old.nb_inputs, p.net.nodes.len()),
    ensures
        steady(old, p.built(i, g)),
        placed(old, p.built(i, g), i),
        p.net.nodes.len() <= p.built(i, g).net.nodes.len() <= p.net.nodes.len() + 1,
        forall|j: int|
            0 <= j < old.nodes.len() && placed(old, p, j) ==> #[trigger] placed(
                old,
                p.built(i, g),
                j,
            ),
        forall|k: int| 0 <= k < p.net.nodes.len() ==> p.built(i, g).net.nodes[k] == p.net.nodes[k],
        g is Dff ==> forall|k: int|
            0 <= k < p.built(i, g).net.nodes.len() ==> (#[trigger] p.built(i, g).net.nodes[k]) is Dff,
{
    let q = p.built(i, g);
    lemma_with_gate_hash_consed(p.net, g);
    lemma_normalized_reduces(g);
    lemma_normalized_kind(g);
    if g is Dff {
        lemma_normalized_in_range(g, old.nb_inputs, old.nodes.len());
    } else {
        lemma_normalized_in_range(g, old.nb_inputs, p.net.nodes.len());
    }
    match g.normalized() {
        Normalization::Buf(s) => {
            assert(q.net == p.net);
            if g is Dff {
                assert(s == Signal::constant(false));
            }
        },
        Normalization::Node(c, inv) => {
            lemma_first_index(p.net.nodes, c);
            assert((c is Dff) == (g is Dff));
            if first_index(p.net.nodes, c) < p.net.nodes.len() {
                assert(q.net == p.net);
            } else {
                assert(q.net.nodes == p.net.nodes.push(c));
                assert forall|a: int, b: int|
                    0 <= a < b < q.net.nodes.len() && (#[trigger] q.net.nodes[b]) is Dff implies (
                #[trigger] q.net.nodes[a]) is Dff by {
                    if b < p.net.nodes.len() {
                        assert(p.net.nodes[b] is Dff);
                        assert(p.net.nodes[a] is Dff);
                    } else {
                        assert(p.net.nodes[a] is Dff);
                    }
                }
            }
        },
    }
}

/// The first pass keeps the progress steady, places the entries of the
/// flip-flops passed and builds nothing but flip-flops.
proof fn lemma_dedup_dffs(old: AigView, upto: nat)
    requires
        old.consistent(),
        upto <= old.nodes.len(),
    ensures
        steady(old, old.dedup_dffs(upto)),
        forall|k: int|
            0 <= k < old.dedup_dffs(upto).net.nodes.len() ==> (#[trigger] old.dedup_dffs(
                upto,
            ).net.nodes[k]) is Dff,
        forall|i: int|
            0 <= i < upto && old.nodes[i] is Dff ==> #[trigger] placed(
                old,
                old.dedup_dffs(upto),
                i,
            ),
    decreases upto,
{
    if upto > 0 {
        let p = old.dedup_dffs((upto - 1) as nat);
        lemma_dedup_dffs(old, (upto - 1) as nat);
        let g = old.nodes[upto - 1];
        if g is Dff {
            lemma_built(old, p, upto - 1, g);
        }
    }
}

/// The second pass keeps the progress steady and places the entries of
/// the flip-flops and of the gates passed.
proof fn lemma_dedup_combs(old: AigView, upto: nat)
    requires
        old.consistent(),
        old.topo_sorted(),
        upto <= old.nodes.len(),
    ensures
        steady(old, old.dedup_combs(upto)),
        forall|i: int|
            0 <= i < old.nodes.len() && (old.nodes[i] is Dff || i < upto) ==> #[trigger] placed(
                old,
                old.dedup_combs(upto),
                i,
            ),
    decreases upto,
{
    if upto == 0 {
        lemma_dedup_dffs(old, old.nodes.len());
    } else {
        let p = old.dedup_combs((upto - 1) as nat);
        lemma_dedup_combs(old, (upto - 1) as nat);
        let raw = old.nodes[upto - 1];
        let g = raw.remapped(p.table);
        lemma_remapped_depends(raw, p.table, 0);
        if !(g is Dff) {
            assert forall|w: u32| #[trigger] raw.depends_on(w) implies p.table[w as int].in_range(
                old.nb_inputs,
                p.net.nodes.len(),
            ) by {
                assert(raw.comb_depends_on(w));
                assert(placed(old, p, w as int));
            }
            lemma_remapped_fits(raw, p.table, old.nb_inputs, old.nodes.len(), p.net.nodes.len());
            lemma_built(old, p, upto - 1, g);
        }
    }
}

/// The network without duplicates is sorted and refers to what exists;
/// its flip-flops come first; its combinational gates are canonical and
/// all different. Where the old network holds no flip-flop, every gate is
/// canonical and no two nodes hold the same gate.
pub proof fn lemma_deduped(old: AigView)
    requires
        old.consistent(),
        old.topo_sorted(),
    ensures
        old.dedup_table().len() == old.nodes.len(),
        forall|i: int|
            0 <= i < old.nodes.len() ==> (#[trigger] old.dedup_table()[i]).in_range(
                old.nb_inputs,
                old.deduped().nodes.len(),
            ),
        old.deduped().consistent(),
        old.deduped().topo_sorted(),
        old.deduped().dffs_first(),
        old.deduped().comb_hash_consed(),
        old.comb() ==> old.deduped().hash_consed(),
{
    let n = old.nodes.len();
    let p = old.dedup_combs(n);
    let new = old.deduped();
    lemma_dedup_combs(old, n);
    assert forall|i: int| 0 <= i < n implies (#[trigger] old.dedup_table()[i]).in_range(
        old.nb_inputs,
        new.nodes.len(),
    ) by {
        assert(placed(old, p, i));
    }
    assert forall|k: int| 0 <= k < new.nodes.len() implies (#[trigger] new.nodes[k]).in_range(
        new.nb_inputs,
        new.nodes.len(),
    ) by {
        let g = p.net.nodes[k];
        if g is Dff {
            assert forall|w: u32| #[trigger] g.depends_on(w) implies p.table[w as int].in_range(
                old.nb_inputs,
                new.nodes.len(),
            ) by {
                lemma_in_range_grows(g, old.nb_inputs, n, n);
                assert(placed(old, p, w as int));
            }
            lemma_remapped_fits(g, p.table, old.nb_inputs, n, new.nodes.len());
        } else {
            lemma_in_range_grows(g, old.nb_inputs, k as nat, new.nodes.len());
        }
    }
    assert forall|j: int| 0 <= j < new.outputs.len() implies (#[trigger] new.outputs[j]).in_range(
        new.nb_inputs,
        new.nodes.len(),
    ) by {
        assert(old.outputs[j].in_range(old.nb_inputs, n));
        if let SignalKind::Node(w) = old.outputs[j].kind {
            assert(placed(old, p, w as int));
        }
    }
    assert forall|k: int, x: u32| 0 <= k < new.nodes.len() && (
    #[trigger] new.nodes[k].comb_depends_on(x)) implies x < k by {
        lemma_remapped_depends(p.net.nodes[k], p.table, 0);
        lemma_in_range_grows(p.net.nodes[k], old.nb_inputs, k as nat, k as nat);
    }
    assert forall|i: int, j: int|
        0 <= i < j < new.nodes.len() && (#[trigger] new.nodes[j]) is Dff implies (
    #[trigger] new.nodes[i]) is Dff by {
        lemma_remapped_depends(p.net.nodes[j], p.table, 0);
        lemma_remapped_depends(p.net.nodes[i], p.table, 0);
        assert(p.net.nodes[j] is Dff);
        assert(p.net.nodes[i] is Dff);
    }
    assert forall|i: int| 0 <= i < new.nodes.len() && !((#[trigger] new.nodes[i]) is Dff) implies new.nodes[i].canonical() by {
        lemma_remapped_depends(p.net.nodes[i], p.table, 0);
        assert(p.net.nodes[i].canonical());
    }
    assert forall|i: int, j: int|
        0 <= i < j < new.nodes.len() && !(new.nodes[i] is Dff) implies #[trigger] new.nodes[i]
        != #[trigger] new.nodes[j] by {
        lemma_remapped_depends(p.net.nodes[j], p.table, 0);
        lemma_remapped_depends(p.net.nodes[i], p.table, 0);
        assert(p.net.nodes[i] != p.net.nodes[j]);
    }
    if old.comb() {
        lemma_comb_builds_no_dff(old, n);
        assert(new.nodes =~= p.net.nodes);
    }
}

/// The deduplication of a network without flip-flops builds none.
proof fn lemma_comb_builds_no_dff(old: AigView, upto: nat)
    requires
        old.comb(),
        upto <= old.nodes.len(),
    ensures
        old.dedup_dffs(upto).net.nodes.len() == 0,
        forall|k: int|
            0 <= k < old.dedup_combs(upto).net.nodes.len() ==> !((#[trigger] old.dedup_combs(
                upto,
            ).net.nodes[k]) is Dff),
    decreases upto,
{
    if upto > 0 {
        lemma_comb_builds_no_dff(old, (upto - 1) as nat);
        lemma_comb_dffs_pass(old, upto);
        let p = old.dedup_combs((upto - 1) as nat);
        let g = old.nodes[upto - 1].remapped(p.table);
        if !(g is Dff) {
            lemma_normalized_kind(g);
        }
    } else {
        lemma_comb_dffs_pass(old, old.nodes.len());
    }
}

proof fn lemma_comb_dffs_pass(old: AigView, upto: nat)
    requires
        old.comb(),
        upto <= old.nodes.len(),
    ensures
        old.dedup_dffs(upto).net.nodes.len() == 0,
    decreases upto,
{
    if upto > 0 {
        lemma_comb_dffs_pass(old, (upto - 1) as nat);
        assert(!(old.nodes[upto - 1] is Dff));
    }
}

/// The deduplication builds at most one node for each node passed, so
/// that the new network is no larger than the old one.
pub proof fn lemma_dedup_size(old: AigView, upto: nat)
    requires
        upto <= old.nodes.len(),
    ensures
        old.dedup_dffs(upto).net.nodes.len() <= count_kind(
            old.nodes.take(upto as int),
            GateKind::Dff,
        ),
        old.dedup_dffs(upto).table.len() == old.nodes.len(),
        old.dedup_combs(upto).table.len() == old.nodes.len(),
        old.dedup_combs(upto).net.nodes.len() + count_kind(
            old.nodes.take(upto as int),
            GateKind::Dff,
        ) <= count_kind(old.nodes, GateKind::Dff) + upto,
        old.dedup_combs(upto).net.nodes.len() <= old.nodes.len(),
    decreases upto,
{
    lemma_dffs_size(old, upto);
    lemma_count_kind_rest(old.nodes, GateKind::Dff, upto as int);
    if upto > 0 {
        lemma_dedup_size(old, (upto - 1) as nat);
        assert(old.nodes.take(upto as int).drop_last() =~= old.nodes.take(upto - 1));
        lemma_remapped_depends(
            old.nodes[upto - 1],
            old.dedup_combs((upto - 1) as nat).table,
            0,
        );
    } else {
        lemma_dffs_size(old, old.nodes.len());
        assert(old.nodes.take(old.nodes.len() as int) =~= old.nodes);
        assert(old.nodes.take(0) =~= Seq::empty());
    }
}

proof fn lemma_dffs_size(old: AigView, upto: nat)
    requires
        upto <= old.nodes.len(),
    ensures
        old.dedup_dffs(upto).net.nodes.len() <= count_kind(
            old.nodes.take(upto as int),
            GateKind::Dff,
        ),
        old.dedup_dffs(upto).table.len() == old.nodes.len(),
    decreases upto,
{
    if upto > 0 {
        lemma_dffs_size(old, (upto - 1) as nat);
        assert(old.nodes.take(upto as int).drop_last() =~= old.nodes.take(upto - 1));
    } else {
        assert(old.nodes.take(0) =~= Seq::empty());
    }
}

/// Where the flip-flops come first, they are the nodes below their number.
proof fn lemma_dffs_first_count(nodes: Seq<Gate>)
    requires
        (AigView { nb_inputs: 0, nodes, outputs: Seq::empty() }).dffs_first(),
    ensures
        count_kind(nodes, GateKind::Dff) <= nodes.len(),
        forall|i: int|
            0 <= i < nodes.len() ==> ((#[trigger] nodes[i]) is Dff <==> i < count_kind(
                nodes,
                GateKind::Dff,
            )),
    decreases nodes.len(),
{
    if nodes.len() > 0 {
        let front = nodes.drop_last();
        assert forall|i: int, j: int|
            0 <= i < j < front.len() && (#[trigger] front[j]) is Dff implies (
        #[trigger] front[i]) is Dff by {
            assert(nodes[j] is Dff);
            assert(nodes[i] is Dff);
        }
        lemma_dffs_first_count(front);
        assert forall|i: int| 0 <= i < nodes.len() implies ((#[trigger] nodes[i]) is Dff <==> i
            < count_kind(nodes, GateKind::Dff)) by {
            if i < front.len() {
                assert(front[i] == nodes[i]);
                if nodes[nodes.len() - 1] is Dff {
                    assert(nodes[i] is Dff);
                    if front.len() > 0 {
                        assert(front[front.len() - 1] == nodes[front.len() - 1]);
                        assert(nodes[front.len() - 1] is Dff);
                        assert(front[front.len() - 1] is Dff);
                    }
                }
            } else {
                if front.len() > 0 && nodes[i] is Dff {
                    assert(nodes[front.len() - 1] is Dff);
                    assert(front[front.len() - 1] is Dff);
                }
            }
        }
    }
}

/// A gate taken through the table that sends each node to itself stays as
/// it is.
proof fn lemma_remapped_identity(g: Gate, nb_nodes: nat)
    requires
        g.refers_below(nb_nodes),
        nb_nodes <= u32::MAX,
    ensures
        g.remapped(identity_table(nb_nodes)) == g,
{
    let ops = g.operands();
    let t = identity_table(nb_nodes);
    assert forall|k: int| 0 <= k < ops.len() implies (#[trigger] ops[k]).remapped(t) == ops[k] by {
        if let SignalKind::Node(w) = ops[k].kind {
            assert(g.depends_on(w));
        }
    }
    assert(ops[0].remapped(t) == ops[0]);
    assert(ops[1].remapped(t) == ops[1]);
    if ops.len() == 3 {
        assert(ops[2].remapped(t) == ops[2]);
    }
}

/// Building a canonical gate that the network does not hold adds a node
/// for it.
proof fn lemma_build_fresh(net: AigView, g: Gate)
    requires
        g.canonical(),
        forall|k: int| 0 <= k < net.nodes.len() ==> (#[trigger] net.nodes[k]) != g,
    ensures
        net.with_gate(g) == net.with_node(g),
        net.gate_signal(g) == Signal::node(net.nodes.len() as u32),
{
    lemma_normalized_idempotent(g);
    lemma_first_index(net.nodes, g);
}

/// The part of a network that the deduplication of a network already
/// without duplicates has built after a number of nodes.
spec fn prefix(net: AigView, len: int) -> Progress {
    Progress {
        net: AigView { nb_inputs: net.nb_inputs, nodes: net.nodes.take(len), outputs: Seq::empty() },
        table: identity_table(net.nodes.len()),
    }
}

proof fn lemma_fix_dffs(net: AigView, upto: nat)
    requires
        net.consistent(),
        net.hash_consed(),
        net.dffs_first(),
        net.nodes.len() <= u32::MAX,
        upto <= net.nodes.len(),
    ensures
        net.dedup_dffs(upto) == prefix(
            net,
            if upto <= count_kind(net.nodes, GateKind::Dff) {
                upto as int
            } else {
                count_kind(net.nodes, GateKind::Dff) as int
            },
        ),
    decreases upto,
{
    let d = count_kind(net.nodes, GateKind::Dff);
    lemma_dffs_first_count(net.nodes);
    if upto == 0 {
        assert(net.nodes.take(0) =~= Seq::empty());
    } else {
        lemma_fix_dffs(net, (upto - 1) as nat);
        let g = net.nodes[upto - 1];
        let p = net.dedup_dffs((upto - 1) as nat);
        if g is Dff {
            assert(upto - 1 < d);
            assert(p == prefix(net, upto - 1));
            assert forall|k: int| 0 <= k < p.net.nodes.len() implies (#[trigger] p.net.nodes[k])
                != g by {
                assert(net.nodes[k] != net.nodes[upto - 1]);
            }
            lemma_build_fresh(p.net, g);
            assert(net.nodes.take(upto - 1).push(g) =~= net.nodes.take(upto as int));
            assert(p.table.update(upto - 1, Signal::node((upto - 1) as u32)) =~= p.table);
        }
    }
}

proof fn lemma_fix_combs(net: AigView, upto: nat)
    requires
        net.consistent(),
        net.hash_consed(),
        net.dffs_first(),
        net.nodes.len() <= u32::MAX,
        upto <= net.nodes.len(),
    ensures
        net.dedup_combs(upto) == prefix(
            net,
            if upto <= count_kind(net.nodes, GateKind::Dff) {
                count_kind(net.nodes, GateKind::Dff) as int
            } else {
                upto as int
            },
        ),
    decreases upto,
{
    let d = count_kind(net.nodes, GateKind::Dff);
    lemma_dffs_first_count(net.nodes);
    if upto == 0 {
        lemma_fix_dffs(net, net.nodes.len());
    } else {
        lemma_fix_combs(net, (upto - 1) as nat);
        let raw = net.nodes[upto - 1];
        let p = net.dedup_combs((upto - 1) as nat);
        assert(raw.in_range(net.nb_inputs, net.nodes.len()));
        lemma_in_range_grows(raw, net.nb_inputs, net.nodes.len(), net.nodes.len());
        lemma_remapped_identity(raw, net.nodes.len());
        let g = raw.remapped(p.table);
        assert(g == raw);
        if !(g is Dff) {
            assert(upto - 1 >= d);
            assert(p == prefix(net, upto - 1));
            assert forall|k: int| 0 <= k < p.net.nodes.len() implies (#[trigger] p.net.nodes[k])
                != g by {
                assert(net.nodes[k] != net.nodes[upto - 1]);
            }
            lemma_build_fresh(p.net, g);
            assert(net.nodes.take(upto - 1).push(g) =~= net.nodes.take(upto as int));
            assert(p.table.update(upto - 1, Signal::node((upto - 1) as u32)) =~= p.table);
        }
    }
}

/// A sorted network in which the flip-flops come first, every gate is
/// canonical and no two nodes hold the same gate is its own deduplication:
/// nothing moves, and each node translates to itself.
pub proof fn lemma_dedup_fixpoint(net: AigView)
    requires
        net.consistent(),
        net.hash_consed(),
        net.dffs_first(),
        net.nodes.len() <= u32::MAX,
    ensures
        net.deduped() == net,
        net.dedup_table() == identity_table(net.nodes.len()),
{
    let n = net.nodes.len();
    lemma_fix_combs(net, n);
    lemma_count_kind_rest(net.nodes, GateKind::Dff, 0);
    let p = net.dedup_combs(n);
    assert(p.net.nodes =~= net.nodes);
    assert forall|k: int| 0 <= k < n implies settled(#[trigger] net.nodes[k], p.table)
        == net.nodes[k] by {
        assert(net.nodes[k].in_range(net.nb_inputs, n));
        lemma_in_range_grows(net.nodes[k], net.nb_inputs, n, n);
        lemma_remapped_identity(net.nodes[k], n);
    }
    assert(net.deduped().nodes =~= net.nodes);
    assert forall|j: int| 0 <= j < net.outputs.len() implies (#[trigger] net.outputs[j]).remapped(
        p.table,
    ) == net.outputs[j] by {
        assert(net.outputs[j].in_range(net.nb_inputs, n));
    }
    assert(net.deduped().outputs =~= net.outputs);
}

/// Deduplication twice changes no more than deduplication once, where
/// once leaves no two flip-flops alike and none that reduces: the second
/// run keeps every node, and so the number of nodes. A network without
/// flip-flops is always such.
pub proof fn lemma_dedup_twice(net: AigView)
    requires
        net.consistent(),
        net.topo_sorted(),
        net.nodes.len() <= u32::MAX,
        net.comb() || net.deduped().hash_consed(),
    ensures
        net.deduped().deduped() == net.deduped(),
        net.deduped().deduped().nodes.len() == net.deduped().nodes.len(),
        net.deduped().dedup_table() == identity_table(net.deduped().nodes.len()),
{
    lemma_deduped(net);
    lemma_dedup_size(net, net.nodes.len());
    lemma_dedup_fixpoint(net.deduped());
}

} // verus!
