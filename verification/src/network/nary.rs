//! And, Or and Xor of any number of signals, built as balanced trees.

use super::aig::Aig;
use super::view::{extends, first_index, lemma_first_index, lemma_with_gate_hash_consed, AigView};
use super::gates::{lemma_normalized_reduces, Gate, Normalization};
use super::signal::{Signal, SignalKind, Valuation};
use crate::meaning::{
    all_hold, any_holds, lemma_reduced_meaning, lemma_reduced_parity, parity,
};
use core::ops::Not;
use vstd::prelude::*;

verus! {

/// A network and the signals built in it so far.
pub struct Built {
    pub net: AigView,
    pub signals: Seq<Signal>,
}

/// What joins two signals of a tree: a Xor, or else an And.
pub open spec fn join(xor: bool, a: Signal, b: Signal) -> Gate {
    if xor {
        Gate::Xor(a, b)
    } else {
        Gate::And(a, b)
    }
}

/// The first `upto` signals of the next level of a tree: each joins two
/// neighbours of this level; the last one is the last signal of this level
/// where their number is odd.
pub open spec fn paired(net: AigView, signals: Seq<Signal>, xor: bool, upto: nat) -> Built
    decreases upto,
{
    if upto == 0 {
        Built { net, signals: Seq::empty() }
    } else {
        let before = paired(net, signals, xor, (upto - 1) as nat);
        let k = upto - 1;
        if 2 * k + 1 < signals.len() {
            let g = join(xor, signals[2 * k], signals[2 * k + 1]);
            Built {
                net: before.net.with_gate(g),
                signals: before.signals.push(before.net.gate_signal(g)),
            }
        } else {
            Built { net: before.net, signals: before.signals.push(signals[2 * k]) }
        }
    }
}

/// The root of the balanced tree over the signals, with the network in
/// which it is built: level after level, each half as long as the one
/// before. Of no signal it is the constant that changes nothing when
/// joined: 1 for And, 0 for Xor; of one signal, that signal.
pub open spec fn reduced(net: AigView, signals: Seq<Signal>, xor: bool) -> (AigView, Signal)
    decreases signals.len(),
{
    if signals.len() == 0 {
        (net, Signal::constant(!xor))
    } else if signals.len() == 1 {
        (net, signals[0])
    } else {
        let level = paired(net, signals, xor, ((signals.len() + 1) / 2) as nat);
        if level.signals.len() < signals.len() {
            reduced(level.net, level.signals, xor)
        } else {
            (net, signals[0])
        }
    }
}

/// The complements of the signals.
pub open spec fn complements(signals: Seq<Signal>) -> Seq<Signal> {
    Seq::new(signals.len(), |i: int| signals[i].complement())
}

/// A level holds as many signals as asked for, adds at most one node for
/// each, keeps the nodes that were there, and keeps every gate canonical
/// and no two nodes alike.
pub proof fn lemma_paired(net: AigView, signals: Seq<Signal>, xor: bool, upto: nat)
    ensures
        paired(net, signals, xor, upto).signals.len() == upto,
        net.nodes.len() <= paired(net, signals, xor, upto).net.nodes.len() <= net.nodes.len() + upto,
        paired(net, signals, xor, upto).net.nb_inputs == net.nb_inputs,
        paired(net, signals, xor, upto).net.outputs == net.outputs,
        extends(paired(net, signals, xor, upto).net.nodes, net.nodes),
        net.hash_consed() ==> paired(net, signals, xor, upto).net.hash_consed(),
    decreases upto,
{
    if upto > 0 {
        lemma_paired(net, signals, xor, (upto - 1) as nat);
        let before = paired(net, signals, xor, (upto - 1) as nat);
        let after = paired(net, signals, xor, upto);
        let k = upto - 1;
        if 2 * k + 1 < signals.len() {
            let g = join(xor, signals[2 * k], signals[2 * k + 1]);
            lemma_with_gate_size(before.net, g);
            if before.net.hash_consed() {
                lemma_with_gate_hash_consed(before.net, g);
            }
        }
        assert forall|i: int| 0 <= i < net.nodes.len() implies #[trigger] after.net.nodes[i]
            == net.nodes[i] by {
            assert(before.net.nodes[i] == net.nodes[i]);
        }
    }
}

/// Building a gate adds at most one node and keeps the rest.
pub proof fn lemma_with_gate_size(net: AigView, g: Gate)
    ensures
        net.nodes.len() <= net.with_gate(g).nodes.len() <= net.nodes.len() + 1,
        net.with_gate(g).nb_inputs == net.nb_inputs,
        net.with_gate(g).outputs == net.outputs,
        forall|k: int| 0 <= k < net.nodes.len() ==> net.with_gate(g).nodes[k] == net.nodes[k],
{
}

/// A tree adds fewer nodes than it has signals, keeps the nodes that were
/// there, and keeps every gate canonical and no two nodes alike.
pub proof fn lemma_reduced(net: AigView, signals: Seq<Signal>, xor: bool)
    ensures
        net.nodes.len() <= reduced(net, signals, xor).0.nodes.len() <= net.nodes.len()
            + signals.len(),
        signals.len() > 0 ==> reduced(net, signals, xor).0.nodes.len() < net.nodes.len()
            + signals.len(),
        extends(reduced(net, signals, xor).0.nodes, net.nodes),
        reduced(net, signals, xor).0.nb_inputs == net.nb_inputs,
        reduced(net, signals, xor).0.outputs == net.outputs,
        net.hash_consed() ==> reduced(net, signals, xor).0.hash_consed(),
    decreases signals.len(),
{
    if signals.len() > 1 {
        let half = ((signals.len() + 1) / 2) as nat;
        let level = paired(net, signals, xor, half);
        let top = reduced(level.net, level.signals, xor).0;
        lemma_paired(net, signals, xor, half);
        lemma_paired_adds(net, signals, xor, half);
        lemma_reduced(level.net, level.signals, xor);
        assert forall|i: int| 0 <= i < net.nodes.len() implies #[trigger] top.nodes[i]
            == net.nodes[i] by {
            assert(level.net.nodes[i] == net.nodes[i]);
        }
    }
}

/// The number of levels of a balanced tree over `n` signals: as often as
/// `n` can be halved, rounding up, until one is left. It is the logarithm
/// of `n` to base two, rounded up.
pub open spec fn levels(n: nat) -> nat
    decreases n,
{
    if n <= 1 {
        0
    } else {
        1 + levels(((n + 1) / 2) as nat)
    }
}

/// Two to the power `k`.
pub open spec fn two_to(k: nat) -> nat
    decreases k,
{
    if k == 0 {
        1
    } else {
        2 * two_to((k - 1) as nat)
    }
}

/// `levels(n)` is the least `k` with `n` at most two to the power `k`.
pub proof fn lemma_levels(n: nat)
    requires
        n >= 1,
    ensures
        n <= two_to(levels(n)),
        n >= 2 ==> levels(n) >= 1 && two_to((levels(n) - 1) as nat) < n,
    decreases n,
{
    if n >= 2 {
        let half = ((n + 1) / 2) as nat;
        lemma_levels(half);
    }
}

/// The network and the signals left after `k` levels of a tree: each
/// level joins the signals of the one before in pairs.
pub open spec fn after_levels(net: AigView, signals: Seq<Signal>, xor: bool, k: nat) -> Built
    decreases k,
{
    if k == 0 {
        Built { net, signals }
    } else {
        let level = paired(net, signals, xor, ((signals.len() + 1) / 2) as nat);
        after_levels(level.net, level.signals, xor, (k - 1) as nat)
    }
}

/// A tree over `n` signals has `levels(n)` levels: after so many, one
/// signal is left, the root. So the root depends on each signal through at
/// most `levels(n)` gates of the tree.
pub proof fn lemma_reduced_levels(net: AigView, signals: Seq<Signal>, xor: bool)
    requires
        signals.len() >= 1,
    ensures
        after_levels(net, signals, xor, levels(signals.len())).signals.len() == 1,
        reduced(net, signals, xor) == (
            after_levels(net, signals, xor, levels(signals.len())).net,
            after_levels(net, signals, xor, levels(signals.len())).signals[0],
        ),
    decreases signals.len(),
{
    if signals.len() > 1 {
        let half = ((signals.len() + 1) / 2) as nat;
        let level = paired(net, signals, xor, half);
        lemma_paired(net, signals, xor, half);
        lemma_reduced_levels(level.net, level.signals, xor);
    }
}

/// Whether what `kind` refers to is made of the signals of `base` through
/// at most `depth` gates of the network, one upon the other: it is a
/// constant or what a signal of `base` refers to, or a node whose gate
/// holds nothing but what is made of them through one gate less.
pub open spec fn within(net: AigView, kind: SignalKind, base: Seq<Signal>, depth: nat) -> bool
    decreases depth,
{
    ||| kind == SignalKind::Constant
    ||| exists|k: int| 0 <= k < base.len() && (#[trigger] base[k]).kind == kind
    ||| depth > 0 && (kind matches SignalKind::Node(i) && i < net.nodes.len() && forall|
        j: SignalKind,
    | #[trigger]
        net.nodes[i as int].mentions(j) ==> within(net, j, base, (depth - 1) as nat))
}

/// What is within a depth is within any larger depth, in any network that
/// keeps the nodes.
pub proof fn lemma_within_grows(
    net: AigView,
    more: AigView,
    kind: SignalKind,
    base: Seq<Signal>,
    depth: nat,
    deeper: nat,
)
    requires
        extends(more.nodes, net.nodes),
        depth <= deeper,
        within(net, kind, base, depth),
    ensures
        within(more, kind, base, deeper),
    decreases depth,
{
    if kind != SignalKind::Constant && !(exists|k: int|
        0 <= k < base.len() && (#[trigger] base[k]).kind == kind) {
        let i = kind->Node_0;
        assert(more.nodes[i as int] == net.nodes[i as int]);
        assert forall|j: SignalKind| #[trigger] more.nodes[i as int].mentions(j) implies within(
            more,
            j,
            base,
            (deeper - 1) as nat,
        ) by {
            assert(net.nodes[i as int].mentions(j));
            lemma_within_grows(net, more, j, base, (depth - 1) as nat, (deeper - 1) as nat);
        }
    }
}

/// What is within a depth of signals that are within a depth of others is
/// within the sum of the two depths of these.
pub proof fn lemma_within_chain(
    net: AigView,
    kind: SignalKind,
    middle: Seq<Signal>,
    base: Seq<Signal>,
    upper: nat,
    lower: nat,
)
    requires
        within(net, kind, middle, upper),
        forall|k: int| 0 <= k < middle.len() ==> within(net, (#[trigger] middle[k]).kind, base, lower),
    ensures
        within(net, kind, base, upper + lower),
    decreases upper,
{
    if kind == SignalKind::Constant {
    } else if exists|k: int| 0 <= k < middle.len() && (#[trigger] middle[k]).kind == kind {
        let k = choose|k: int| 0 <= k < middle.len() && (#[trigger] middle[k]).kind == kind;
        lemma_within_grows(net, net, kind, base, lower, upper + lower);
    } else {
        let i = kind->Node_0;
        assert forall|j: SignalKind| #[trigger] net.nodes[i as int].mentions(j) implies within(
            net,
            j,
            base,
            (upper + lower - 1) as nat,
        ) by {
            lemma_within_chain(net, j, middle, base, (upper - 1) as nat, lower);
        }
    }
}

/// The signal of a gate built over two signals is within one gate of
/// them.
pub proof fn lemma_join_within(net: AigView, xor: bool, a: Signal, b: Signal)
    requires
        net.nodes.len() < u32::MAX,
    ensures
        within(
            net.with_gate(join(xor, a, b)),
            net.gate_signal(join(xor, a, b)).kind,
            seq![a, b],
            1,
        ),
{
    let g = join(xor, a, b);
    let base = seq![a, b];
    let new = net.with_gate(g);
    lemma_normalized_reduces(g);
    assert(base[0] == a && base[1] == b);
    assert forall|j: SignalKind| g.mentions(j) implies exists|k: int|
        0 <= k < base.len() && (#[trigger] base[k]).kind == j by {
        if a.kind == j {
            assert(base[0].kind == j);
        } else {
            assert(base[1].kind == j);
        }
    }
    match g.normalized() {
        Normalization::Buf(s) => {},
        Normalization::Node(c, _) => {
            lemma_first_index(net.nodes, c);
            let f = first_index(net.nodes, c);
            assert(new.nodes[f] == c);
            assert forall|j: SignalKind| #[trigger] new.nodes[f as u32 as int].mentions(
                j,
            ) implies within(new, j, base, 0) by {
                assert(g.mentions(j));
            }
        },
    }
}

/// Each signal of a level is within one gate of the signals of the level
/// before.
pub proof fn lemma_paired_within(net: AigView, signals: Seq<Signal>, xor: bool, upto: nat, k: int)
    requires
        2 * upto <= signals.len() + 1,
        net.nodes.len() + upto <= u32::MAX,
        0 <= k < upto,
    ensures
        within(
            paired(net, signals, xor, upto).net,
            paired(net, signals, xor, upto).signals[k].kind,
            signals,
            1,
        ),
    decreases upto,
{
    let before = paired(net, signals, xor, (upto - 1) as nat);
    let after = paired(net, signals, xor, upto);
    lemma_paired(net, signals, xor, (upto - 1) as nat);
    lemma_paired(net, signals, xor, upto);
    let last = upto - 1;
    if 2 * last + 1 < signals.len() {
        lemma_with_gate_size(before.net, join(xor, signals[2 * last], signals[2 * last + 1]));
    }
    if k < last {
        lemma_paired_within(net, signals, xor, (upto - 1) as nat, k);
        lemma_within_grows(before.net, after.net, before.signals[k].kind, signals, 1, 1);
    } else if 2 * last + 1 < signals.len() {
        let a = signals[2 * last];
        let b = signals[2 * last + 1];
        lemma_join_within(before.net, xor, a, b);
        let pair = seq![a, b];
        assert forall|i: int| 0 <= i < pair.len() implies within(
            after.net,
            (#[trigger] pair[i]).kind,
            signals,
            0,
        ) by {
            if i == 0 {
                assert(signals[2 * last].kind == pair[i].kind);
            } else {
                assert(signals[2 * last + 1].kind == pair[i].kind);
            }
        }
        lemma_within_chain(after.net, after.signals[k].kind, pair, signals, 1, 0);
    } else {
        assert(signals[2 * last].kind == after.signals[k].kind);
    }
}

/// The depth of a tree: its root is within `levels(n)` gates of its `n`
/// signals.
pub proof fn lemma_reduced_within(net: AigView, signals: Seq<Signal>, xor: bool)
    requires
        net.nodes.len() + signals.len() <= u32::MAX,
    ensures
        within(
            reduced(net, signals, xor).0,
            reduced(net, signals, xor).1.kind,
            signals,
            levels(signals.len()),
        ),
    decreases signals.len(),
{
    if signals.len() == 1 {
        assert(signals[0].kind == reduced(net, signals, xor).1.kind);
    } else if signals.len() > 1 {
        let half = ((signals.len() + 1) / 2) as nat;
        let level = paired(net, signals, xor, half);
        let top = reduced(level.net, level.signals, xor);
        lemma_paired(net, signals, xor, half);
        lemma_paired_adds(net, signals, xor, half);
        lemma_reduced(level.net, level.signals, xor);
        lemma_reduced_within(level.net, level.signals, xor);
        assert forall|k: int| 0 <= k < level.signals.len() implies within(
            top.0,
            (#[trigger] level.signals[k]).kind,
            signals,
            1,
        ) by {
            lemma_paired_within(net, signals, xor, half, k);
            lemma_within_grows(level.net, top.0, level.signals[k].kind, signals, 1, 1);
        }
        lemma_within_chain(top.0, top.1.kind, level.signals, signals, levels(half), 1);
    }
}

/// A level adds at most one node for each pair that it joins.
pub proof fn lemma_paired_adds(net: AigView, signals: Seq<Signal>, xor: bool, upto: nat)
    requires
        2 * upto <= signals.len() + 1,
    ensures
        paired(net, signals, xor, upto).net.nodes.len() <= net.nodes.len() + if 2 * upto
            <= signals.len() {
            upto
        } else {
            (upto - 1) as nat
        },
    decreases upto,
{
    if upto > 0 {
        lemma_paired_adds(net, signals, xor, (upto - 1) as nat);
        let before = paired(net, signals, xor, (upto - 1) as nat);
        let k = upto - 1;
        if 2 * k + 1 < signals.len() {
            lemma_with_gate_size(before.net, join(xor, signals[2 * k], signals[2 * k + 1]));
        }
    }
}

impl Aig {
    /// Builds the next level of a tree over `sigs`.
    fn pair_up(&mut self, sigs: &Vec<Signal>, xor: bool) -> (next: Vec<Signal>)
        requires
            old(self).wf(),
            sigs@.len() >= 2,
            old(self)@.nodes.len() + sigs@.len() / 2 <= u32::MAX,
        ensures
            final(self).wf(),
            (Built { net: final(self)@, signals: next@ }) == paired(
                old(self)@,
                sigs@,
                xor,
                ((sigs@.len() + 1) / 2) as nat,
            ),
    {
        let ghost start = self@;
        let half = sigs.len() / 2 + sigs.len() % 2;
        let mut next: Vec<Signal> = Vec::new();
        let mut k: usize = 0;
        while k < half
            invariant
                k <= half,
                half == (sigs@.len() + 1) / 2,
                self.wf(),
                start.nodes.len() + sigs@.len() / 2 <= u32::MAX,
                (Built { net: self@, signals: next@ }) == paired(start, sigs@, xor, k as nat),
            decreases half - k,
        {
            proof {
                lemma_paired_adds(start, sigs@, xor, k as nat);
            }
            if k < sigs.len() / 2 {
                let s = if xor {
                    self.xor(sigs[2 * k], sigs[2 * k + 1])
                } else {
                    self.and(sigs[2 * k], sigs[2 * k + 1])
                };
                next.push(s);
            } else {
                next.push(sigs[2 * k]);
            }
            k += 1;
        }
        next
    }

    /// Builds the balanced tree over `sigs` and returns its root.
    fn reduce(&mut self, sigs: &Vec<Signal>, xor: bool) -> (s: Signal)
        requires
            old(self).wf(),
            old(self)@.nodes.len() + sigs@.len() <= u32::MAX,
        ensures
            final(self).wf(),
            final(self)@ == reduced(old(self)@, sigs@, xor).0,
            extends(final(self)@.nodes, old(self)@.nodes),
            sigs@.len() > 0 ==> final(self)@.nodes.len() < old(self)@.nodes.len() + sigs@.len(),
            s == reduced(old(self)@, sigs@, xor).1,
            old(self)@.hash_consed() ==> final(self)@.hash_consed(),
    {
        let ghost start = self@;
        proof {
            lemma_reduced(start, sigs@, xor);
        }
        if sigs.len() == 0 {
            return if xor {
                Signal::zero()
            } else {
                Signal::one()
            };
        }
        if sigs.len() == 1 {
            return sigs[0];
        }
        let mut level = self.pair_up(sigs, xor);
        proof {
            lemma_paired(start, sigs@, xor, ((sigs@.len() + 1) / 2) as nat);
            lemma_paired_adds(start, sigs@, xor, ((sigs@.len() + 1) / 2) as nat);
        }
        while level.len() > 1
            invariant
                self.wf(),
                level@.len() >= 1,
                self@.nodes.len() + level@.len() <= u32::MAX,
                reduced(self@, level@, xor) == reduced(start, sigs@, xor),
            decreases level@.len(),
        {
            let ghost net = self@;
            let ghost signals = level@;
            let next = self.pair_up(&level, xor);
            proof {
                lemma_paired(net, signals, xor, ((signals.len() + 1) / 2) as nat);
                lemma_paired_adds(net, signals, xor, ((signals.len() + 1) / 2) as nat);
            }
            level = next;
        }
        level[0]
    }

    /// Builds the And of any number of signals as a balanced tree of And2
    /// gates, in as many levels as the number of signals can be halved:
    /// the constant 1 for none, the signal itself for one. It adds fewer
    /// nodes than there are signals and keeps the others, and the result is
    /// within as many gates of the signals as there are levels. Wherever
    /// each node has the value of its gate, the result holds exactly where
    /// every signal does.
    pub fn and_n(&mut self, sigs: &Vec<Signal>) -> (s: Signal)
        requires
            old(self).wf(),
            old(self)@.nodes.len() + sigs@.len() <= u32::MAX,
        ensures
            final(self).wf(),
            final(self)@ == reduced(old(self)@, sigs@, false).0,
            extends(final(self)@.nodes, old(self)@.nodes),
            sigs@.len() > 0 ==> final(self)@.nodes.len() < old(self)@.nodes.len() + sigs@.len(),
            s == reduced(old(self)@, sigs@, false).1,
            old(self)@.hash_consed() ==> final(self)@.hash_consed(),
            forall|v: Valuation| #[trigger]
                final(self)@.models(v) ==> s.eval(v) == all_hold(sigs@, v),
            within(final(self)@, s.kind, sigs@, levels(sigs@.len())),
    {
        proof {
            lemma_reduced(self@, sigs@, false);
            lemma_reduced_within(self@, sigs@, false);
            assert forall|v: Valuation| #[trigger]
                reduced(self@, sigs@, false).0.models(v) implies reduced(self@, sigs@, false).1.eval(
                v,
            ) == all_hold(sigs@, v) by {
                lemma_reduced_meaning(self@, sigs@, v);
            }
        }
        self.reduce(sigs, false)
    }

    /// Builds the Or of any number of signals, as the complement of the And
    /// of their complements: the constant 0 for none, the signal itself for
    /// one. Nodes and depth are as for `and_n`. Wherever each node has the
    /// value of its gate, the result holds exactly where some signal does.
    pub fn or_n(&mut self, sigs: &Vec<Signal>) -> (s: Signal)
        requires
            old(self).wf(),
            old(self)@.nodes.len() + sigs@.len() <= u32::MAX,
        ensures
            final(self).wf(),
            final(self)@ == reduced(old(self)@, complements(sigs@), false).0,
            extends(final(self)@.nodes, old(self)@.nodes),
            sigs@.len() > 0 ==> final(self)@.nodes.len() < old(self)@.nodes.len() + sigs@.len(),
            s == reduced(old(self)@, complements(sigs@), false).1.complement(),
            old(self)@.hash_consed() ==> final(self)@.hash_consed(),
            forall|v: Valuation| #[trigger]
                final(self)@.models(v) ==> s.eval(v) == any_holds(sigs@, v),
            within(final(self)@, s.kind, sigs@, levels(sigs@.len())),
    {
        proof {
            let cs = complements(sigs@);
            lemma_reduced(self@, cs, false);
            lemma_reduced_within(self@, cs, false);
            let top = reduced(self@, cs, false);
            assert forall|k: int| 0 <= k < cs.len() implies within(
                top.0,
                (#[trigger] cs[k]).kind,
                sigs@,
                0,
            ) by {
                assert(sigs@[k].kind == cs[k].kind);
            }
            lemma_within_chain(top.0, top.1.kind, cs, sigs@, levels(cs.len()), 0);
            assert forall|v: Valuation| #[trigger]
                reduced(self@, cs, false).0.models(v) implies reduced(
                self@,
                cs,
                false,
            ).1.complement().eval(v) == any_holds(sigs@, v) by {
                lemma_reduced_meaning(self@, cs, v);
                if all_hold(cs, v) {
                    assert forall|k: int| 0 <= k < sigs@.len() implies !(#[trigger] sigs@[k]).eval(
                        v,
                    ) by {
                        assert(cs[k].eval(v));
                    }
                } else {
                    let k = choose|k: int| 0 <= k < cs.len() && !(#[trigger] cs[k]).eval(v);
                    assert(sigs@[k].eval(v));
                }
            }
        }
        let mut ands: Vec<Signal> = Vec::new();
        let mut i: usize = 0;
        while i < sigs.len()
            invariant
                i <= sigs@.len(),
                ands@ == complements(sigs@.take(i as int)),
            decreases sigs@.len() - i,
        {
            ands.push(sigs[i].not());
            assert(ands@ =~= complements(sigs@.take(i + 1)));
            i += 1;
        }
        assert(sigs@.take(i as int) =~= sigs@);
        self.and_n(&ands).not()
    }

    /// Builds the Xor of any number of signals as a balanced tree of Xor2
    /// gates, in as many levels as the number of signals can be halved:
    /// the constant 0 for none, the signal itself for one. It adds fewer
    /// nodes than there are signals and keeps the others, and the result is
    /// within as many gates of the signals as there are levels. Wherever
    /// each node has the value of its gate, the result holds exactly where
    /// an odd number of the signals do.
    pub fn xor_n(&mut self, sigs: &Vec<Signal>) -> (s: Signal)
        requires
            old(self).wf(),
            old(self)@.nodes.len() + sigs@.len() <= u32::MAX,
        ensures
            final(self).wf(),
            final(self)@ == reduced(old(self)@, sigs@, true).0,
            extends(final(self)@.nodes, old(self)@.nodes),
            sigs@.len() > 0 ==> final(self)@.nodes.len() < old(self)@.nodes.len() + sigs@.len(),
            s == reduced(old(self)@, sigs@, true).1,
            old(self)@.hash_consed() ==> final(self)@.hash_consed(),
            forall|v: Valuation| #[trigger]
                final(self)@.models(v) ==> s.eval(v) == parity(sigs@, v, sigs@.len()),
            within(final(self)@, s.kind, sigs@, levels(sigs@.len())),
    {
        proof {
            lemma_reduced(self@, sigs@, true);
            lemma_reduced_within(self@, sigs@, true);
            assert forall|v: Valuation| #[trigger]
                reduced(self@, sigs@, true).0.models(v) implies reduced(self@, sigs@, true).1.eval(
                v,
            ) == parity(sigs@, v, sigs@.len()) by {
                lemma_reduced_parity(self@, sigs@, v);
            }
        }
        self.reduce(sigs, true)
    }
}

} // verus!
