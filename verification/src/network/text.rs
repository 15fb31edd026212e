//! Signals, gates and networks as text.

use super::aig::Aig;
use super::gates::Gate;
use super::signal::{Signal, SignalKind};
use super::view::AigView;
use crate::literal::{append_decimal, decimal};
use vstd::prelude::*;
use vstd::string::StringExecFns;

verus! {

/// The texts of three operands between brackets, after a name.
pub open spec fn call_3(name: Seq<char>, a: Signal, b: Signal, c: Signal) -> Seq<char> {
    name + seq!['('] + a.text() + seq![',', ' '] + b.text() + seq![',', ' '] + c.text() + seq![')']
}

/// The texts of two operands between brackets, after a name.
pub open spec fn call_2(name: Seq<char>, a: Signal, b: Signal) -> Seq<char> {
    name + seq!['('] + a.text() + seq![',', ' '] + b.text() + seq![')']
}

impl Signal {
    /// The text of the signal: `0` and `1` for the constants, `i` and the
    /// number for an input, `x` and the number for a node, after `!` where
    /// the signal is inverted.
    pub open spec fn text(self) -> Seq<char> {
        match self.kind {
            SignalKind::Constant => if self.inverted {
                seq!['1']
            } else {
                seq!['0']
            },
            SignalKind::Input(k) => if self.inverted {
                seq!['!', 'i'] + decimal(k as nat)
            } else {
                seq!['i'] + decimal(k as nat)
            },
            SignalKind::Node(k) => if self.inverted {
                seq!['!', 'x'] + decimal(k as nat)
            } else {
                seq!['x'] + decimal(k as nat)
            },
        }
    }

    /// The text of the signal; see `text`.
    pub fn to_string(&self) -> (s: String)
        ensures
            s@ == self.text(),
    {
        proof {
            reveal_strlit("0");
            reveal_strlit("1");
            reveal_strlit("i");
            reveal_strlit("!i");
            reveal_strlit("x");
            reveal_strlit("!x");
        }
        let s = match self.kind {
            SignalKind::Constant => {
                if self.inverted {
                    String::from_str("1")
                } else {
                    String::from_str("0")
                }
            },
            SignalKind::Input(k) => {
                let mut s = if self.inverted {
                    String::from_str("!i")
                } else {
                    String::from_str("i")
                };
                append_decimal(&mut s, k as u64);
                s
            },
            SignalKind::Node(k) => {
                let mut s = if self.inverted {
                    String::from_str("!x")
                } else {
                    String::from_str("x")
                };
                append_decimal(&mut s, k as u64);
                s
            },
        };
        assert(s@ =~= self.text());
        s
    }
}

/// Appends the texts of two operands between brackets.
fn append_call_2(text: &mut String, a: Signal, b: Signal)
    ensures
        final(text)@ == call_2(old(text)@, a, b),
{
    proof {
        reveal_strlit("(");
        reveal_strlit(", ");
        reveal_strlit(")");
    }
    text.append("(");
    text.append(a.to_string().as_str());
    text.append(", ");
    text.append(b.to_string().as_str());
    text.append(")");
    assert(text@ =~= call_2(old(text)@, a, b));
}

/// Appends the texts of three operands between brackets.
fn append_call_3(text: &mut String, a: Signal, b: Signal, c: Signal)
    ensures
        final(text)@ == call_3(old(text)@, a, b, c),
{
    proof {
        reveal_strlit("(");
        reveal_strlit(", ");
        reveal_strlit(")");
    }
    text.append("(");
    text.append(a.to_string().as_str());
    text.append(", ");
    text.append(b.to_string().as_str());
    text.append(", ");
    text.append(c.to_string().as_str());
    text.append(")");
    assert(text@ =~= call_3(old(text)@, a, b, c));
}

impl Gate {
    /// The text of a gate: the name of its kind and, between brackets,
    /// the texts of its operands.
    pub open spec fn text(self) -> Seq<char> {
        match self {
            Gate::And(a, b) => call_2(seq!['A', 'n', 'd'], a, b),
            Gate::Xor(a, b) => call_2(seq!['X', 'o', 'r'], a, b),
            Gate::And3(a, b, c) => call_3(seq!['A', 'n', 'd', '3'], a, b, c),
            Gate::Xor3(a, b, c) => call_3(seq!['X', 'o', 'r', '3'], a, b, c),
            Gate::Mux(a, b, c) => call_3(seq!['M', 'u', 'x'], a, b, c),
            Gate::Maj(a, b, c) => call_3(seq!['M', 'a', 'j'], a, b, c),
            Gate::Dff(a, b, c) => call_3(seq!['D', 'f', 'f'], a, b, c),
        }
    }

    /// The text of a gate; see `text`.
    pub fn to_string(&self) -> (s: String)
        ensures
            s@ == self.text(),
    {
        proof {
            reveal_strlit("And");
            reveal_strlit("Xor");
            reveal_strlit("And3");
            reveal_strlit("Xor3");
            reveal_strlit("Mux");
            reveal_strlit("Maj");
            reveal_strlit("Dff");
        }
        match self {
            Gate::And(a, b) => {
                let mut s = String::from_str("And");
                assert(s@ =~= seq!['A', 'n', 'd']);
                append_call_2(&mut s, *a, *b);
                s
            },
            Gate::Xor(a, b) => {
                let mut s = String::from_str("Xor");
                assert(s@ =~= seq!['X', 'o', 'r']);
                append_call_2(&mut s, *a, *b);
                s
            },
            Gate::And3(a, b, c) => {
                let mut s = String::from_str("And3");
                assert(s@ =~= seq!['A', 'n', 'd', '3']);
                append_call_3(&mut s, *a, *b, *c);
                s
            },
            Gate::Xor3(a, b, c) => {
                let mut s = String::from_str("Xor3");
                assert(s@ =~= seq!['X', 'o', 'r', '3']);
                append_call_3(&mut s, *a, *b, *c);
                s
            },
            Gate::Mux(a, b, c) => {
                let mut s = String::from_str("Mux");
                assert(s@ =~= seq!['M', 'u', 'x']);
                append_call_3(&mut s, *a, *b, *c);
                s
            },
            Gate::Maj(a, b, c) => {
                let mut s = String::from_str("Maj");
                assert(s@ =~= seq!['M', 'a', 'j']);
                append_call_3(&mut s, *a, *b, *c);
                s
            },
            Gate::Dff(a, b, c) => {
                let mut s = String::from_str("Dff");
                assert(s@ =~= seq!['D', 'f', 'f']);
                append_call_3(&mut s, *a, *b, *c);
                s
            },
        }
    }
}

/// The first line of the text of a network.
pub open spec fn heading(nb_inputs: nat, nb_outputs: nat) -> Seq<char> {
    seq!['A', 'i', 'g', ' ', 'w', 'i', 't', 'h', ' '] + decimal(nb_inputs) + seq![
        ' ',
        'i',
        'n',
        'p',
        'u',
        't',
        's',
        ',',
        ' ',
    ] + decimal(nb_outputs) + seq![' ', 'o', 'u', 't', 'p', 'u', 't', 's', ':', '\n']
}

/// The lines of the first `upto` nodes: after a tab, the signal of the
/// node, ` = ` and the text of its gate.
pub open spec fn node_lines(nodes: Seq<Gate>, upto: nat) -> Seq<char>
    decreases upto,
{
    if upto == 0 {
        Seq::empty()
    } else {
        node_lines(nodes, (upto - 1) as nat) + seq!['\t'] + Signal::node(
            (upto - 1) as u32,
        ).text() + seq![' ', '=', ' '] + nodes[upto - 1].text() + seq!['\n']
    }
}

/// The lines of the first `upto` outputs: after a tab, `o` and the number
/// of the output, ` = ` and the text of its signal.
pub open spec fn output_lines(outputs: Seq<Signal>, upto: nat) -> Seq<char>
    decreases upto,
{
    if upto == 0 {
        Seq::empty()
    } else {
        output_lines(outputs, (upto - 1) as nat) + seq!['\t', 'o'] + decimal((upto - 1) as nat)
            + seq![' ', '=', ' '] + outputs[upto - 1].text() + seq!['\n']
    }
}

impl AigView {
    /// The text of the network: a heading with the numbers of inputs and
    /// outputs, then a line for each node, then a line for each output.
    pub open spec fn text(self) -> Seq<char> {
        heading(self.nb_inputs, self.outputs.len()) + node_lines(self.nodes, self.nodes.len())
            + output_lines(self.outputs, self.outputs.len())
    }
}

impl Aig {
    /// The text of the network; see `AigView::text`.
    pub fn to_string(&self) -> (s: String)
        requires
            self.wf(),
        ensures
            s@ == self@.text(),
    {
        proof {
            reveal_strlit("Aig with ");
            reveal_strlit(" inputs, ");
            reveal_strlit(" outputs:\n");
            reveal_strlit("\t");
            reveal_strlit("\to");
            reveal_strlit(" = ");
            reveal_strlit("\n");
            self.lemma_wf_bounds();
        }
        let mut s = String::from_str("Aig with ");
        append_decimal(&mut s, self.nb_inputs() as u64);
        s.append(" inputs, ");
        append_decimal(&mut s, self.nb_outputs() as u64);
        s.append(" outputs:\n");
        assert(s@ =~= heading(self@.nb_inputs, self@.outputs.len()));
        let ghost head = s@;
        let mut i: usize = 0;
        while i < self.nb_nodes()
            invariant
                i <= self@.nodes.len(),
                self@.nodes.len() <= u32::MAX,
                s@ == head + node_lines(self@.nodes, i as nat),
            decreases self@.nodes.len() - i,
        {
            proof {
                reveal_strlit("\t");
                reveal_strlit(" = ");
                reveal_strlit("\n");
            }
            let ghost before = s@;
            s.append("\t");
            s.append(self.node(i).to_string().as_str());
            s.append(" = ");
            s.append(self.gate(i).to_string().as_str());
            s.append("\n");
            assert(s@ =~= before + seq!['\t'] + Signal::node(i as u32).text() + seq![' ', '=', ' ']
                + self@.nodes[i as int].text() + seq!['\n']);
            i += 1;
            assert(node_lines(self@.nodes, i as nat) =~= node_lines(self@.nodes, (i - 1) as nat)
                + seq!['\t'] + Signal::node((i - 1) as u32).text() + seq![' ', '=', ' ']
                + self@.nodes[i - 1].text() + seq!['\n']);
            assert(s@ =~= head + node_lines(self@.nodes, i as nat));
        }
        let ghost body = s@;
        let mut j: usize = 0;
        while j < self.nb_outputs()
            invariant
                j <= self@.outputs.len(),
                s@ == body + output_lines(self@.outputs, j as nat),
            decreases self@.outputs.len() - j,
        {
            proof {
                reveal_strlit("\to");
                reveal_strlit(" = ");
                reveal_strlit("\n");
            }
            let ghost before = s@;
            s.append("\to");
            append_decimal(&mut s, j as u64);
            s.append(" = ");
            s.append(self.output(j).to_string().as_str());
            s.append("\n");
            assert(s@ =~= before + seq!['\t', 'o'] + decimal(j as nat) + seq![' ', '=', ' ']
                + self@.outputs[j as int].text() + seq!['\n']);
            j += 1;
            assert(output_lines(self@.outputs, j as nat) =~= output_lines(
                self@.outputs,
                (j - 1) as nat,
            ) + seq!['\t', 'o'] + decimal((j - 1) as nat) + seq![' ', '=', ' '] + self@.outputs[j
                - 1].text() + seq!['\n']);
            assert(s@ =~= body + output_lines(self@.outputs, j as nat));
        }
        assert(s@ =~= self@.text());
        s
    }
}

} // verus!
