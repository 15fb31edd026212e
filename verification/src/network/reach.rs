//! Backward reachability from the outputs of a network.

use super::gates::Gate;
use super::signal::{Signal, SignalKind};
use vstd::prelude::*;

verus! {

/// Whether `path` leads from an output down the dependencies, within the
/// clock step or across steps: an output refers to its first node, and
/// each node but the last depends on the next.
pub open spec fn is_path(nodes: Seq<Gate>, outputs: Seq<Signal>, path: Seq<u32>) -> bool {
    &&& path.len() > 0
    &&& exists|j: int| 0 <= j < outputs.len() && (#[trigger] outputs[j]).kind == SignalKind::Node(path[0])
    &&& forall|k: int|
        0 <= k < path.len() - 1 ==> (#[trigger] path[k]) < nodes.len() && nodes[path[k] as int].depends_on(
            path[k + 1],
        )
}

/// Whether node `v` is reachable backward from some output.
pub open spec fn reachable(nodes: Seq<Gate>, outputs: Seq<Signal>, v: u32) -> bool {
    exists|path: Seq<u32>| is_path(nodes, outputs, path) && #[trigger] path.last() == v
}

/// A node to which an output refers is reachable.
pub proof fn lemma_reachable_output(nodes: Seq<Gate>, outputs: Seq<Signal>, j: int, v: u32)
    requires
        0 <= j < outputs.len(),
        outputs[j].kind == SignalKind::Node(v),
    ensures
        reachable(nodes, outputs, v),
{
    let path = seq![v];
    assert(is_path(nodes, outputs, path));
    assert(path.last() == v);
}

/// A node on which a reachable node depends is reachable.
pub proof fn lemma_reachable_step(nodes: Seq<Gate>, outputs: Seq<Signal>, u: u32, v: u32)
    requires
        reachable(nodes, outputs, u),
        u < nodes.len(),
        nodes[u as int].depends_on(v),
    ensures
        reachable(nodes, outputs, v),
{
    let p = choose|path: Seq<u32>| is_path(nodes, outputs, path) && #[trigger] path.last() == u;
    let path = p.push(v);
    assert(path[0] == p[0]);
    assert forall|k: int| 0 <= k < path.len() - 1 implies (#[trigger] path[k]) < nodes.len()
        && nodes[path[k] as int].depends_on(path[k + 1]) by {
        if k < p.len() - 1 {
            assert(path[k] == p[k]);
            assert(path[k + 1] == p[k + 1]);
        } else {
            assert(path[k] == u);
        }
    }
    assert(is_path(nodes, outputs, path));
    assert(path.last() == v);
}

/// A set of nodes that holds the nodes of the outputs, and with each node
/// the nodes on which it depends, holds every reachable node.
pub proof fn lemma_closed_set_holds_reachable(
    nodes: Seq<Gate>,
    outputs: Seq<Signal>,
    marked: Seq<bool>,
    v: u32,
)
    requires
        marked.len() == nodes.len(),
        forall|j: int|
            0 <= j < outputs.len() ==> ((#[trigger] outputs[j]).kind matches SignalKind::Node(w)
                ==> w < marked.len() && marked[w as int]),
        forall|u: int, w: u32|
            0 <= u < nodes.len() && marked[u] && (#[trigger] nodes[u].depends_on(w)) ==> w
                < marked.len() && marked[w as int],
        reachable(nodes, outputs, v),
    ensures
        v < marked.len(),
        marked[v as int],
{
    let path = choose|path: Seq<u32>| is_path(nodes, outputs, path) && #[trigger] path.last() == v;
    lemma_path_marked(nodes, outputs, marked, path, path.len() - 1);
}

proof fn lemma_path_marked(
    nodes: Seq<Gate>,
    outputs: Seq<Signal>,
    marked: Seq<bool>,
    path: Seq<u32>,
    k: int,
)
    requires
        marked.len() == nodes.len(),
        forall|j: int|
            0 <= j < outputs.len() ==> ((#[trigger] outputs[j]).kind matches SignalKind::Node(w)
                ==> w < marked.len() && marked[w as int]),
        forall|u: int, w: u32|
            0 <= u < nodes.len() && marked[u] && (#[trigger] nodes[u].depends_on(w)) ==> w
                < marked.len() && marked[w as int],
        is_path(nodes, outputs, path),
        0 <= k < path.len(),
    ensures
        path[k] < marked.len(),
        marked[path[k] as int],
    decreases k,
{
    if k == 0 {
        let j = choose|j: int|
            0 <= j < outputs.len() && (#[trigger] outputs[j]).kind == SignalKind::Node(path[0]);
        assert(outputs[j].kind matches SignalKind::Node(w) ==> w < marked.len() && marked[w as int]);
    } else {
        lemma_path_marked(nodes, outputs, marked, path, k - 1);
        assert(path[k - 1] < nodes.len() && nodes[path[k - 1] as int].depends_on(path[k - 1 + 1]));
    }
}

/// The number of entries that do not hold.
pub open spec fn count_false(marks: Seq<bool>) -> nat
    decreases marks.len(),
{
    if marks.len() == 0 {
        0
    } else {
        count_false(marks.drop_last()) + if marks.last() {
            0nat
        } else {
            1nat
        }
    }
}

pub proof fn lemma_count_false_update(marks: Seq<bool>, i: int)
    requires
        0 <= i < marks.len(),
        !marks[i],
    ensures
        count_false(marks.update(i, true)) + 1 == count_false(marks),
    decreases marks.len(),
{
    let after = marks.update(i, true);
    if i == marks.len() - 1 {
        assert(after.drop_last() =~= marks.drop_last());
    } else {
        lemma_count_false_update(marks.drop_last(), i);
        assert(after.drop_last() =~= marks.drop_last().update(i, true));
    }
}

/// Marks the nodes that are reachable backward from the outputs.
pub fn mark_reachable(nodes: &Vec<Gate>, outputs: &Vec<Signal>) -> (marks: Vec<bool>)
    requires
        nodes@.len() <= u32::MAX,
        forall|i: int| 0 <= i < nodes@.len() ==> (#[trigger] nodes@[i]).refers_below(nodes@.len()),
        forall|j: int| 0 <= j < outputs@.len() ==> (#[trigger] outputs@[j]).refers_below(nodes@.len()),
    ensures
        marks@.len() == nodes@.len(),
        forall|i: int|
            0 <= i < nodes@.len() ==> #[trigger] marks@[i] == reachable(nodes@, outputs@, i as u32),
{
    let n = nodes.len();
    let mut visited: Vec<bool> = Vec::new();
    let mut i: usize = 0;
    while i < n
        invariant
            i <= n,
            visited@.len() == i,
            forall|k: int| 0 <= k < i ==> !(#[trigger] visited@[k]),
        decreases n - i,
    {
        visited.push(false);
        i += 1;
    }
    let mut to_visit: Vec<u32> = Vec::new();
    let mut o: usize = 0;
    while o < outputs.len()
        invariant
            o <= outputs@.len(),
            n == nodes@.len(),
            forall|j: int|
                0 <= j < outputs@.len() ==> (#[trigger] outputs@[j]).refers_below(nodes@.len()),
            forall|k: int|
                0 <= k < to_visit@.len() ==> (#[trigger] to_visit@[k]) < n && reachable(
                    nodes@,
                    outputs@,
                    to_visit@[k],
                ),
            forall|j: int|
                0 <= j < o ==> ((#[trigger] outputs@[j]).kind matches SignalKind::Node(w)
                    ==> to_visit@.contains(w)),
        decreases outputs@.len() - o,
    {
        let output = outputs[o];
        if output.is_var() {
            let ghost before = to_visit@;
            let var = output.var();
            proof {
                lemma_reachable_output(nodes@, outputs@, o as int, var);
            }
            to_visit.push(var);
            proof {
                assert(to_visit@[before.len() as int] == var);
                assert forall|j: int| 0 <= j < o + 1 implies ((
                #[trigger] outputs@[j]).kind matches SignalKind::Node(w) ==> to_visit@.contains(
                    w,
                )) by {
                    if j < o {
                        if let SignalKind::Node(w) = outputs@[j].kind {
                            assert(before.contains(w));
                            let k = choose|k: int| 0 <= k < before.len() && before[k] == w;
                            assert(to_visit@[k] == w);
                        }
                    }
                }
            }
        }
        o += 1;
    }
    let ghost mut unvisited: nat = count_false(visited@);
    while to_visit.len() > 0
        invariant
            n == nodes@.len(),
            n <= u32::MAX,
            visited@.len() == n,
            unvisited == count_false(visited@),
            forall|i: int|
                0 <= i < nodes@.len() ==> (#[trigger] nodes@[i]).refers_below(nodes@.len()),
            forall|k: int|
                0 <= k < to_visit@.len() ==> (#[trigger] to_visit@[k]) < n && reachable(
                    nodes@,
                    outputs@,
                    to_visit@[k],
                ),
            forall|i: int|
                0 <= i < n && #[trigger] visited@[i] ==> reachable(nodes@, outputs@, i as u32),
            forall|j: int|
                0 <= j < outputs@.len() ==> ((#[trigger] outputs@[j]).kind matches SignalKind::Node(
                    w,
                ) ==> w < n && (visited@[w as int] || to_visit@.contains(w))),
            forall|u: int, w: u32|
                0 <= u < n && visited@[u] && (#[trigger] nodes@[u].depends_on(w)) ==> w < n && (
                visited@[w as int] || to_visit@.contains(w)),
        decreases unvisited, to_visit@.len(),
    {
        let ghost stack = to_visit@;
        let ghost marks = visited@;
        let node = to_visit.pop().unwrap() as usize;
        proof {
            assert(stack[stack.len() - 1] == node);
            assert forall|w: u32| stack.contains(w) implies w == node || to_visit@.contains(w) by {
                let k = choose|k: int| 0 <= k < stack.len() && stack[k] == w;
                if k < to_visit@.len() {
                    assert(to_visit@[k] == w);
                }
            }
        }
        if !visited[node] {
            visited[node] = true;
            proof {
                lemma_count_false_update(marks, node as int);
                unvisited = (unvisited - 1) as nat;
            }
            let vars = nodes[node].vars();
            let ghost popped = to_visit@;
            let mut k: usize = 0;
            while k < vars.len()
                invariant
                    k <= vars@.len(),
                    n == nodes@.len(),
                    n <= u32::MAX,
                    node < n,
                    visited@.len() == n,
                    nodes@[node as int].refers_below(nodes@.len()),
                    forall|v: u32| vars@.contains(v) <==> nodes@[node as int].depends_on(v),
                    reachable(nodes@, outputs@, node as u32),
                    forall|k: int|
                        0 <= k < to_visit@.len() ==> (#[trigger] to_visit@[k]) < n && reachable(
                            nodes@,
                            outputs@,
                            to_visit@[k],
                        ),
                    forall|w: u32| popped.contains(w) ==> to_visit@.contains(w),
                    forall|l: int| 0 <= l < k ==> to_visit@.contains(#[trigger] vars@[l]),
                decreases vars@.len() - k,
            {
                let ghost before = to_visit@;
                let v = vars[k];
                proof {
                    assert(vars@.contains(v));
                    lemma_reachable_step(nodes@, outputs@, node as u32, v);
                }
                to_visit.push(v);
                proof {
                    assert(to_visit@[before.len() as int] == v);
                    assert forall|w: u32| before.contains(w) implies to_visit@.contains(w) by {
                        let l = choose|l: int| 0 <= l < before.len() && before[l] == w;
                        assert(to_visit@[l] == w);
                    }
                }
                k += 1;
            }
            proof {
                assert forall|u: int, w: u32|
                    0 <= u < n && visited@[u] && (#[trigger] nodes@[u].depends_on(w)) implies w < n
                    && (visited@[w as int] || to_visit@.contains(w)) by {
                    if u == node {
                        assert(vars@.contains(w));
                        let l = choose|l: int| 0 <= l < vars@.len() && vars@[l] == w;
                        assert(to_visit@.contains(vars@[l]));
                    } else {
                        assert(marks[u]);
                        assert(marks[w as int] || stack.contains(w));
                    }
                }
                assert forall|j: int| 0 <= j < outputs@.len() implies ((
                #[trigger] outputs@[j]).kind matches SignalKind::Node(w) ==> w < n && (visited@[w as int]
                    || to_visit@.contains(w))) by {
                    if let SignalKind::Node(w) = outputs@[j].kind {
                        assert(w < n && (marks[w as int] || stack.contains(w)));
                    }
                }
            }
        } else {
            proof {
                assert forall|u: int, w: u32|
                    0 <= u < n && visited@[u] && (#[trigger] nodes@[u].depends_on(w)) implies w < n
                    && (visited@[w as int] || to_visit@.contains(w)) by {
                    assert(marks[w as int] || stack.contains(w));
                }
                assert forall|j: int| 0 <= j < outputs@.len() implies ((
                #[trigger] outputs@[j]).kind matches SignalKind::Node(w) ==> w < n && (visited@[w as int]
                    || to_visit@.contains(w))) by {
                    if let SignalKind::Node(w) = outputs@[j].kind {
                        assert(w < n && (marks[w as int] || stack.contains(w)));
                    }
                }
            }
        }
    }
    proof {
        assert forall|i: int| 0 <= i < nodes@.len() implies #[trigger] visited@[i] == reachable(
            nodes@,
            outputs@,
            i as u32,
        ) by {
            if reachable(nodes@, outputs@, i as u32) {
                assert forall|j: int| 0 <= j < outputs@.len() implies ((
                #[trigger] outputs@[j]).kind matches SignalKind::Node(w) ==> w < visited@.len()
                    && visited@[w as int]) by {
                    if let SignalKind::Node(w) = outputs@[j].kind {
                        assert(w < n && (visited@[w as int] || to_visit@.contains(w)));
                    }
                }
                lemma_closed_set_holds_reachable(nodes@, outputs@, visited@, i as u32);
            }
        }
    }
    visited
}

} // verus!
