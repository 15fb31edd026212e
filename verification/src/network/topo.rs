//! Topological order of the nodes of a network, within the clock step.

use super::gates::Gate;
use super::reach::{count_false, lemma_count_false_update};
use vstd::prelude::*;

verus! {

/// Whether `rank` numbers the nodes so that each node ranks above the
/// nodes on which it depends within the clock step.
pub open spec fn is_ranking(nodes: Seq<Gate>, rank: Seq<nat>) -> bool {
    &&& rank.len() == nodes.len()
    &&& forall|u: int| 0 <= u < nodes.len() ==> (#[trigger] rank[u]) < nodes.len()
    &&& forall|u: int, v: u32|
        0 <= u < nodes.len() && v < nodes.len() && (#[trigger] nodes[u].comb_depends_on(v))
            ==> rank[v as int] < rank[u]
}

/// Whether the dependencies within the clock step form no loop: the nodes
/// can be ranked so that each one ranks above those on which it depends.
pub open spec fn acyclic(nodes: Seq<Gate>) -> bool {
    exists|rank: Seq<nat>| is_ranking(nodes, rank)
}

/// Whether `path` goes through the nodes along the dependencies within the
/// clock step: each node but the last depends on the next.
pub open spec fn is_descent(nodes: Seq<Gate>, path: Seq<u32>) -> bool {
    &&& forall|k: int| 0 <= k < path.len() ==> (#[trigger] path[k]) < nodes.len()
    &&& forall|k: int|
        0 <= k < path.len() - 1 ==> #[trigger] nodes[path[k] as int].comb_depends_on(path[k + 1])
}

/// Where a node depends on itself through dependencies within the clock
/// step, these form a loop: no ranking exists.
pub proof fn lemma_loop_not_acyclic(nodes: Seq<Gate>, path: Seq<u32>)
    requires
        is_descent(nodes, path),
        path.len() >= 2,
        path.first() == path.last(),
    ensures
        !acyclic(nodes),
{
    assert forall|rank: Seq<nat>| !is_ranking(nodes, rank) by {
        if is_ranking(nodes, rank) {
            lemma_descent_ranks(nodes, path, rank, path.len() - 1);
        }
    }
}

proof fn lemma_descent_ranks(nodes: Seq<Gate>, path: Seq<u32>, rank: Seq<nat>, k: int)
    requires
        is_descent(nodes, path),
        is_ranking(nodes, rank),
        1 <= k < path.len(),
    ensures
        rank[path[k] as int] < rank[path[0] as int],
    decreases k,
{
    assert(nodes[path[k - 1] as int].comb_depends_on(path[k - 1 + 1]));
    if k > 1 {
        lemma_descent_ranks(nodes, path, rank, k - 1);
    }
}

/// Whether `order` lists every node once.
pub open spec fn is_permutation(order: Seq<u32>, nb_nodes: nat) -> bool {
    &&& order.len() == nb_nodes
    &&& forall|k: int| 0 <= k < order.len() ==> (#[trigger] order[k]) < nb_nodes
    &&& forall|k: int, l: int| 0 <= k < l < order.len() ==> order[k] != order[l]
    &&& forall|v: u32| v < nb_nodes ==> #[trigger] order.contains(v)
}

/// Whether `order` lists every node once, each after the nodes on which it
/// depends within the clock step.
pub open spec fn is_topo_order(nodes: Seq<Gate>, order: Seq<u32>) -> bool {
    &&& is_permutation(order, nodes.len())
    &&& forall|p: int, q: int|
        0 <= p < order.len() && 0 <= q < order.len() && #[trigger] nodes[order[p] as int].comb_depends_on(
            #[trigger] order[q],
        ) ==> q < p
}

/// The number of times that `v` occurs in `s`.
pub open spec fn occurrences(s: Seq<u32>, v: u32) -> nat
    decreases s.len(),
{
    if s.len() == 0 {
        0
    } else {
        occurrences(s.drop_last(), v) + if s.last() == v {
            1nat
        } else {
            0nat
        }
    }
}

proof fn lemma_occurrences(s: Seq<u32>, v: u32)
    ensures
        occurrences(s, v) <= s.len(),
        occurrences(s, v) > 0 <==> s.contains(v),
    decreases s.len(),
{
    if s.len() > 0 {
        let front = s.drop_last();
        lemma_occurrences(front, v);
        if front.contains(v) {
            let k = choose|k: int| 0 <= k < front.len() && front[k] == v;
            assert(s[k] == v);
        }
        if s.contains(v) {
            let k = choose|k: int| 0 <= k < s.len() && s[k] == v;
            if k < front.len() {
                assert(front[k] == v);
            }
        }
    }
}

proof fn lemma_occurrences_take(s: Seq<u32>, k: int, v: u32)
    requires
        0 <= k < s.len(),
    ensures
        occurrences(s.take(k + 1), v) == occurrences(s.take(k), v) + if s[k] == v {
            1nat
        } else {
            0nat
        },
{
    assert(s.take(k + 1).drop_last() =~= s.take(k));
}

/// The number of dependencies on `v` within the clock step, counted over
/// the nodes below `upto` that are not visited, each as often as it holds
/// `v`.
pub open spec fn pending(nodes: Seq<Gate>, visited: Seq<bool>, v: u32, upto: nat) -> nat
    decreases upto,
{
    if upto == 0 {
        0
    } else {
        pending(nodes, visited, v, (upto - 1) as nat) + if visited[upto - 1] {
            0nat
        } else {
            occurrences(nodes[upto - 1].comb_indices(), v)
        }
    }
}

proof fn lemma_pending(nodes: Seq<Gate>, visited: Seq<bool>, v: u32, upto: nat)
    requires
        upto <= nodes.len(),
        visited.len() == nodes.len(),
    ensures
        pending(nodes, visited, v, upto) <= 3 * upto,
        pending(nodes, visited, v, upto) == 0 ==> forall|u: int|
            0 <= u < upto && !visited[u] ==> !(#[trigger] nodes[u].comb_depends_on(v)),
        pending(nodes, visited, v, upto) > 0 ==> exists|u: int|
            0 <= u < upto && !visited[u] && #[trigger] nodes[u].comb_depends_on(v),
    decreases upto,
{
    if upto > 0 {
        lemma_pending(nodes, visited, v, (upto - 1) as nat);
        let g = nodes[upto - 1];
        lemma_occurrences(g.comb_indices(), v);
        lemma_comb_indices(g, v);
        if pending(nodes, visited, v, upto) > 0 {
            if pending(nodes, visited, v, (upto - 1) as nat) > 0 {
                let u = choose|u: int|
                    0 <= u < upto - 1 && !visited[u] && #[trigger] nodes[u].comb_depends_on(v);
                assert(0 <= u < upto && !visited[u] && nodes[u].comb_depends_on(v));
            } else {
                assert(!visited[upto - 1] && nodes[upto - 1].comb_depends_on(v));
            }
        }
    }
}

/// The combinational indices of a gate hold exactly the nodes on which it
/// depends within the clock step, at most three.
pub proof fn lemma_comb_indices(g: Gate, v: u32)
    ensures
        g.comb_indices().len() <= 3,
        g.comb_indices().contains(v) <==> g.comb_depends_on(v),
{
    super::gates::lemma_node_indices(g.operands());
    if g.comb_depends_on(v) {
        let ops = g.operands();
        assert(ops[0].kind == super::signal::SignalKind::Node(v) || ops[1].kind
            == super::signal::SignalKind::Node(v) || (ops.len() == 3 && ops[2].kind
            == super::signal::SignalKind::Node(v)));
    }
}

proof fn lemma_pending_visit(nodes: Seq<Gate>, visited: Seq<bool>, x: int, v: u32, upto: nat)
    requires
        upto <= nodes.len(),
        visited.len() == nodes.len(),
        0 <= x < nodes.len(),
        !visited[x],
    ensures
        pending(nodes, visited, v, upto) == pending(nodes, visited.update(x, true), v, upto) + if x
            < upto {
            occurrences(nodes[x].comb_indices(), v)
        } else {
            0nat
        },
    decreases upto,
{
    if upto > 0 {
        lemma_pending_visit(nodes, visited, x, v, (upto - 1) as nat);
    }
}

/// Among nodes that are not all visited, each unvisited one with an
/// unvisited node that depends on it, no numbering is a ranking.
proof fn lemma_stuck(nodes: Seq<Gate>, visited: Seq<bool>, rank: Seq<nat>, u: int)
    requires
        visited.len() == nodes.len(),
        nodes.len() <= u32::MAX,
        forall|v: u32|
            v < nodes.len() && !visited[v as int] ==> exists|w: int|
                0 <= w < nodes.len() && !visited[w] && #[trigger] nodes[w].comb_depends_on(v),
        0 <= u < nodes.len(),
        !visited[u],
    ensures
        !is_ranking(nodes, rank),
    decreases nodes.len() - rank[u],
{
    if is_ranking(nodes, rank) {
        let v = u as u32;
        let w = choose|w: int|
            0 <= w < nodes.len() && !visited[w] && #[trigger] nodes[w].comb_depends_on(v);
        assert(rank[v as int] < rank[w]);
        assert(rank[w] < nodes.len());
        lemma_stuck(nodes, visited, rank, w);
    }
}

proof fn lemma_count_false_zero(marks: Seq<bool>)
    requires
        count_false(marks) == 0,
    ensures
        forall|i: int| 0 <= i < marks.len() ==> #[trigger] marks[i],
    decreases marks.len(),
{
    if marks.len() > 0 {
        lemma_count_false_zero(marks.drop_last());
        assert forall|i: int| 0 <= i < marks.len() implies #[trigger] marks[i] by {
            if i < marks.len() - 1 {
                assert(marks.drop_last()[i]);
            }
        }
    }
}

proof fn lemma_count_false_all(marks: Seq<bool>)
    requires
        forall|i: int| 0 <= i < marks.len() ==> !(#[trigger] marks[i]),
    ensures
        count_false(marks) == marks.len(),
    decreases marks.len(),
{
    if marks.len() > 0 {
        let front = marks.drop_last();
        assert forall|i: int| 0 <= i < front.len() implies !(#[trigger] front[i]) by {
            assert(!marks[i]);
        }
        lemma_count_false_all(front);
    }
}

/// Whether the dependencies within the clock step form a loop: some
/// node depends on itself, at once or through other nodes.
pub open spec fn has_loop(nodes: Seq<Gate>) -> bool {
    exists|path: Seq<u32>|
        is_descent(nodes, path) && path.len() >= 2 && #[trigger] path.first() == path.last()
}

/// More numbers than `bound`, all below `bound`, hold some number twice.
proof fn lemma_pigeonhole(s: Seq<int>, bound: nat)
    requires
        s.len() > bound,
        forall|k: int| 0 <= k < s.len() ==> 0 <= #[trigger] s[k] < bound,
    ensures
        exists|i: int, j: int| 0 <= i < j < s.len() && s[i] == s[j],
{
    if s.no_duplicates() {
        s.unique_seq_to_set();
        vstd::set_lib::lemma_int_range(0, bound as int);
        assert(s.to_set().subset_of(vstd::set_lib::set_int_range(0, bound as int))) by {
            assert forall|x: int| s.to_set().contains(x) implies vstd::set_lib::set_int_range(
                0,
                bound as int,
            ).contains(x) by {
                let k = choose|k: int| 0 <= k < s.len() && s[k] == x;
                assert(0 <= s[k] < bound);
            }
        }
        vstd::set_lib::lemma_len_subset(s.to_set(), vstd::set_lib::set_int_range(0, bound as int));
    } else {
        let (i, j) = choose|i: int, j: int|
            0 <= i < s.len() && 0 <= j < s.len() && i != j && s[i] == s[j];
        if i < j {
            assert(0 <= i < j < s.len() && s[i] == s[j]);
        } else {
            assert(0 <= j < i < s.len() && s[j] == s[i]);
        }
    }
}

/// Whether each node that is not visited has one, not visited either,
/// that depends on it within the clock step.
spec fn stuck(nodes: Seq<Gate>, visited: Seq<bool>) -> bool {
    forall|v: u32|
        v < nodes.len() && !visited[v as int] ==> exists|w: int|
            0 <= w < nodes.len() && !visited[w] && #[trigger] nodes[w].comb_depends_on(v)
}

/// The node reached from `start` by going `k` times to a node, not
/// visited, that depends on the one before.
spec fn climb(nodes: Seq<Gate>, visited: Seq<bool>, start: int, k: nat) -> int
    decreases k,
{
    if k == 0 {
        start
    } else {
        let below = climb(nodes, visited, start, (k - 1) as nat);
        choose|w: int|
            0 <= w < nodes.len() && !visited[w] && #[trigger] nodes[w].comb_depends_on(below as u32)
    }
}

proof fn lemma_climb(nodes: Seq<Gate>, visited: Seq<bool>, start: int, k: nat)
    requires
        visited.len() == nodes.len(),
        nodes.len() <= u32::MAX,
        stuck(nodes, visited),
        0 <= start < nodes.len(),
        !visited[start],
    ensures
        0 <= climb(nodes, visited, start, k) < nodes.len(),
        !visited[climb(nodes, visited, start, k)],
        k > 0 ==> nodes[climb(nodes, visited, start, k)].comb_depends_on(
            climb(nodes, visited, start, (k - 1) as nat) as u32,
        ),
    decreases k,
{
    if k > 0 {
        lemma_climb(nodes, visited, start, (k - 1) as nat);
        let below = climb(nodes, visited, start, (k - 1) as nat);
        assert((below as u32) < nodes.len() && !visited[below as u32 as int]);
    }
}

/// Among nodes that are not all visited, each unvisited one with an
/// unvisited node that depends on it, the dependencies form a loop.
proof fn lemma_stuck_loop(nodes: Seq<Gate>, visited: Seq<bool>, start: int)
    requires
        visited.len() == nodes.len(),
        nodes.len() <= u32::MAX,
        stuck(nodes, visited),
        0 <= start < nodes.len(),
        !visited[start],
    ensures
        has_loop(nodes),
{
    let n = nodes.len();
    let up = Seq::new((n + 1) as nat, |k: int| climb(nodes, visited, start, k as nat));
    assert forall|k: int| 0 <= k < up.len() implies 0 <= #[trigger] up[k] < n by {
        lemma_climb(nodes, visited, start, k as nat);
    }
    lemma_pigeonhole(up, n);
    let (i, j) = choose|i: int, j: int| 0 <= i < j < up.len() && up[i] == up[j];
    let path = Seq::new((j - i + 1) as nat, |m: int| up[j - m] as u32);
    assert forall|m: int| 0 <= m < path.len() implies (#[trigger] path[m]) < nodes.len() by {
        assert(0 <= up[j - m] < n);
    }
    assert forall|m: int| 0 <= m < path.len() - 1 implies #[trigger] nodes[path[m] as int].comb_depends_on(
        path[m + 1],
    ) by {
        lemma_climb(nodes, visited, start, (j - m) as nat);
        assert(0 <= up[j - m] < n);
        assert(0 <= up[j - m - 1] < n);
    }
    assert(path.first() == path.last());
    assert(is_descent(nodes, path));
}

/// A topological order gives a ranking: the rank of a node is its place.
pub proof fn lemma_topo_order_acyclic(nodes: Seq<Gate>, order: Seq<u32>)
    requires
        nodes.len() <= u32::MAX,
        is_topo_order(nodes, order),
    ensures
        acyclic(nodes),
{
    let rank = Seq::new(nodes.len(), |u: int| order.index_of(u as u32) as nat);
    assert forall|u: int| 0 <= u < nodes.len() implies (#[trigger] rank[u]) < nodes.len()
        && order[rank[u] as int] == u by {
        assert(order.contains(u as u32));
        assert(order[order.index_of(u as u32)] == u as u32);
    }
    assert forall|u: int, v: u32|
        0 <= u < nodes.len() && v < nodes.len() && (#[trigger] nodes[u].comb_depends_on(
            v,
        )) implies rank[v as int] < rank[u] by {
        let p = rank[u] as int;
        let q = rank[v as int] as int;
        assert(order[p] == u);
        assert(order[q] == v);
        assert(nodes[order[p] as int].comb_depends_on(order[q]));
    }
    assert(is_ranking(nodes, rank));
}

/// The marks of `len` nodes, none of them visited.
pub open spec fn none_visited(len: nat) -> Seq<bool> {
    Seq::new(len, |i: int| false)
}

proof fn lemma_all_true(marks: Seq<bool>)
    requires
        forall|i: int| 0 <= i < marks.len() ==> #[trigger] marks[i],
    ensures
        count_false(marks) == 0,
    decreases marks.len(),
{
    if marks.len() > 0 {
        let front = marks.drop_last();
        assert forall|i: int| 0 <= i < front.len() implies #[trigger] front[i] by {
            assert(marks[i]);
        }
        lemma_all_true(front);
    }
}

proof fn lemma_occurrences_split(s: Seq<u32>, k: int, v: u32)
    requires
        0 <= k <= s.len(),
    ensures
        occurrences(s.take(k), v) <= occurrences(s, v),
    decreases s.len() - k,
{
    if k < s.len() {
        lemma_occurrences_take(s, k, v);
        lemma_occurrences_split(s, k + 1, v);
    } else {
        assert(s.take(k) =~= s);
    }
}

/// Whether a sequence holds `w`, stated so that it can be asked of a
/// vector that grows.
spec fn holds(stack: Seq<u32>, w: u32) -> bool {
    stack.contains(w)
}

proof fn lemma_holds_push(stack: Seq<u32>, d: u32)
    ensures
        holds(stack.push(d), d),
        forall|w: u32| holds(stack, w) ==> #[trigger] holds(stack.push(d), w),
{
    assert(stack.push(d)[stack.len() as int] == d);
    assert forall|w: u32| holds(stack, w) implies #[trigger] holds(stack.push(d), w) by {
        let l = choose|l: int| 0 <= l < stack.len() && stack[l] == w;
        assert(stack.push(d)[l] == w);
    }
}

proof fn lemma_holds_pop(stack: Seq<u32>)
    requires
        stack.len() > 0,
    ensures
        forall|w: u32|
            #[trigger] holds(stack, w) ==> w == stack.last() || holds(stack.drop_last(), w),
{
    assert forall|w: u32| #[trigger] holds(stack, w) implies w == stack.last() || holds(
        stack.drop_last(),
        w,
    ) by {
        let k = choose|k: int| 0 <= k < stack.len() && stack[k] == w;
        if k < stack.len() - 1 {
            assert(stack.drop_last()[k] == w);
        }
    }
}

/// For each node, the number of dependencies on it within the clock step.
fn count_dependents(nodes: &Vec<Gate>) -> (count: Vec<u64>)
    requires
        nodes@.len() <= u32::MAX,
        forall|i: int| 0 <= i < nodes@.len() ==> (#[trigger] nodes@[i]).refers_below(nodes@.len()),
    ensures
        count@.len() == nodes@.len(),
        forall|v: u32|
            v < nodes@.len() ==> count@[v as int] == #[trigger] pending(
                nodes@,
                none_visited(nodes@.len()),
                v,
                nodes@.len(),
            ),
{
    let n = nodes.len();
    let ghost fresh = none_visited(nodes@.len());
    let mut count: Vec<u64> = Vec::new();
    let mut i: usize = 0;
    while i < n
        invariant
            i <= n,
            count@.len() == i,
            forall|k: int| 0 <= k < i ==> #[trigger] count@[k] == 0,
        decreases n - i,
    {
        count.push(0);
        i += 1;
    }
    let mut i: usize = 0;
    while i < n
        invariant
            i <= n,
            n == nodes@.len(),
            n <= u32::MAX,
            fresh == none_visited(nodes@.len()),
            count@.len() == n,
            forall|i: int|
                0 <= i < nodes@.len() ==> (#[trigger] nodes@[i]).refers_below(nodes@.len()),
            forall|v: u32|
                v < n ==> count@[v as int] == #[trigger] pending(nodes@, fresh, v, i as nat),
        decreases n - i,
    {
        let vars = nodes[i].comb_vars();
        let ghost before = count@;
        let mut k: usize = 0;
        proof {
            lemma_comb_indices(nodes@[i as int], 0);
        }
        while k < vars.len()
            invariant
                k <= vars@.len(),
                vars@.len() <= 3,
                i < n,
                n == nodes@.len(),
                n <= u32::MAX,
                count@.len() == n,
                before.len() == n,
                fresh == none_visited(nodes@.len()),
                vars@ == nodes@[i as int].comb_indices(),
                nodes@[i as int].refers_below(nodes@.len()),
                forall|v: u32| vars@.contains(v) <==> nodes@[i as int].comb_depends_on(v),
                forall|v: u32|
                    v < n ==> before[v as int] == #[trigger] pending(nodes@, fresh, v, i as nat),
                forall|v: u32|
                    v < n ==> count@[v as int] == before[v as int] + #[trigger] occurrences(
                        vars@.take(k as int),
                        v,
                    ),
            decreases vars@.len() - k,
        {
            let d = vars[k];
            let ghost counts = count@;
            proof {
                assert(vars@.contains(d));
                assert(nodes@[i as int].depends_on(d));
                lemma_pending(nodes@, fresh, d, i as nat);
                lemma_occurrences(vars@.take(k as int), d);
                assert(before[d as int] == pending(nodes@, fresh, d, i as nat));
                assert(counts[d as int] == before[d as int] + occurrences(vars@.take(k as int), d));
            }
            count[d as usize] = count[d as usize] + 1;
            proof {
                assert forall|v: u32| v < n implies count@[v as int] == before[v as int]
                    + #[trigger] occurrences(vars@.take(k + 1), v) by {
                    lemma_occurrences_take(vars@, k as int, v);
                    assert(counts[v as int] == before[v as int] + occurrences(
                        vars@.take(k as int),
                        v,
                    ));
                }
            }
            k += 1;
        }
        i += 1;
        proof {
            assert(vars@.take(k as int) =~= vars@);
            assert forall|v: u32| v < n implies count@[v as int] == #[trigger] pending(
                nodes@,
                fresh,
                v,
                i as nat,
            ) by {
                assert(!fresh[i - 1]);
                assert(before[v as int] == pending(nodes@, fresh, v, (i - 1) as nat));
                assert(count@[v as int] == before[v as int] + occurrences(vars@.take(k as int), v));
            }
        }
    }
    count
}

/// The state of the sort: `done` lists the visited nodes, each after every
/// node that depends on it; `count` holds for each node the dependencies
/// on it from nodes not yet visited; `stack` holds every node that is
/// ready, that is, unvisited with a count of 0.
spec fn sorting(
    nodes: Seq<Gate>,
    count: Seq<u64>,
    visited: Seq<bool>,
    stack: Seq<u32>,
    done: Seq<u32>,
) -> bool {
    let n = nodes.len();
    &&& n <= u32::MAX
    &&& count.len() == n
    &&& visited.len() == n
    &&& forall|i: int| 0 <= i < n ==> (#[trigger] nodes[i]).refers_below(n)
    &&& done.len() + count_false(visited) == n
    &&& forall|k: int| 0 <= k < done.len() ==> (#[trigger] done[k]) < n
    &&& forall|k: int, l: int| 0 <= k < l < done.len() ==> done[k] != done[l]
    &&& forall|w: u32| w < n ==> visited[w as int] == #[trigger] holds(done, w)
    &&& forall|w: u32| w < n ==> count[w as int] == #[trigger] pending(nodes, visited, w, n)
    &&& forall|k: int| 0 <= k < stack.len() ==> (#[trigger] stack[k]) < n && count[stack[k] as int] == 0
    &&& forall|w: u32|
        w < n && !visited[w as int] && count[w as int] == 0 ==> #[trigger] holds(stack, w)
    &&& forall|p: int, u: int|
        0 <= p < done.len() && 0 <= u < n && #[trigger] nodes[u].comb_depends_on(#[trigger] done[p])
            ==> exists|q: int| 0 <= q < p && done[q] == u
}

/// The nodes that are ready at the start: those on which nothing depends.
fn ready_nodes(Ghost(nodes): Ghost<Seq<Gate>>, count: &Vec<u64>) -> (r: (Vec<bool>, Vec<u32>))
    requires
        nodes.len() <= u32::MAX,
        count@.len() == nodes.len(),
        forall|i: int| 0 <= i < nodes.len() ==> (#[trigger] nodes[i]).refers_below(nodes.len()),
        forall|v: u32|
            v < nodes.len() ==> count@[v as int] == #[trigger] pending(
                nodes,
                none_visited(nodes.len()),
                v,
                nodes.len(),
            ),
    ensures
        sorting(nodes, count@, r.0@, r.1@, Seq::empty()),
{
    let n = count.len();
    let mut visited: Vec<bool> = Vec::new();
    let mut to_visit: Vec<u32> = Vec::new();
    let mut v: usize = 0;
    while v < n
        invariant
            v <= n,
            n == nodes.len(),
            n <= u32::MAX,
            count@.len() == n,
            visited@.len() == v,
            forall|k: int| 0 <= k < v ==> !(#[trigger] visited@[k]),
            forall|k: int|
                0 <= k < to_visit@.len() ==> (#[trigger] to_visit@[k]) < n && count@[to_visit@[k] as int]
                    == 0,
            forall|w: u32| w < v && count@[w as int] == 0 ==> #[trigger] holds(to_visit@, w),
        decreases n - v,
    {
        visited.push(false);
        if count[v] == 0 {
            proof {
                lemma_holds_push(to_visit@, v as u32);
            }
            to_visit.push(v as u32);
        }
        v += 1;
    }
    proof {
        assert(visited@ =~= none_visited(nodes.len()));
        lemma_count_false_all(visited@);
        let done = Seq::<u32>::empty();
        assert forall|w: u32| w < n implies visited@[w as int] == #[trigger] holds(done, w) by {
            assert(!done.contains(w));
        }
    }
    (visited, to_visit)
}

/// Visits a ready node: it joins the visited nodes, the dependencies from
/// it no longer count, and the nodes that this makes ready join the stack.
fn visit(
    nodes: &Vec<Gate>,
    x: u32,
    count: &mut Vec<u64>,
    visited: &mut Vec<bool>,
    to_visit: &mut Vec<u32>,
    rev_order: &mut Vec<u32>,
)
    requires
        sorting(nodes@, old(count)@, old(visited)@, old(to_visit)@.push(x), old(rev_order)@),
        !old(visited)@[x as int],
    ensures
        sorting(nodes@, final(count)@, final(visited)@, final(to_visit)@, final(rev_order)@),
        count_false(final(visited)@) < count_false(old(visited)@),
{
    let n = nodes.len();
    let ghost stack = to_visit@.push(x);
    let ghost marks = visited@;
    let ghost done = rev_order@;
    let ghost old_count = count@;
    assert(stack[stack.len() - 1] == x);
    assert(x < n && old_count[x as int] == 0);
    visited[x as usize] = true;
    rev_order.push(x);
    let vars = nodes[x as usize].comb_vars();
    proof {
        lemma_count_false_update(marks, x as int);
        lemma_holds_push(done, x);
        lemma_holds_pop(stack);
        assert(stack.drop_last() =~= to_visit@);
        assert forall|w: u32| w < n implies visited@[w as int] == #[trigger] holds(rev_order@, w) by {
            assert(marks[w as int] == holds(done, w));
            if holds(rev_order@, w) && w != x {
                let k = choose|k: int| 0 <= k < rev_order@.len() && rev_order@[k] == w;
                assert(done[k] == w);
            }
        }
        assert forall|k: int, l: int| 0 <= k < l < rev_order@.len() implies rev_order@[k]
            != rev_order@[l] by {
            if l == done.len() {
                assert(done[k] == rev_order@[k]);
                assert(holds(done, rev_order@[k]));
                assert(marks[rev_order@[k] as int] == holds(done, rev_order@[k]));
            }
        }
        // No unvisited node depends on x, so every node that does comes before it.
        lemma_pending(nodes@, marks, x, n as nat);
        assert(old_count[x as int] == pending(nodes@, marks, x, n as nat));
        assert forall|p: int, u: int|
            0 <= p < rev_order@.len() && 0 <= u < n && #[trigger] nodes@[u].comb_depends_on(
                #[trigger] rev_order@[p],
            ) implies exists|q: int| 0 <= q < p && rev_order@[q] == u by {
            if p < done.len() {
                assert(nodes@[u].comb_depends_on(done[p]));
                let q = choose|q: int| 0 <= q < p && done[q] == u;
                assert(rev_order@[q] == u);
            } else {
                assert(marks[u]);
                assert(marks[u as u32 as int] == holds(done, u as u32));
                let q = choose|q: int| 0 <= q < done.len() && done[q] == u as u32;
                assert(rev_order@[q] == u);
            }
        }
        assert forall|w: u32| w < n implies old_count[w as int] == #[trigger] pending(
            nodes@,
            visited@,
            w,
            n as nat,
        ) + occurrences(vars@, w) by {
            lemma_pending_visit(nodes@, marks, x as int, w, n as nat);
            assert(old_count[w as int] == pending(nodes@, marks, w, n as nat));
        }
        assert forall|w: u32|
            w < n && !visited@[w as int] && old_count[w as int] == 0 implies #[trigger] holds(
            to_visit@,
            w,
        ) by {
            assert(holds(stack, w));
        }
        assert forall|k: int| 0 <= k < to_visit@.len() implies (#[trigger] to_visit@[k]) < n
            && old_count[to_visit@[k] as int] == 0 by {
            assert(stack[k] == to_visit@[k]);
        }
    }
    let mut k: usize = 0;
    while k < vars.len()
        invariant
            k <= vars@.len(),
            n == nodes@.len(),
            n <= u32::MAX,
            x < n,
            count@.len() == n,
            visited@.len() == n,
            old_count.len() == n,
            nodes@[x as int].refers_below(nodes@.len()),
            forall|v: u32| vars@.contains(v) <==> nodes@[x as int].comb_depends_on(v),
            forall|w: u32|
                w < n ==> old_count[w as int] == #[trigger] pending(nodes@, visited@, w, n as nat)
                    + occurrences(vars@, w),
            forall|w: u32|
                w < n ==> count@[w as int] + #[trigger] occurrences(vars@.take(k as int), w)
                    == old_count[w as int],
            forall|k: int|
                0 <= k < to_visit@.len() ==> (#[trigger] to_visit@[k]) < n && count@[to_visit@[k] as int]
                    == 0,
            forall|w: u32|
                w < n && !visited@[w as int] && count@[w as int] == 0 ==> #[trigger] holds(
                    to_visit@,
                    w,
                ),
        decreases vars@.len() - k,
    {
        let d = vars[k];
        let ghost before = to_visit@;
        let ghost counts = count@;
        proof {
            assert(vars@.contains(d));
            assert(nodes@[x as int].depends_on(d));
            lemma_occurrences_take(vars@, k as int, d);
            lemma_occurrences_split(vars@, k as int + 1, d);
            assert(old_count[d as int] == pending(nodes@, visited@, d, n as nat) + occurrences(
                vars@,
                d,
            ));
            assert(counts[d as int] + occurrences(vars@.take(k as int), d) == old_count[d as int]);
        }
        count[d as usize] = count[d as usize] - 1;
        if count[d as usize] == 0 {
            to_visit.push(d);
        }
        proof {
            lemma_holds_push(before, d);
            assert forall|w: u32| w < n implies count@[w as int] + #[trigger] occurrences(
                vars@.take(k + 1),
                w,
            ) == old_count[w as int] by {
                lemma_occurrences_take(vars@, k as int, w);
                assert(counts[w as int] + occurrences(vars@.take(k as int), w)
                    == old_count[w as int]);
            }
            assert forall|l: int| 0 <= l < to_visit@.len() implies (#[trigger] to_visit@[l]) < n
                && count@[to_visit@[l] as int] == 0 by {
                if l < before.len() {
                    assert(to_visit@[l] == before[l]);
                    let w = before[l];
                    assert(counts[w as int] == 0);
                    assert(counts[w as int] + occurrences(vars@.take(k as int), w)
                        == old_count[w as int]);
                    assert(old_count[w as int] == pending(nodes@, visited@, w, n as nat)
                        + occurrences(vars@, w));
                    lemma_occurrences_split(vars@, k as int, w);
                    lemma_occurrences_take(vars@, k as int, w);
                    lemma_occurrences_split(vars@, k as int + 1, w);
                }
            }
            assert forall|w: u32|
                w < n && !visited@[w as int] && count@[w as int] == 0 implies #[trigger] holds(
                to_visit@,
                w,
            ) by {
                if w != d {
                    assert(counts[w as int] == 0);
                    assert(holds(before, w));
                }
            }
        }
        k += 1;
    }
    proof {
        assert(vars@.take(k as int) =~= vars@);
        assert forall|w: u32| w < n implies count@[w as int] == #[trigger] pending(
            nodes@,
            visited@,
            w,
            n as nat,
        ) by {
            assert(count@[w as int] + occurrences(vars@.take(k as int), w) == old_count[w as int]);
            assert(old_count[w as int] == pending(nodes@, visited@, w, n as nat) + occurrences(
                vars@,
                w,
            ));
        }
    }
}

/// The visited nodes from the last to the first, once all are visited.
fn reversed(Ghost(nodes): Ghost<Seq<Gate>>, rev_order: &Vec<u32>) -> (order: Vec<u32>)
    requires
        exists|count: Seq<u64>, visited: Seq<bool>, stack: Seq<u32>|
            sorting(nodes, count, visited, stack, rev_order@),
        rev_order@.len() == nodes.len(),
    ensures
        is_topo_order(nodes, order@),
{
    let n = rev_order.len();
    let mut order: Vec<u32> = Vec::new();
    let mut k: usize = 0;
    while k < n
        invariant
            k <= n,
            rev_order@.len() == n,
            order@.len() == k,
            forall|l: int| 0 <= l < k ==> #[trigger] order@[l] == rev_order@[n - 1 - l],
        decreases n - k,
    {
        order.push(rev_order[n - 1 - k]);
        k += 1;
    }
    proof {
        let (count, visited, stack) = choose|count: Seq<u64>, visited: Seq<bool>, stack: Seq<u32>|
            sorting(nodes, count, visited, stack, rev_order@);
        lemma_count_false_zero(visited);
        assert forall|v: u32| v < n implies #[trigger] order@.contains(v) by {
            assert(visited[v as int]);
            assert(visited[v as int] == holds(rev_order@, v));
            let q = choose|q: int| 0 <= q < rev_order@.len() && rev_order@[q] == v;
            assert(order@[n - 1 - q] == v);
        }
        assert forall|p: int, q: int|
            0 <= p < order@.len() && 0 <= q < order@.len() && #[trigger] nodes[order@[p] as int].comb_depends_on(
                #[trigger] order@[q],
            ) implies q < p by {
            let u = order@[p] as int;
            assert(order@[p] == rev_order@[n - 1 - p]);
            assert(order@[q] == rev_order@[n - 1 - q]);
            assert(nodes[u].comb_depends_on(rev_order@[n - 1 - q]));
            let r = choose|r: int| 0 <= r < n - 1 - q && rev_order@[r] == u;
            if r < n - 1 - p {
                assert(rev_order@[r] != rev_order@[n - 1 - p]);
            } else if r > n - 1 - p {
                assert(rev_order@[n - 1 - p] != rev_order@[r]);
            }
        }
        assert forall|k: int, l: int| 0 <= k < l < order@.len() implies order@[k] != order@[l] by {
            assert(rev_order@[n - 1 - l] != rev_order@[n - 1 - k]);
        }
        assert(is_permutation(order@, nodes.len()));
    }
    order
}

/// An order of the nodes in which each comes after the nodes on which it
/// depends within the clock step; none exactly where these dependencies
/// form a loop.
pub fn topological_order(nodes: &Vec<Gate>) -> (result: Option<Vec<u32>>)
    requires
        nodes@.len() <= u32::MAX,
        forall|i: int| 0 <= i < nodes@.len() ==> (#[trigger] nodes@[i]).refers_below(nodes@.len()),
    ensures
        result matches Some(order) ==> is_topo_order(nodes@, order@),
        result is Some <==> acyclic(nodes@),
        result is None <==> has_loop(nodes@),
{
    let n = nodes.len();
    let mut count = count_dependents(nodes);
    let (mut visited, mut to_visit) = ready_nodes(Ghost(nodes@), &count);
    let mut rev_order: Vec<u32> = Vec::new();
    while to_visit.len() > 0
        invariant
            n == nodes@.len(),
            sorting(nodes@, count@, visited@, to_visit@, rev_order@),
        decreases count_false(visited@), to_visit@.len(),
    {
        let ghost stack = to_visit@;
        let x = to_visit.pop().unwrap();
        proof {
            assert(to_visit@.push(x) =~= stack);
            assert(stack[stack.len() - 1] == x);
        }
        if !visited[x as usize] {
            visit(nodes, x, &mut count, &mut visited, &mut to_visit, &mut rev_order);
        } else {
            proof {
                lemma_holds_pop(stack);
                assert(stack.drop_last() =~= to_visit@);
                assert forall|k: int| 0 <= k < to_visit@.len() implies (#[trigger] to_visit@[k]) < n
                    && count@[to_visit@[k] as int] == 0 by {
                    assert(stack[k] == to_visit@[k]);
                }
                assert forall|w: u32|
                    w < n && !visited@[w as int] && count@[w as int] == 0 implies #[trigger] holds(
                    to_visit@,
                    w,
                ) by {
                    assert(holds(stack, w));
                }
            }
        }
    }
    if rev_order.len() != n {
        proof {
            if forall|i: int| 0 <= i < n ==> #[trigger] visited@[i] {
                lemma_all_true(visited@);
            }
            let u = choose|i: int| 0 <= i < n && !(#[trigger] visited@[i]);
            assert forall|v: u32| v < nodes@.len() && !visited@[v as int] implies exists|w: int|
                0 <= w < nodes@.len() && !visited@[w] && #[trigger] nodes@[w].comb_depends_on(v) by {
                lemma_pending(nodes@, visited@, v, n as nat);
                if count@[v as int] == 0 {
                    assert(holds(to_visit@, v));
                }
                assert(count@[v as int] == pending(nodes@, visited@, v, n as nat));
            }
            assert forall|rank: Seq<nat>| !is_ranking(nodes@, rank) by {
                lemma_stuck(nodes@, visited@, rank, u);
            }
            assert(stuck(nodes@, visited@));
            lemma_stuck_loop(nodes@, visited@, u);
        }
        return None;
    }
    let order = reversed(Ghost(nodes@), &rev_order);
    proof {
        lemma_topo_order_acyclic(nodes@, order@);
        if has_loop(nodes@) {
            let path = choose|path: Seq<u32>|
                is_descent(nodes@, path) && path.len() >= 2 && #[trigger] path.first()
                    == path.last();
            lemma_loop_not_acyclic(nodes@, path);
        }
    }
    Some(order)
}

} // verus!
