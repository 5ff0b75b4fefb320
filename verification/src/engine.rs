//! The structure of the autograd computation graph.
//!
//! Every node of the graph is created after the nodes it consumes, so a node's id is always
//! larger than the ids of its children and the graph is acyclic by construction. The backward
//! pass visits the nodes reachable from the output in reverse topological order, so that each
//! node's gradient is complete before it is pushed on to its children.

use vstd::prelude::*;

verus! {

/// Whether every edge of `g` points from a node to a node created before it.
pub open spec fn graph_wf(g: Seq<Seq<usize>>) -> bool {
    forall|i: int, k: int| 0 <= i < g.len() && 0 <= k < g[i].len() ==> #[trigger] g[i][k] < i
}

/// Whether `c` is a child (an input) of node `p` in `g`.
pub open spec fn is_edge(g: Seq<Seq<usize>>, p: int, c: int) -> bool {
    &&& 0 <= p < g.len()
    &&& exists|k: int| 0 <= k < g[p].len() && #[trigger] g[p][k] == c
}

/// Whether `path` is a nonempty walk along edges of `g` (each entry is a child of the previous).
pub open spec fn is_path(g: Seq<Seq<usize>>, path: Seq<int>) -> bool {
    &&& path.len() >= 1
    &&& 0 <= path[0] < g.len()
    &&& forall|i: int| 0 <= i < path.len() - 1 ==> #[trigger] is_edge(g, path[i], path[i + 1])
}

/// Whether node `to` can be reached from node `from` by following child edges (every node
/// reaches itself).
pub open spec fn reachable(g: Seq<Seq<usize>>, from: int, to: int) -> bool {
    exists|path: Seq<int>| #[trigger] is_path(g, path) && path[0] == from && path.last() == to
}

/// A node reaches only nodes created no later than itself.
pub proof fn lemma_reachable_not_later(g: Seq<Seq<usize>>, from: int, to: int)
    requires
        graph_wf(g),
        reachable(g, from, to),
    ensures
        to <= from,
        0 <= to,
{
    let path = choose|path: Seq<int>| #[trigger] is_path(g, path) && path[0] == from && path.last() == to;
    assert forall|i: int| 0 <= i < path.len() implies 0 <= #[trigger] path[i] <= from by {
        lemma_path_descends(g, path, i);
    }
}

/// Along a path the node ids never increase and stay valid.
proof fn lemma_path_descends(g: Seq<Seq<usize>>, path: Seq<int>, i: int)
    requires
        graph_wf(g),
        is_path(g, path),
        0 <= i < path.len(),
    ensures
        0 <= path[i] <= path[0],
        path[i] < g.len(),
    decreases i,
{
    if i > 0 {
        lemma_path_descends(g, path, i - 1);
        let j = i - 1;
        assert(is_edge(g, path[j], path[j + 1]));
        let k = choose|k: int| 0 <= k < g[path[j]].len() && #[trigger] g[path[j]][k] == path[j + 1];
        assert(g[path[j]][k] < path[j]);
    }
}

/// Every node reaches itself.
proof fn lemma_reachable_self(g: Seq<Seq<usize>>, v: int)
    requires
        0 <= v < g.len(),
    ensures
        reachable(g, v, v),
{
    let path = seq![v];
    assert(is_path(g, path));
}

/// A node reaches everything that one of its children reaches.
proof fn lemma_reachable_through_child(g: Seq<Seq<usize>>, v: int, c: int, u: int)
    requires
        is_edge(g, v, c),
        reachable(g, c, u),
    ensures
        reachable(g, v, u),
{
    let path = choose|path: Seq<int>| #[trigger] is_path(g, path) && path[0] == c && path.last() == u;
    let longer = seq![v].add(path);
    assert forall|i: int| 0 <= i < longer.len() - 1 implies #[trigger] is_edge(g, longer[i], longer[i + 1]) by {
        if i > 0 {
            let j = i - 1;
            assert(longer[i] == path[j]);
            assert(longer[i + 1] == path[j + 1]);
            assert(is_edge(g, path[j], path[j + 1]));
        }
    }
    assert(is_path(g, longer));
}

/// The depth-first post-order from node `v`, skipping the nodes already in `done`: the new nodes
/// found through each child of `v` in turn, then `v` itself (nothing if `v` is in `done`).
pub open spec fn dfs_from(g: Seq<Seq<usize>>, v: int, done: Seq<usize>) -> Seq<usize>
    decreases v, (if 0 <= v < g.len() { g[v].len() } else { 0 }) + 1,
{
    if done.contains(v as usize) || !(0 <= v < g.len()) {
        Seq::empty()
    } else {
        dfs_children(g, v, g[v].len() as int, done).push(v as usize)
    }
}

/// The new nodes found, in depth-first post-order, through the first `k` children of `v`,
/// skipping the nodes in `done` and those found through earlier children.
pub open spec fn dfs_children(g: Seq<Seq<usize>>, v: int, k: int, done: Seq<usize>) -> Seq<usize>
    decreases v, (if k > 0 { k } else { 0 }),
{
    if k <= 0 || !(0 <= v < g.len()) || k > g[v].len() {
        Seq::empty()
    } else {
        let prev = dfs_children(g, v, k - 1, done);
        let c = g[v][k - 1] as int;
        if 0 <= c < v {
            prev + dfs_from(g, c, done + prev)
        } else {
            prev
        }
    }
}

/// The nodes that a partial depth-first search has finished, in the order it finished them.
/// Every finished node appears once, has been marked visited, and has all of its children
/// finished before it.
spec fn search_inv(g: Seq<Seq<usize>>, topo: Seq<usize>, visited: Seq<bool>) -> bool {
    &&& visited.len() == g.len()
    &&& forall|i: int| 0 <= i < topo.len() ==> (#[trigger] topo[i]) < g.len()
    &&& topo.no_duplicates()
    &&& forall|i: int| 0 <= i < topo.len() ==> visited[#[trigger] topo[i] as int]
    &&& closed_prefixes(g, topo)
}

/// Every child of a node in `order` appears in `order` before it.
spec fn closed_prefixes(g: Seq<Seq<usize>>, order: Seq<usize>) -> bool {
    forall|i: int, k: int|
        0 <= i < order.len() && 0 <= k < g[order[i] as int].len()
        ==> order.take(i).contains(#[trigger] g[order[i] as int][k])
}

/// A sequence that is closed under children and contains `root` contains every node that `root`
/// reaches.
proof fn lemma_closed_order_complete(g: Seq<Seq<usize>>, order: Seq<usize>, root: int, u: int)
    requires
        graph_wf(g),
        closed_prefixes(g, order),
        order.contains(root as usize),
        0 <= root < g.len(),
        g.len() <= usize::MAX,
        reachable(g, root, u),
    ensures
        order.contains(u as usize),
        0 <= u <= usize::MAX,
{
    let path = choose|path: Seq<int>| #[trigger] is_path(g, path) && path[0] == root && path.last() == u;
    assert forall|i: int| 0 <= i < path.len() implies 0 <= #[trigger] path[i] < g.len() && order.contains(path[i] as usize) by {
        lemma_path_in_order(g, order, path, i);
    }
}

/// Every node of a path that starts inside a closed sequence lies in that sequence.
proof fn lemma_path_in_order(g: Seq<Seq<usize>>, order: Seq<usize>, path: Seq<int>, i: int)
    requires
        graph_wf(g),
        closed_prefixes(g, order),
        is_path(g, path),
        order.contains(path[0] as usize),
        g.len() <= usize::MAX,
        0 <= i < path.len(),
    ensures
        0 <= path[i] < g.len(),
        order.contains(path[i] as usize),
    decreases i,
{
    lemma_path_descends(g, path, i);
    if i > 0 {
        lemma_path_in_order(g, order, path, i - 1);
        let j = i - 1;
        assert(is_edge(g, path[j], path[j + 1]));
        let k = choose|k: int| 0 <= k < g[path[j]].len() && #[trigger] g[path[j]][k] == path[j + 1];
        let p = choose|p: int| 0 <= p < order.len() && order[p] == path[j] as usize;
        assert(order.take(p).contains(g[order[p] as int][k]));
        let m = choose|m: int| 0 <= m < p && order.take(p)[m] == g[order[p] as int][k];
        assert(order[m] == path[i] as usize);
    }
}

/// The chain-rule updates of one node `v`, as `(v, k)` for each of its children slots `k` in
/// recorded order.
pub open spec fn node_edges(g: Seq<Seq<usize>>, v: usize) -> Seq<(usize, usize)> {
    Seq::new(g[v as int].len(), |k: int| (v, k as usize))
}

/// The updates of the backward pass over `order`: the nodes from last to first, each node's
/// children in recorded order.
pub open spec fn backward_schedule(g: Seq<Seq<usize>>, order: Seq<usize>) -> Seq<(usize, usize)>
    decreases order.len(),
{
    if order.len() == 0 {
        Seq::empty()
    } else {
        node_edges(g, order.last()) + backward_schedule(g, order.drop_last())
    }
}

/// Every update of the backward schedule belongs to a node of `order` and names one of that
/// node's child slots; returns the node's index in `order`.
proof fn lemma_schedule_entry(g: Seq<Seq<usize>>, order: Seq<usize>, t: int) -> (a: int)
    requires
        forall|j: int| 0 <= j < order.len() ==> #[trigger] order[j] < g.len(),
        0 <= t < backward_schedule(g, order).len(),
    ensures
        0 <= a < order.len(),
        backward_schedule(g, order)[t].0 == order[a],
        backward_schedule(g, order)[t].1 < g[order[a] as int].len(),
    decreases order.len(),
{
    let n = order.len() as int;
    let e = node_edges(g, order.last());
    let rest = order.drop_last();
    if t < e.len() {
        n - 1
    } else {
        lemma_schedule_entry(g, rest, t - e.len())
    }
}

/// The updates of a node that comes later in `order` all precede those of an earlier node.
proof fn lemma_schedule_blocks_descend(g: Seq<Seq<usize>>, order: Seq<usize>, t: int, t2: int, a: int, a2: int)
    requires
        order.no_duplicates(),
        forall|j: int| 0 <= j < order.len() ==> #[trigger] order[j] < g.len(),
        0 <= t < backward_schedule(g, order).len(),
        0 <= t2 < backward_schedule(g, order).len(),
        0 <= a < a2 < order.len(),
        backward_schedule(g, order)[t].0 == order[a],
        backward_schedule(g, order)[t2].0 == order[a2],
    ensures
        t2 < t,
    decreases order.len(),
{
    let n = order.len() as int;
    let e = node_edges(g, order.last());
    let rest = order.drop_last();
    let sched = backward_schedule(g, order);
    assert(sched == e + backward_schedule(g, rest));
    if t < e.len() {
        assert(order[a] == order[n - 1]);
    }
    if t2 >= e.len() {
        let b = lemma_schedule_entry(g, rest, t2 - e.len());
        assert(rest[b] == order[b]);
        if a2 == n - 1 {
            assert(order[b] == order[n - 1]);
        } else {
            assert(rest[a] == order[a] && rest[a2] == order[a2]);
            lemma_schedule_blocks_descend(g, rest, t - e.len(), t2 - e.len(), a, a2);
        }
    }
}

/// A node's gradient is complete before the backward pass reads it: in the schedule over an
/// order that lists each node once and every node after all of its children (as
/// `topological_order` returns it), every update that writes a node's gradient comes before
/// every update that reads it as the upstream gradient.
pub proof fn lemma_gradient_complete_before_use(g: Seq<Seq<usize>>, order: Seq<usize>, tw: int, tr: int)
    requires
        order.no_duplicates(),
        forall|j: int| 0 <= j < order.len() ==> #[trigger] order[j] < g.len(),
        forall|i: int, j: int|
            0 <= i < order.len() && 0 <= j < order.len() && is_edge(g, order[j] as int, order[i] as int)
            ==> i < j,
        0 <= tw < backward_schedule(g, order).len(),
        0 <= tr < backward_schedule(g, order).len(),
        g[backward_schedule(g, order)[tw].0 as int][backward_schedule(g, order)[tw].1 as int]
            == backward_schedule(g, order)[tr].0,
    ensures
        tw < tr,
{
    let sched = backward_schedule(g, order);
    let a = lemma_schedule_entry(g, order, tw);
    let b = lemma_schedule_entry(g, order, tr);
    let k = sched[tw].1 as int;
    assert(g[order[a] as int][k] == order[b]);
    assert(is_edge(g, order[a] as int, order[b] as int));
    lemma_schedule_blocks_descend(g, order, tr, tw, b, a);
}

/// One update of the backward pass with exact arithmetic: the gradient of the `k`-th child of
/// node `p` grows by the local derivative `locals[p][k]` times `p`'s gradient.
pub open spec fn exact_step(g: Seq<Seq<usize>>, locals: Seq<Seq<int>>, x: Seq<int>, edge: (usize, usize)) -> Seq<int> {
    let p = edge.0 as int;
    let k = edge.1 as int;
    let c = g[p][k] as int;
    x.update(c, x[c] + locals[p][k] * x[p])
}

/// The gradients after applying the updates `sched` in turn to `x`, with exact arithmetic.
pub open spec fn exact_run(g: Seq<Seq<usize>>, locals: Seq<Seq<int>>, sched: Seq<(usize, usize)>, x: Seq<int>) -> Seq<int>
    decreases sched.len(),
{
    if sched.len() == 0 {
        x
    } else {
        exact_step(g, locals, exact_run(g, locals, sched.drop_last(), x), sched.last())
    }
}

/// The sum of the local derivatives of node `p` over its first `k` child slots that hold `u`.
pub open spec fn slot_total(g: Seq<Seq<usize>>, locals: Seq<Seq<int>>, p: int, u: int, k: int) -> int
    decreases k,
{
    if k <= 0 {
        0
    } else {
        slot_total(g, locals, p, u, k - 1) + if g[p][k - 1] == u { locals[p][k - 1] } else { 0 }
    }
}

/// The local derivative of node `p` with respect to node `u`, summed over every child slot of `p`
/// that holds `u` (zero when `u` is not a child of `p`).
pub open spec fn local_total(g: Seq<Seq<usize>>, locals: Seq<Seq<int>>, p: int, u: int) -> int {
    slot_total(g, locals, p, u, g[p].len() as int)
}

/// The sum, over every path from `root` down to `u`, of the product of the local derivatives
/// along it: 1 for `u == root` (the empty path), and otherwise the sum over the last edge of
/// each path, from a parent `q` of `u`, of that edge's local derivative times the sum for `q`.
pub open spec fn path_sum(g: Seq<Seq<usize>>, locals: Seq<Seq<int>>, root: int, u: int) -> int
    decreases root - u, root - u + 1,
{
    if u == root {
        1
    } else if u < 0 || u > root {
        0
    } else {
        parent_paths(g, locals, root, u, root)
    }
}

/// The path sums for `u` through a last edge from a parent among the nodes `u + 1 ..= q`.
pub open spec fn parent_paths(g: Seq<Seq<usize>>, locals: Seq<Seq<int>>, root: int, u: int, q: int) -> int
    decreases root - u, q - u,
{
    if q <= u || q > root {
        0
    } else {
        parent_paths(g, locals, root, u, q - 1) + local_total(g, locals, q, u) * path_sum(g, locals, root, q)
    }
}

/// The part of `parent_paths(root, u, q)` that comes from parents in `done`.
spec fn done_paths(g: Seq<Seq<usize>>, locals: Seq<Seq<int>>, root: int, u: int, q: int, done: Seq<usize>) -> int
    decreases q - u,
{
    if q <= u || q > root {
        0
    } else {
        done_paths(g, locals, root, u, q - 1, done) + if done.contains(q as usize) {
            local_total(g, locals, q, u) * path_sum(g, locals, root, q)
        } else {
            0
        }
    }
}

/// Applying one sequence of updates after another is applying their concatenation.
proof fn lemma_exact_run_concat(g: Seq<Seq<usize>>, locals: Seq<Seq<int>>, a: Seq<(usize, usize)>, b: Seq<(usize, usize)>, x: Seq<int>)
    ensures
        exact_run(g, locals, a + b, x) == exact_run(g, locals, b, exact_run(g, locals, a, x)),
    decreases b.len(),
{
    if b.len() == 0 {
        assert(a + b =~= a);
    } else {
        assert((a + b).drop_last() =~= a + b.drop_last());
        assert((a + b).last() == b.last());
        lemma_exact_run_concat(g, locals, a, b.drop_last(), x);
    }
}

/// The updates of one node `p` add `local_total(p, u)` times `p`'s gradient to each node `u`
/// (the first `k` slots contribute their part), and leave `p`'s own gradient as it was.
proof fn lemma_node_updates(g: Seq<Seq<usize>>, locals: Seq<Seq<int>>, p: usize, x: Seq<int>, k: int)
    requires
        graph_wf(g),
        locals.len() == g.len(),
        forall|i: int| 0 <= i < g.len() ==> #[trigger] locals[i].len() == g[i].len(),
        p < g.len(),
        0 <= k <= g[p as int].len(),
        g[p as int].len() <= usize::MAX,
        x.len() == g.len(),
    ensures
        exact_run(g, locals, node_edges(g, p).take(k), x).len() == x.len(),
        forall|u: int| 0 <= u < x.len() ==> #[trigger] exact_run(g, locals, node_edges(g, p).take(k), x)[u]
            == x[u] + slot_total(g, locals, p as int, u, k) * x[p as int],
    decreases k,
{
    let e = node_edges(g, p);
    if k == 0 {
        assert(e.take(0) =~= Seq::<(usize, usize)>::empty());
    } else {
        lemma_node_updates(g, locals, p, x, k - 1);
        assert(e.take(k).drop_last() =~= e.take(k - 1));
        let y = exact_run(g, locals, e.take(k - 1), x);
        let c = g[p as int][k - 1] as int;
        assert(e.take(k).last() == (p, (k - 1) as usize));
        assert(c < p);
        assert(slot_total(g, locals, p as int, p as int, k - 1) == 0) by {
            if slot_total(g, locals, p as int, p as int, k - 1) != 0 {
                lemma_slot_total_edge(g, locals, p as int, p as int, k - 1);
            }
        }
        assert(exact_run(g, locals, e.take(k), x) == exact_step(g, locals, y, (p, (k - 1) as usize)));
        assert forall|u: int| 0 <= u < x.len() implies #[trigger] exact_run(g, locals, e.take(k), x)[u]
            == x[u] + slot_total(g, locals, p as int, u, k) * x[p as int] by {
            let a = slot_total(g, locals, p as int, u, k - 1);
            let l = locals[p as int][k - 1];
            let xp = x[p as int];
            let z = exact_run(g, locals, e.take(k), x);
            assert(y[p as int] == xp);
            assert(y[u] == x[u] + a * xp);
            assert(z == y.update(c, y[c] + l * y[p as int]));
            if u == c {
                assert(slot_total(g, locals, p as int, u, k) == a + l);
                assert((a + l) * xp == a * xp + l * xp) by (nonlinear_arith);
                assert(z[u] == y[c] + l * xp);
            } else {
                assert(slot_total(g, locals, p as int, u, k) == a);
                assert(z[u] == y[u]);
            }
        }
    }
}

/// A node that a reachable node points to is reachable.
proof fn lemma_reachable_extend(g: Seq<Seq<usize>>, root: int, p: int, c: int)
    requires
        reachable(g, root, p),
        is_edge(g, p, c),
    ensures
        reachable(g, root, c),
{
    let path = choose|path: Seq<int>| #[trigger] is_path(g, path) && path[0] == root && path.last() == p;
    let longer = path.push(c);
    assert forall|i: int| 0 <= i < longer.len() - 1 implies #[trigger] is_edge(g, longer[i], longer[i + 1]) by {
        if i < path.len() - 1 {
            assert(longer[i] == path[i] && longer[i + 1] == path[i + 1]);
        }
    }
    assert(is_path(g, longer));
}

/// Slots that do not hold `u` add nothing to `u`'s local derivative; so a nonzero local total
/// means `u` is a child.
proof fn lemma_slot_total_edge(g: Seq<Seq<usize>>, locals: Seq<Seq<int>>, p: int, u: int, k: int)
    requires
        0 <= p < g.len(),
        k <= g[p].len(),
        slot_total(g, locals, p, u, k) != 0,
    ensures
        is_edge(g, p, u),
    decreases k,
{
    if k > 0 {
        if g[p][k - 1] == u {
            assert(g[p][k - 1] == u);
        } else {
            lemma_slot_total_edge(g, locals, p, u, k - 1);
        }
    }
}

/// The path sum of a node that `root` does not reach is zero.
proof fn lemma_unreachable_no_paths(g: Seq<Seq<usize>>, locals: Seq<Seq<int>>, root: int, u: int)
    requires
        graph_wf(g),
        0 <= root < g.len(),
        !reachable(g, root, u),
    ensures
        path_sum(g, locals, root, u) == 0,
    decreases root - u, root - u + 1,
{
    if u == root {
        lemma_reachable_self(g, root);
    } else if 0 <= u < root {
        lemma_unreachable_parent_paths(g, locals, root, u, root);
    }
}

/// The parent sums of a node that `root` does not reach are zero.
proof fn lemma_unreachable_parent_paths(g: Seq<Seq<usize>>, locals: Seq<Seq<int>>, root: int, u: int, q: int)
    requires
        graph_wf(g),
        0 <= root < g.len(),
        0 <= u < root,
        q <= root,
        !reachable(g, root, u),
    ensures
        parent_paths(g, locals, root, u, q) == 0,
    decreases root - u, q - u,
{
    if q > u {
        lemma_unreachable_parent_paths(g, locals, root, u, q - 1);
        if local_total(g, locals, q, u) != 0 {
            lemma_slot_total_edge(g, locals, q, u, g[q].len() as int);
            if reachable(g, root, q) {
                lemma_reachable_extend(g, root, q, u);
            }
            lemma_unreachable_no_paths(g, locals, root, q);
        }
    }
}

/// Adding the parent `p` to `done` adds exactly its term to `done_paths`.
proof fn lemma_done_paths_add(g: Seq<Seq<usize>>, locals: Seq<Seq<int>>, root: int, u: int, q: int, p: usize, done: Seq<usize>)
    requires
        !done.contains(p),
        0 <= u,
        q <= root,
        root <= usize::MAX,
    ensures
        done_paths(g, locals, root, u, q, seq![p] + done) == done_paths(g, locals, root, u, q, done)
            + if u < p <= q && p <= root { local_total(g, locals, p as int, u) * path_sum(g, locals, root, p as int) } else { 0 },
    decreases q - u,
{
    if q > u && q <= root {
        lemma_done_paths_add(g, locals, root, u, q - 1, p, done);
        let d2 = seq![p] + done;
        assert(d2.contains(q as usize) == (q == p || done.contains(q as usize))) by {
            if done.contains(q as usize) {
                let j = choose|j: int| 0 <= j < done.len() && done[j] == q as usize;
                assert(d2[j + 1] == q as usize);
            }
            if d2.contains(q as usize) && q != p {
                let j = choose|j: int| 0 <= j < d2.len() && d2[j] == q as usize;
                assert(done[j - 1] == q as usize);
            }
            if q == p {
                assert(d2[0] == q as usize);
            }
        }
    }
}

/// With no parent done, `done_paths` is zero.
proof fn lemma_done_paths_empty(g: Seq<Seq<usize>>, locals: Seq<Seq<int>>, root: int, u: int, q: int)
    ensures
        done_paths(g, locals, root, u, q, Seq::empty()) == 0,
    decreases q - u,
{
    if q > u && q <= root {
        lemma_done_paths_empty(g, locals, root, u, q - 1);
    }
}

/// When `done` holds every parent whose term is nonzero, `done_paths` is the whole parent sum.
proof fn lemma_done_paths_full(g: Seq<Seq<usize>>, locals: Seq<Seq<int>>, root: int, u: int, q: int, done: Seq<usize>)
    requires
        forall|r: int| u < r <= q && r <= root
            && #[trigger] local_total(g, locals, r, u) * path_sum(g, locals, root, r) != 0
            ==> done.contains(r as usize),
    ensures
        done_paths(g, locals, root, u, q, done) == parent_paths(g, locals, root, u, q),
    decreases q - u,
{
    if q > u && q <= root {
        lemma_done_paths_full(g, locals, root, u, q - 1, done);
    }
}

/// The chain rule with exact arithmetic: when every gradient starts at zero except the root's,
/// which starts at 1, the updates of the backward pass over an order as `topological_order`
/// returns it (each node reachable from `root` once, every node after its children; `backward`
/// states these facts of the order it walks) leave every node's gradient equal to the sum, over
/// all paths from `root` to it, of the products of the local derivatives along the path.
pub proof fn lemma_backward_sums_paths(g: Seq<Seq<usize>>, locals: Seq<Seq<int>>, root: int, order: Seq<usize>)
    requires
        graph_wf(g),
        locals.len() == g.len(),
        forall|i: int| 0 <= i < g.len() ==> #[trigger] locals[i].len() == g[i].len(),
        0 <= root < g.len(),
        g.len() <= usize::MAX,
        forall|i: int| 0 <= i < g.len() ==> #[trigger] g[i].len() <= usize::MAX,
        order.no_duplicates(),
        forall|u: usize| #[trigger] order.contains(u) <==> reachable(g, root, u as int),
        forall|i: int, j: int|
            0 <= i < order.len() && 0 <= j < order.len() && is_edge(g, order[j] as int, order[i] as int)
            ==> i < j,
    ensures
        ({
            let start = Seq::new(g.len(), |i: int| if i == root { 1int } else { 0int });
            let end = exact_run(g, locals, backward_schedule(g, order), start);
            &&& end.len() == g.len()
            &&& forall|u: int| 0 <= u < g.len() ==> #[trigger] end[u] == path_sum(g, locals, root, u)
        }),
{
    let start = Seq::new(g.len(), |i: int| if i == root { 1int } else { 0int });
    assert forall|j: int| 0 <= j < order.len() implies #[trigger] order[j] < g.len() by {
        assert(order.contains(order[j]));
        lemma_reachable_not_later(g, root, order[j] as int);
    }
    assert(order.subrange(order.len() as int, order.len() as int) =~= Seq::<usize>::empty());
    assert(order.take(order.len() as int) =~= order);
    assert forall|u: int| 0 <= u < g.len() implies #[trigger] start[u]
        == start[u] + done_paths(g, locals, root, u, root, order.subrange(order.len() as int, order.len() as int)) by {
        lemma_done_paths_empty(g, locals, root, u, root);
    }
    lemma_backward_suffix(g, locals, root, order, start, order.len() as int, start);
}

/// The induction behind `lemma_backward_sums_paths`: `x` holds the gradients once the nodes
/// `order[i..]` have pushed theirs, namely the start value plus the terms of the processed
/// parents; running the rest of the schedule gives the path sums.
proof fn lemma_backward_suffix(g: Seq<Seq<usize>>, locals: Seq<Seq<int>>, root: int, order: Seq<usize>, start: Seq<int>, i: int, x: Seq<int>)
    requires
        graph_wf(g),
        locals.len() == g.len(),
        forall|i: int| 0 <= i < g.len() ==> #[trigger] locals[i].len() == g[i].len(),
        0 <= root < g.len(),
        g.len() <= usize::MAX,
        forall|i: int| 0 <= i < g.len() ==> #[trigger] g[i].len() <= usize::MAX,
        order.no_duplicates(),
        forall|j: int| 0 <= j < order.len() ==> #[trigger] order[j] < g.len(),
        forall|u: usize| #[trigger] order.contains(u) <==> reachable(g, root, u as int),
        forall|i: int, j: int|
            0 <= i < order.len() && 0 <= j < order.len() && is_edge(g, order[j] as int, order[i] as int)
            ==> i < j,
        start == Seq::new(g.len(), |i: int| if i == root { 1int } else { 0int }),
        0 <= i <= order.len(),
        x.len() == g.len(),
        forall|u: int| 0 <= u < g.len() ==> #[trigger] x[u]
            == start[u] + done_paths(g, locals, root, u, root, order.subrange(i, order.len() as int)),
    ensures
        ({
            let end = exact_run(g, locals, backward_schedule(g, order.take(i)), x);
            &&& end.len() == g.len()
            &&& forall|u: int| 0 <= u < g.len() ==> #[trigger] end[u] == path_sum(g, locals, root, u)
        }),
    decreases i,
{
    let n = order.len() as int;
    if i == 0 {
        assert(order.take(0) =~= Seq::<usize>::empty());
        assert(order.subrange(0, n) =~= order);
        assert forall|u: int| 0 <= u < g.len() implies #[trigger] x[u] == path_sum(g, locals, root, u) by {
            if 0 <= u < root {
                assert forall|r: int| u < r <= root && r <= root
                    && #[trigger] local_total(g, locals, r, u) * path_sum(g, locals, root, r) != 0
                    implies order.contains(r as usize) by {
                    if !reachable(g, root, r) {
                        lemma_unreachable_no_paths(g, locals, root, r);
                    }
                }
                lemma_done_paths_full(g, locals, root, u, root, order);
            }
        }
    } else {
        let p = order[i - 1];
        let done = order.subrange(i, n);
        let e = node_edges(g, p);
        assert(order.take(i).drop_last() =~= order.take(i - 1));
        assert(order.take(i).last() == p);
        lemma_exact_run_concat(g, locals, e, backward_schedule(g, order.take(i - 1)), x);
        assert(e.take(e.len() as int) =~= e);
        lemma_node_updates(g, locals, p, x, g[p as int].len() as int);
        let y = exact_run(g, locals, e, x);
        // `p`'s gradient is complete: every parent with a nonzero term comes later in `order`.
        assert(x[p as int] == path_sum(g, locals, root, p as int)) by {
            assert(order.contains(p));
            lemma_reachable_not_later(g, root, p as int);
            if p as int != root {
                assert forall|r: int| p < r <= root && r <= root
                    && #[trigger] local_total(g, locals, r, p as int) * path_sum(g, locals, root, r) != 0
                    implies done.contains(r as usize) by {
                    if !reachable(g, root, r) {
                        lemma_unreachable_no_paths(g, locals, root, r);
                    }
                    assert(order.contains(r as usize));
                    let j = choose|j: int| 0 <= j < n && order[j] == r as usize;
                    lemma_slot_total_edge(g, locals, r, p as int, g[r].len() as int);
                    assert(is_edge(g, order[j] as int, order[i - 1] as int));
                    assert(done[j - i] == r as usize);
                }
                lemma_done_paths_full(g, locals, root, p as int, root, done);
            }
        }
        assert(order.subrange(i - 1, n) =~= seq![p] + done);
        assert(!done.contains(p)) by {
            if done.contains(p) {
                let j = choose|j: int| 0 <= j < done.len() && done[j] == p;
                assert(order[j + i] == order[i - 1]);
            }
        }
        assert forall|u: int| 0 <= u < g.len() implies #[trigger] y[u]
            == start[u] + done_paths(g, locals, root, u, root, order.subrange(i - 1, n)) by {
            lemma_done_paths_add(g, locals, root, u, root, p, done);
            assert(order.contains(p));
            lemma_reachable_not_later(g, root, p as int);
            let d = local_total(g, locals, p as int, u);
            assert(y[u] == x[u] + d * x[p as int]);
            if !(u < p) {
                assert(d == 0) by {
                    if d != 0 {
                        lemma_slot_total_edge(g, locals, p as int, u, g[p as int].len() as int);
                    }
                }
                assert(d * x[p as int] == 0);
            }
        }
        lemma_backward_suffix(g, locals, root, order, start, i - 1, y);
    }
}

/// A computation graph: for every node, the ids of its children, the local derivative of the
/// node with respect to each child (recorded at forward time), its value, and its gradient.
/// The values are of any type `T`; the arithmetic on them is left to the caller.
pub struct Graph<T> {
    children: Vec<Vec<usize>>,
    local_grads: Vec<Vec<T>>,
    data: Vec<T>,
    grad: Vec<T>,
}

impl<T> View for Graph<T> {
    type V = Seq<Seq<usize>>;

    /// The structure of the graph: the children of every node.
    closed spec fn view(&self) -> Seq<Seq<usize>> {
        Seq::new(self.children@.len(), |i: int| self.children@[i]@)
    }
}

impl<T> Graph<T> {
    /// The local derivatives recorded for node `i`, one per child.
    pub closed spec fn local_grads_of(&self, i: int) -> Seq<T> {
        self.local_grads@[i]@
    }

    /// The value of every node.
    pub closed spec fn data_spec(&self) -> Seq<T> {
        self.data@
    }

    /// The gradient of every node.
    pub closed spec fn grad_spec(&self) -> Seq<T> {
        self.grad@
    }

    /// A graph is well formed when every node's children were created before it and every node
    /// has one local derivative per child and one value and one gradient.
    pub closed spec fn wf(&self) -> bool {
        &&& graph_wf(self@)
        &&& self.local_grads@.len() == self.children@.len()
        &&& self.data@.len() == self.children@.len()
        &&& self.grad@.len() == self.children@.len()
        &&& forall|i: int| 0 <= i < self.children@.len() ==> #[trigger] self.local_grads@[i]@.len() == self.children@[i]@.len()
    }

    /// A well-formed graph has acyclic structure and matching per-node data.
    pub proof fn lemma_wf(&self)
        requires
            self.wf(),
        ensures
            graph_wf(self@),
            self.data_spec().len() == self@.len(),
            self.grad_spec().len() == self@.len(),
            forall|i: int| 0 <= i < self@.len() ==> #[trigger] self.local_grads_of(i).len() == self@[i].len(),
    {
    }

    /// An empty graph.
    pub fn new() -> (g: Graph<T>)
        ensures
            g.wf(),
            g@ == Seq::<Seq<usize>>::empty(),
    {
        let g = Graph { children: Vec::new(), local_grads: Vec::new(), data: Vec::new(), grad: Vec::new() };
        assert(g@ =~= Seq::<Seq<usize>>::empty());
        g
    }

    /// The number of nodes.
    pub fn len(&self) -> (n: usize)
        requires
            self.wf(),
        ensures
            n == self@.len(),
    {
        self.children.len()
    }

    /// The children of node `id`, in the order in which they were recorded.
    pub fn children(&self, id: usize) -> (c: &Vec<usize>)
        requires
            self.wf(),
            id < self@.len(),
        ensures
            c@ == self@[id as int],
    {
        &self.children[id]
    }

    /// The local derivatives of node `id` with respect to its children, in the same order.
    pub fn local_grads(&self, id: usize) -> (l: &Vec<T>)
        requires
            self.wf(),
            id < self@.len(),
        ensures
            l@ == self.local_grads_of(id as int),
    {
        &self.local_grads[id]
    }

    /// The value of node `id`.
    pub fn data(&self, id: usize) -> (d: &T)
        requires
            self.wf(),
            id < self@.len(),
        ensures
            *d == self.data_spec()[id as int],
    {
        &self.data[id]
    }

    /// The gradient of node `id`.
    pub fn grad(&self, id: usize) -> (g: &T)
        requires
            self.wf(),
            id < self@.len(),
        ensures
            *g == self.grad_spec()[id as int],
    {
        &self.grad[id]
    }

    /// Overwrite the value of node `id`; nothing else changes.
    pub fn set_data(&mut self, id: usize, value: T)
        requires
            old(self).wf(),
            id < old(self)@.len(),
        ensures
            final(self).wf(),
            final(self)@ == old(self)@,
            final(self).data_spec() == old(self).data_spec().update(id as int, value),
            final(self).grad_spec() == old(self).grad_spec(),
            forall|i: int| #[trigger] final(self).local_grads_of(i) == old(self).local_grads_of(i),
    {
        self.data.set(id, value);
    }

    /// Overwrite the gradient of node `id`; nothing else changes.
    pub fn set_grad(&mut self, id: usize, value: T)
        requires
            old(self).wf(),
            id < old(self)@.len(),
        ensures
            final(self).wf(),
            final(self)@ == old(self)@,
            final(self).data_spec() == old(self).data_spec(),
            final(self).grad_spec() == old(self).grad_spec().update(id as int, value),
            forall|i: int| #[trigger] final(self).local_grads_of(i) == old(self).local_grads_of(i),
    {
        self.grad.set(id, value);
    }

    /// Record a new node with value `data`, the given children (which must already exist), one
    /// local derivative per child, and gradient `zero`. Returns the new node's id, which is the
    /// number of nodes before the call.
    pub fn add_node(&mut self, data: T, children: Vec<usize>, local_grads: Vec<T>, zero: T) -> (id: usize)
        requires
            old(self).wf(),
            children@.len() == local_grads@.len(),
            forall|k: int| 0 <= k < children@.len() ==> children@[k] < old(self)@.len(),
        ensures
            final(self).wf(),
            id == old(self)@.len(),
            final(self)@ == old(self)@.push(children@),
            final(self).data_spec() == old(self).data_spec().push(data),
            final(self).grad_spec() == old(self).grad_spec().push(zero),
            final(self).local_grads_of(id as int) == local_grads@,
            forall|i: int| 0 <= i < id ==> #[trigger] final(self).local_grads_of(i) == old(self).local_grads_of(i),
    {
        let id = self.children.len();
        let ghost before = self@;
        let ghost kids = children@;
        self.children.push(children);
        self.local_grads.push(local_grads);
        self.data.push(data);
        self.grad.push(zero);
        assert(self@ =~= before.push(kids));
        id
    }

    /// Keep only the first `len` nodes (all nodes if there are fewer), discarding the rest.
    pub fn truncate(&mut self, len: usize)
        requires
            old(self).wf(),
        ensures
            final(self).wf(),
            final(self)@ == if len < old(self)@.len() { old(self)@.take(len as int) } else { old(self)@ },
            final(self).data_spec() == if len < old(self)@.len() { old(self).data_spec().take(len as int) } else { old(self).data_spec() },
            final(self).grad_spec() == if len < old(self)@.len() { old(self).grad_spec().take(len as int) } else { old(self).grad_spec() },
            forall|i: int| 0 <= i < final(self)@.len() ==> #[trigger] final(self).local_grads_of(i) == old(self).local_grads_of(i),
    {
        let ghost before = self@;
        self.children.truncate(len);
        self.local_grads.truncate(len);
        self.data.truncate(len);
        self.grad.truncate(len);
        proof {
            if len < before.len() {
                assert(self@ =~= before.take(len as int));
            } else {
                assert(self@ =~= before);
            }
        }
    }

    /// Depth-first search from `v`: finishes every unfinished node reachable from `v`, appending
    /// each to `topo` after all of its children. Nodes marked visited but not yet finished are the
    /// ancestors of `v` on the search stack, all created after `v`.
    fn build_topo(&self, v: usize, topo: &mut Vec<usize>, visited: &mut Vec<bool>)
        requires
            self.wf(),
            v < self@.len(),
            search_inv(self@, old(topo)@, old(visited)@),
            forall|u: int| 0 <= u < self@.len() && #[trigger] old(visited)@[u] && !old(topo)@.contains(u as usize) ==> u > v,
        ensures
            search_inv(self@, final(topo)@, final(visited)@),
            final(topo)@ == old(topo)@ + dfs_from(self@, v as int, old(topo)@),
            final(topo)@.take(old(topo)@.len() as int) == old(topo)@,
            final(topo)@.len() >= old(topo)@.len(),
            final(topo)@.contains(v),
            !old(visited)@[v as int] ==> final(topo)@.last() == v,
            forall|u: int| 0 <= u < self@.len() ==> #[trigger] final(visited)@[u] == (old(visited)@[u] || final(topo)@.contains(u as usize)),
            forall|i: int| old(topo)@.len() <= i < final(topo)@.len() ==> reachable(self@, v as int, #[trigger] final(topo)@[i] as int),
        decreases v,
    {
        let ghost g = self@;
        let n = self.children.len();
        assert(g.len() == n);
        proof {
            self.lemma_wf();
        }
        let ghost topo0 = topo@;
        let ghost visited0 = visited@;
        proof {
            assert forall|u: int| 0 <= u < g.len() && topo0.contains(u as usize) implies visited0[u] by {
                let i = choose|i: int| 0 <= i < topo0.len() && topo0[i] == u as usize;
                assert(visited0[topo0[i] as int]);
            }
        }
        if visited[v] {
            proof {
                // A visited node that is not finished would be an ancestor of `v`, created
                // after it; `v` itself is no such node, so it is finished already.
                assert(visited0[v as int]);
                assert(topo@ =~= topo0 + dfs_from(g, v as int, topo0));
            }
            return;
        }
        visited.set(v, true);
        let kids = &self.children[v];
        let nk = kids.len();
        for k in 0..nk
            invariant
                g == self@,
                self.wf(),
                v < g.len(),
                kids@ == g[v as int],
                nk == kids@.len(),
                !visited0[v as int],
                search_inv(g, topo@, visited@),
                topo@ == topo0 + dfs_children(g, v as int, k as int, topo0),
                topo@.take(topo0.len() as int) == topo0,
                topo@.len() >= topo0.len(),
                !topo@.contains(v),
                forall|u: int| 0 <= u < g.len() ==> #[trigger] visited@[u] == (visited0[u] || u == v || topo@.contains(u as usize)),
                forall|u: int| 0 <= u < g.len() && #[trigger] visited0[u] && !topo0.contains(u as usize) ==> u > v,
                forall|j: int| 0 <= j < k ==> topo@.contains(#[trigger] kids@[j]),
                forall|i: int| topo0.len() <= i < topo@.len() ==> reachable(g, v as int, #[trigger] topo@[i] as int) && topo@[i] < v,
        {
            let c = kids[k];
            let ghost topo1 = topo@;
            proof {
                assert(g[v as int][k as int] < v);
                assert forall|u: int| 0 <= u < g.len() && visited@[u] && !topo@.contains(u as usize) implies u > c by {
                    if u != v {
                        if topo0.contains(u as usize) {
                            let i = choose|i: int| 0 <= i < topo0.len() && topo0[i] == u as usize;
                            assert(topo@.take(topo0.len() as int)[i] == topo@[i]);
                        }
                    }
                }
            }
            self.build_topo(c, topo, visited);
            proof {
                assert(topo@ =~= topo0 + dfs_children(g, v as int, k + 1, topo0)) by {
                    assert(topo0 + dfs_children(g, v as int, k as int, topo0) == topo1);
                    assert(topo1 + dfs_from(g, c as int, topo1) =~= topo0 + (dfs_children(g, v as int, k as int, topo0) + dfs_from(g, c as int, topo1)));
                }
                assert(is_edge(g, v as int, c as int));
                assert forall|i: int| topo0.len() <= i < topo@.len() implies reachable(g, v as int, #[trigger] topo@[i] as int) && topo@[i] < v by {
                    if i < topo1.len() {
                        assert(topo@.take(topo1.len() as int)[i] == topo@[i]);
                    } else {
                        lemma_reachable_through_child(g, v as int, c as int, topo@[i] as int);
                        lemma_reachable_not_later(g, c as int, topo@[i] as int);
                    }
                }
                assert(topo@.take(topo0.len() as int) =~= topo0) by {
                    assert(topo@.take(topo1.len() as int) == topo1);
                }
                assert forall|j: int| 0 <= j < k + 1 implies topo@.contains(#[trigger] kids@[j]) by {
                    if j < k {
                        let i = choose|i: int| 0 <= i < topo1.len() && topo1[i] == kids@[j];
                        assert(topo@.take(topo1.len() as int)[i] == topo@[i]);
                    }
                }
                if topo@.contains(v) {
                    let i = choose|i: int| 0 <= i < topo@.len() && topo@[i] == v;
                    if i < topo1.len() {
                        assert(topo@.take(topo1.len() as int)[i] == topo@[i]);
                    }
                }
            }
        }
        let ghost topo2 = topo@;
        topo.push(v);
        proof {
            assert(!topo0.contains(v));
            assert(topo@ =~= topo0 + dfs_from(g, v as int, topo0));
            assert(topo@[topo@.len() - 1] == v);
            assert(topo@.contains(v));
            lemma_reachable_self(g, v as int);
            assert(topo@.take(topo0.len() as int) =~= topo0) by {
                assert(topo2.take(topo0.len() as int) == topo0);
            }
            assert(topo@.take(topo2.len() as int) =~= topo2);
            assert forall|i: int, k: int|
                0 <= i < topo@.len() && 0 <= k < g[topo@[i] as int].len()
                implies topo@.take(i).contains(#[trigger] g[topo@[i] as int][k]) by {
                if i < topo2.len() {
                    assert(topo@.take(i) =~= topo2.take(i));
                } else {
                    assert(topo@.take(i) =~= topo2);
                    assert(kids@[k] == g[v as int][k]);
                }
            }
            assert(closed_prefixes(g, topo@));
        }
    }

    /// The nodes reachable from `root` in depth-first post-order (children in the order they were
    /// recorded): each reachable node exactly once, every node after all of its children, and
    /// `root` last. The backward pass walks this order in reverse.
    pub fn topological_order(&self, root: usize) -> (order: Vec<usize>)
        requires
            self.wf(),
            root < self@.len(),
        ensures
            order@ == dfs_from(self@, root as int, Seq::empty()),
            order@.no_duplicates(),
            forall|u: usize| #[trigger] order@.contains(u) <==> reachable(self@, root as int, u as int),
            order@.len() >= 1,
            order@.last() == root,
            forall|i: int, j: int|
                0 <= i < order@.len() && 0 <= j < order@.len() && is_edge(self@, order@[j] as int, order@[i] as int)
                ==> i < j,
    {
        let n = self.children.len();
        let mut visited: Vec<bool> = Vec::new();
        for i in 0..n
            invariant
                visited@.len() == i,
                forall|j: int| 0 <= j < i ==> !#[trigger] visited@[j],
        {
            visited.push(false);
        }
        let mut order: Vec<usize> = Vec::new();
        proof {
            assert(closed_prefixes(self@, order@));
            assert(search_inv(self@, order@, visited@));
        }
        self.build_topo(root, &mut order, &mut visited);
        proof {
            let g = self@;
            assert(order@ =~= dfs_from(g, root as int, Seq::empty()));
            assert forall|u: usize| #[trigger] order@.contains(u) <==> reachable(g, root as int, u as int) by {
                if order@.contains(u) {
                    let i = choose|i: int| 0 <= i < order@.len() && order@[i] == u;
                }
                if reachable(g, root as int, u as int) {
                    lemma_closed_order_complete(g, order@, root as int, u as int);
                }
            }
            assert forall|i: int, j: int|
                0 <= i < order@.len() && 0 <= j < order@.len() && is_edge(g, order@[j] as int, order@[i] as int)
                implies i < j by {
                let k = choose|k: int| 0 <= k < g[order@[j] as int].len() && #[trigger] g[order@[j] as int][k] == order@[i] as int;
                assert(order@.take(j).contains(g[order@[j] as int][k]));
                let m = choose|m: int| 0 <= m < j && order@.take(j)[m] == g[order@[j] as int][k];
                assert(order@[m] == order@[i]);
            }
        }
        order
    }

    /// Whether `after` is `before` with one chain-rule update along edge `(p, k)`: the gradient
    /// of the `k`-th child `c` of `p` becomes `f(before[c], local, before[p])`, where `local` is
    /// the local derivative of `p` with respect to that child, and nothing else changes.
    pub open spec fn chain_step<F: Fn(T, T, T) -> T>(&self, f: F, before: Seq<T>, edge: (usize, usize), after: Seq<T>) -> bool {
        let p = edge.0 as int;
        let c = self@[p][edge.1 as int] as int;
        &&& after.len() == before.len()
        &&& after == before.update(c, after[c])
        &&& call_ensures(f, (before[c], self.local_grads_of(p)[edge.1 as int], before[p]), after[c])
    }

    /// Whether `states` is a run of the backward pass from `root` seeded with `seed`: it starts
    /// from the gradients `start` with the root's set to `seed`, and each state follows from the
    /// one before by the next update of the schedule over the depth-first order from `root`.
    pub open spec fn is_backward_run<F: Fn(T, T, T) -> T>(&self, f: F, root: usize, seed: T, start: Seq<T>, states: Seq<Seq<T>>) -> bool {
        let sched = backward_schedule(self@, dfs_from(self@, root as int, Seq::empty()));
        &&& states.len() == sched.len() + 1
        &&& states[0] == start.update(root as int, seed)
        &&& forall|t: int| 0 <= t < sched.len() ==> #[trigger] self.chain_step(f, states[t], sched[t], states[t + 1])
    }

    /// Reverse-mode differentiation from `root`: set the root's gradient to `seed`, then walk the
    /// depth-first order from `root` backwards and, for every node and every child slot in turn,
    /// replace the child's gradient `g` by `f(g, local, upstream)`, where `local` is the recorded
    /// local derivative and `upstream` the node's own gradient. With `f(g, l, u) = g + l * u`
    /// this is the chain rule. Values, local derivatives and structure are left unchanged.
    pub fn backward<F: Fn(T, T, T) -> T>(&mut self, root: usize, seed: T, f: F)
        where T: Copy
        requires
            old(self).wf(),
            root < old(self)@.len(),
            forall|a: T, b: T, c: T| call_requires(f, (a, b, c)),
        ensures
            final(self).wf(),
            final(self)@ == old(self)@,
            final(self).data_spec() == old(self).data_spec(),
            forall|i: int| #[trigger] final(self).local_grads_of(i) == old(self).local_grads_of(i),
            exists|states: Seq<Seq<T>>| #[trigger] old(self).is_backward_run(f, root, seed, old(self).grad_spec(), states)
                && states.last() == final(self).grad_spec(),
            ({
                let order = dfs_from(old(self)@, root as int, Seq::empty());
                &&& order.no_duplicates()
                &&& forall|u: usize| #[trigger] order.contains(u) <==> reachable(old(self)@, root as int, u as int)
                &&& forall|i: int, j: int|
                    0 <= i < order.len() && 0 <= j < order.len() && is_edge(old(self)@, order[j] as int, order[i] as int)
                    ==> i < j
            }),
    {
        let ghost g = self@;
        let ghost start = self.grad@;
        assert(g == old(self)@);
        let order = self.topological_order(root);
        let ghost full = backward_schedule(g, order@);
        self.grad.set(root, seed);
        let ghost mut states: Seq<Seq<T>> = seq![self.grad@];
        let ghost mut done: Seq<(usize, usize)> = Seq::empty();
        let mut i = order.len();
        proof {
            assert(order@.take(i as int) =~= order@);
            self.lemma_wf();
            assert forall|j: int| 0 <= j < order@.len() implies #[trigger] order@[j] < g.len() by {
                assert(order@.contains(order@[j]));
                lemma_reachable_not_later(g, root as int, order@[j] as int);
            }
        }
        while i > 0
            invariant
                g == self@,
                g == old(self)@,
                self.wf(),
                i <= order@.len(),
                forall|j: int| 0 <= j < order@.len() ==> #[trigger] order@[j] < g.len(),
                full == backward_schedule(g, order@),
                done + backward_schedule(g, order@.take(i as int)) == full,
                states.len() == done.len() + 1,
                states[0] == start.update(root as int, seed),
                states.last() == self.grad@,
                self.data@ == old(self).data@,
                self.local_grads@ == old(self).local_grads@,
                forall|t: int| 0 <= t < done.len() ==> #[trigger] old(self).chain_step(f, states[t], done[t], states[t + 1]),
                forall|a: T, b: T, c: T| call_requires(f, (a, b, c)),
            decreases i,
        {
            i -= 1;
            let v = order[i];
            proof {
                assert(order@.take(i + 1).drop_last() =~= order@.take(i as int));
                assert(order@.take(i + 1).last() == v);
            }
            let upstream = self.grad[v];
            let nk = self.children[v].len();
            let ghost done0 = done;
            let mut k: usize = 0;
            while k < nk
                invariant
                    g == self@,
                    g == old(self)@,
                    self.wf(),
                    v < g.len(),
                    nk == g[v as int].len(),
                    k <= nk,
                    upstream == self.grad@[v as int],
                    done == done0 + node_edges(g, v).take(k as int),
                    states.len() == done.len() + 1,
                    states[0] == start.update(root as int, seed),
                    states.last() == self.grad@,
                    self.data@ == old(self).data@,
                    self.local_grads@ == old(self).local_grads@,
                    forall|t: int| 0 <= t < done.len() ==> #[trigger] old(self).chain_step(f, states[t], done[t], states[t + 1]),
                    forall|a: T, b: T, c: T| call_requires(f, (a, b, c)),
                decreases nk - k,
            {
                proof {
                    self.lemma_wf();
                }
                let c = self.children[v][k];
                let local = self.local_grads[v][k];
                let current = self.grad[c];
                let updated = f(current, local, upstream);
                let ghost before = self.grad@;
                self.grad.set(c, updated);
                proof {
                    assert(c < v);
                    assert(before[v as int] == upstream);
                    let edge = (v, k);
                    assert(old(self).chain_step(f, before, edge, self.grad@));
                    states = states.push(self.grad@);
                    done = done.push(edge);
                    assert(node_edges(g, v).take(k + 1) =~= node_edges(g, v).take(k as int).push(edge));
                    assert(done == done0 + node_edges(g, v).take(k + 1));
                }
                k += 1;
            }
            proof {
                assert(node_edges(g, v).take(nk as int) =~= node_edges(g, v));
            }
        }
        proof {
            assert(order@.take(0) =~= Seq::<usize>::empty());
            assert(done =~= full);
            assert(old(self).is_backward_run(f, root, seed, old(self).grad_spec(), states));
            assert(states.last() == self.grad_spec());
        }
    }
}

} // verus!
