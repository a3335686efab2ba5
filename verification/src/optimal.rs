//! Why one pass of relaxation in topological order finds the optimal
//! distances of an acyclic graph.

use crate::distance::{extended_add, improves, no_worse, sentinel, Extended, OptimalPathType, StepView};
use crate::graph::{lemma_successors_in_range, successors, targets_in_range, WeightedEdge};
use crate::relax::{initial_steps, optimal_steps, relax_edges, relax_nodes, relax_step};
use crate::order::{
    lemma_topological_order_is_permutation, lemma_topological_order_respects_edges,
    topological_order,
};
use crate::walk::{
    acyclic, edge_target, is_edge, is_route, lemma_no_edge_back, lemma_reaches_self,
    lemma_reaches_step, lemma_route_drop_last, lemma_route_ends, lemma_route_push, reaches,
};
use vstd::prelude::*;

verus! {

/// The sum of the weights of the edges of a route.
pub open spec fn route_weight(adj: Seq<Seq<WeightedEdge<i64>>>, route: Seq<(int, int)>) -> int
    decreases route.len(),
{
    if route.len() == 0 {
        0
    } else {
        route_weight(adj, route.drop_last()) + adj[route.last().0][route.last().1].weight
    }
}

/// `order` lists every node once, and every edge leads from an earlier
/// position to a later one.
pub open spec fn is_topological(succ: Seq<Seq<int>>, order: Seq<int>) -> bool {
    &&& order.len() == succ.len()
    &&& forall|i: int| 0 <= i < order.len() ==> 0 <= #[trigger] order[i] < succ.len()
    &&& forall|u: int| 0 <= u < succ.len() ==> order.contains(u)
    &&& forall|i: int, j: int, e: int|
        #![trigger order[j], succ[order[i]][e]]
        0 <= i < order.len() && 0 <= j < order.len() && 0 <= e < succ[order[i]].len()
            && succ[order[i]][e] == order[j] ==> i < j
}

/// Edge `e` has been relaxed when the pass stands at node `order[k]` with
/// the first `j` of its edges done.
pub open spec fn relaxed(order: Seq<int>, k: int, j: int, e: (int, int)) -> bool {
    exists|i: int| 0 <= i < order.len() && order[i] == e.0 && (i < k || (i == k && e.1 < j))
}

/// Edge `e` of node `u` is a relaxed edge to `v` over which the distance of
/// `v` comes from that of `u`.
pub open spec fn is_link(
    adj: Seq<Seq<WeightedEdge<i64>>>,
    order: Seq<int>,
    steps: Seq<StepView>,
    k: int,
    j: int,
    u: int,
    e: int,
    v: int,
) -> bool {
    &&& is_edge(successors(adj), (u, e))
    &&& relaxed(order, k, j, (u, e))
    &&& adj[u][e].target == v
    &&& steps[u].distance matches Extended::Finite(du)
    &&& steps[v].distance == Extended::Finite(du + adj[u][e].weight)
}

/// The distance of `v` is that of its predecessor plus the weight of a
/// relaxed edge between them.
pub open spec fn linked(
    adj: Seq<Seq<WeightedEdge<i64>>>,
    order: Seq<int>,
    steps: Seq<StepView>,
    k: int,
    j: int,
    v: int,
) -> bool {
    &&& steps[v].predecessor matches Some(u)
    &&& exists|e: int| is_link(adj, order, steps, k, j, u, e, v)
}

/// What holds of node `v` during the pass: it is untouched, or the source
/// reaches it and its distance comes from its predecessor.
pub open spec fn node_ok(
    adj: Seq<Seq<WeightedEdge<i64>>>,
    mode: OptimalPathType,
    source: int,
    order: Seq<int>,
    steps: Seq<StepView>,
    k: int,
    j: int,
    v: int,
) -> bool {
    if steps[v].distance is Finite {
        &&& reaches(successors(adj), source, v)
        &&& v != source ==> linked(adj, order, steps, k, j, v)
    } else {
        &&& steps[v].distance == sentinel(mode)
        &&& steps[v].predecessor is None
    }
}

/// What holds of a relaxed edge `e`: once its source has a distance, its
/// target has one that is no worse than the way over `e`.
pub open spec fn edge_ok(
    adj: Seq<Seq<WeightedEdge<i64>>>,
    mode: OptimalPathType,
    steps: Seq<StepView>,
    e: (int, int),
) -> bool {
    steps[e.0].distance matches Extended::Finite(da) ==> {
        &&& steps[adj[e.0][e.1].target as int].distance matches Extended::Finite(db)
        &&& no_worse(mode, db, da + adj[e.0][e.1].weight)
    }
}

/// The state of the pass when it stands at node `order[k]` with the first
/// `j` of its edges relaxed.
pub open spec fn settled(
    adj: Seq<Seq<WeightedEdge<i64>>>,
    mode: OptimalPathType,
    source: int,
    order: Seq<int>,
    steps: Seq<StepView>,
    k: int,
    j: int,
) -> bool {
    &&& steps.len() == adj.len()
    &&& steps[source] == StepView { distance: Extended::Finite(0), predecessor: None }
    &&& forall|v: int| 0 <= v < adj.len() ==> #[trigger] node_ok(adj, mode, source, order, steps, k, j, v)
    &&& forall|e: (int, int)|
        is_edge(successors(adj), e) && relaxed(order, k, j, e) ==> #[trigger] edge_ok(adj, mode, steps, e)
}

/// An edge that was relaxed stays relaxed when one more edge is done.
pub proof fn lemma_relaxed_next(order: Seq<int>, k: int, j: int, e: (int, int))
    requires
        relaxed(order, k, j, e),
    ensures
        relaxed(order, k, j + 1, e),
{
    let i = choose|i: int| 0 <= i < order.len() && order[i] == e.0 && (i < k || (i == k && e.1 < j));
    assert(0 <= i < order.len() && order[i] == e.0 && (i < k || (i == k && e.1 < j + 1)));
}

/// While the pass stands at `order[k]`, no edge has been relaxed that
/// leaves a target of `order[k]`.
pub proof fn lemma_target_not_relaxed(
    succ: Seq<Seq<int>>,
    order: Seq<int>,
    k: int,
    j: int,
    e: int,
    out: (int, int),
)
    requires
        is_topological(succ, order),
        0 <= k < order.len(),
        0 <= e < succ[order[k]].len(),
        0 <= j <= succ[order[k]].len(),
        out.0 == succ[order[k]][e],
    ensures
        !relaxed(order, k, j, out),
{
    if relaxed(order, k, j, out) {
        let i = choose|i: int|
            0 <= i < order.len() && order[i] == out.0 && (i < k || (i == k && out.1 < j));
        assert(succ[order[k]][e] == order[i]);
    }
}

/// Relaxing the next edge of the node at which the pass stands keeps the
/// state of the pass.
pub proof fn lemma_relax_step_settled(
    adj: Seq<Seq<WeightedEdge<i64>>>,
    mode: OptimalPathType,
    source: int,
    order: Seq<int>,
    steps: Seq<StepView>,
    k: int,
    j: int,
)
    requires
        targets_in_range(adj),
        acyclic(successors(adj)),
        is_topological(successors(adj), order),
        0 <= source < adj.len(),
        0 <= k < adj.len(),
        0 <= j < adj[order[k]].len(),
        settled(adj, mode, source, order, steps, k, j),
    ensures
        settled(
            adj,
            mode,
            source,
            order,
            relax_step(
                mode,
                steps,
                order[k],
                adj[order[k]][j].target as int,
                adj[order[k]][j].weight as int,
            ),
            k,
            j + 1,
        ),
{
    let succ = successors(adj);
    let x = order[k];
    let v = adj[x][j].target as int;
    let w = adj[x][j].weight as int;
    let next = relax_step(mode, steps, x, v, w);
    let candidate = extended_add(steps[x].distance, w);
    let better = improves(mode, candidate, steps[v].distance);
    assert(0 <= x < adj.len());
    assert(is_edge(succ, (x, j)));
    assert(succ[x][j] == v);
    assert(0 <= v < adj.len());
    assert(node_ok(adj, mode, source, order, steps, k, j, x));
    assert(node_ok(adj, mode, source, order, steps, k, j, v));
    assert(relaxed(order, k, j + 1, (x, j)));
    assert(v != x) by {
        lemma_target_not_relaxed(succ, order, k, j + 1, j, (v, j));
    }
    if better {
        assert(steps[x].distance is Finite);
        assert(v != source) by {
            if v == source {
                lemma_no_edge_back(succ, (x, j));
            }
        }
        lemma_reaches_step(succ, source, x, (x, j));
    }
    assert forall|y: int| 0 <= y < adj.len() implies #[trigger] node_ok(
        adj,
        mode,
        source,
        order,
        next,
        k,
        j + 1,
        y,
    ) by {
        assert(node_ok(adj, mode, source, order, steps, k, j, y));
        if better && y == v {
            assert(next[x] == steps[x]);
            assert(next[v] == StepView { distance: candidate, predecessor: Some(x) });
            assert(is_link(adj, order, next, k, j + 1, next[v].predecessor->0, j, v));
        } else {
            assert(next[y] == steps[y]);
            if steps[y].distance is Finite && y != source {
                let u = steps[y].predecessor->0;
                let e = choose|e: int| is_link(adj, order, steps, k, j, u, e, y);
                lemma_relaxed_next(order, k, j, (u, e));
                if u == v {
                    lemma_target_not_relaxed(succ, order, k, j, j, (u, e));
                }
                assert(next[u] == steps[u]);
                assert(is_link(adj, order, next, k, j + 1, u, e, y));
                assert(linked(adj, order, next, k, j + 1, y));
            }
        }
    }
    assert forall|e: (int, int)| is_edge(succ, e) && relaxed(order, k, j + 1, e) implies #[trigger] edge_ok(
        adj,
        mode,
        next,
        e,
    ) by {
        if e == (x, j) {
            assert(next[x] == steps[x]);
        } else {
            assert(relaxed(order, k, j, e)) by {
                let i = choose|i: int|
                    0 <= i < order.len() && order[i] == e.0 && (i < k || (i == k && e.1 < j + 1));
                assert(0 <= i < order.len() && order[i] == e.0 && (i < k || (i == k && e.1 < j)));
            }
            assert(edge_ok(adj, mode, steps, e));
            if e.0 == v {
                lemma_target_not_relaxed(succ, order, k, j, j, e);
            }
            assert(next[e.0] == steps[e.0]);
            let b = adj[e.0][e.1].target as int;
            assert(succ[e.0][e.1] == b);
            assert(0 <= b < adj.len());
            assert(node_ok(adj, mode, source, order, steps, k, j, b));
        }
    }
}

/// Relaxing the first `j` edges of the node at which the pass stands keeps
/// the state of the pass.
pub proof fn lemma_relax_edges_settled(
    adj: Seq<Seq<WeightedEdge<i64>>>,
    mode: OptimalPathType,
    source: int,
    order: Seq<int>,
    steps: Seq<StepView>,
    k: int,
    j: nat,
)
    requires
        targets_in_range(adj),
        acyclic(successors(adj)),
        is_topological(successors(adj), order),
        0 <= source < adj.len(),
        0 <= k < adj.len(),
        j <= adj[order[k]].len(),
        settled(adj, mode, source, order, steps, k, 0),
    ensures
        settled(adj, mode, source, order, relax_edges(adj, mode, steps, order[k], j), k, j as int),
    decreases j,
{
    if j > 0 {
        lemma_relax_edges_settled(adj, mode, source, order, steps, k, (j - 1) as nat);
        lemma_relax_step_settled(
            adj,
            mode,
            source,
            order,
            relax_edges(adj, mode, steps, order[k], (j - 1) as nat),
            k,
            j - 1,
        );
    }
}

/// When all edges of a node are relaxed, the pass stands at the next node.
pub proof fn lemma_settled_next_node(
    adj: Seq<Seq<WeightedEdge<i64>>>,
    mode: OptimalPathType,
    source: int,
    order: Seq<int>,
    steps: Seq<StepView>,
    k: int,
)
    requires
        is_topological(successors(adj), order),
        0 <= k < adj.len(),
        settled(adj, mode, source, order, steps, k, adj[order[k]].len() as int),
    ensures
        settled(adj, mode, source, order, steps, k + 1, 0),
{
    let succ = successors(adj);
    let full = adj[order[k]].len() as int;
    assert forall|e: (int, int)| is_edge(succ, e) implies (relaxed(order, k, full, e) <==> relaxed(
        order,
        k + 1,
        0,
        e,
    )) by {
        if relaxed(order, k, full, e) {
            let i = choose|i: int|
                0 <= i < order.len() && order[i] == e.0 && (i < k || (i == k && e.1 < full));
            assert(0 <= i < order.len() && order[i] == e.0 && (i < k + 1 || (i == k + 1 && e.1 < 0)));
        }
        if relaxed(order, k + 1, 0, e) {
            let i = choose|i: int|
                0 <= i < order.len() && order[i] == e.0 && (i < k + 1 || (i == k + 1 && e.1 < 0));
            assert(0 <= i < order.len() && order[i] == e.0 && (i < k || (i == k && e.1 < full)));
        }
    }
    assert forall|v: int| 0 <= v < adj.len() implies #[trigger] node_ok(
        adj,
        mode,
        source,
        order,
        steps,
        k + 1,
        0,
        v,
    ) by {
        assert(node_ok(adj, mode, source, order, steps, k, full, v));
        if steps[v].distance is Finite && v != source {
            let u = steps[v].predecessor->0;
            let e = choose|e: int| is_link(adj, order, steps, k, full, u, e, v);
            assert(is_link(adj, order, steps, k + 1, 0, u, e, v));
        }
    }
    assert forall|e: (int, int)| is_edge(succ, e) && relaxed(order, k + 1, 0, e) implies #[trigger] edge_ok(
        adj,
        mode,
        steps,
        e,
    ) by {
        assert(relaxed(order, k, full, e));
    }
}

/// Before any edge is relaxed the state of the pass holds.
pub proof fn lemma_initial_settled(
    adj: Seq<Seq<WeightedEdge<i64>>>,
    mode: OptimalPathType,
    source: int,
    order: Seq<int>,
)
    requires
        0 <= source < adj.len(),
    ensures
        settled(adj, mode, source, order, initial_steps(adj.len(), mode, source), 0, 0),
{
    let steps = initial_steps(adj.len(), mode, source);
    lemma_reaches_self(successors(adj), source);
    assert forall|v: int| 0 <= v < adj.len() implies #[trigger] node_ok(
        adj,
        mode,
        source,
        order,
        steps,
        0,
        0,
        v,
    ) by {}
}

/// After the edges of the first `k` nodes of the order are relaxed, the
/// state of the pass holds at node `k`.
pub proof fn lemma_relax_nodes_settled(
    adj: Seq<Seq<WeightedEdge<i64>>>,
    mode: OptimalPathType,
    source: int,
    order: Seq<int>,
    k: nat,
)
    requires
        targets_in_range(adj),
        acyclic(successors(adj)),
        is_topological(successors(adj), order),
        0 <= source < adj.len(),
        k <= adj.len(),
    ensures
        settled(
            adj,
            mode,
            source,
            order,
            relax_nodes(adj, mode, order, initial_steps(adj.len(), mode, source), k),
            k as int,
            0,
        ),
    decreases k,
{
    let start = initial_steps(adj.len(), mode, source);
    if k == 0 {
        lemma_initial_settled(adj, mode, source, order);
    } else {
        let before = relax_nodes(adj, mode, order, start, (k - 1) as nat);
        let u = order[k - 1];
        lemma_relax_nodes_settled(adj, mode, source, order, (k - 1) as nat);
        lemma_relax_edges_settled(adj, mode, source, order, before, k - 1, adj[u].len());
        lemma_settled_next_node(
            adj,
            mode,
            source,
            order,
            relax_edges(adj, mode, before, u, adj[u].len()),
            k - 1,
        );
    }
}

/// Once every edge is relaxed, no route from the source to a node is better
/// than the distance of that node.
pub proof fn lemma_route_bound(
    adj: Seq<Seq<WeightedEdge<i64>>>,
    mode: OptimalPathType,
    source: int,
    order: Seq<int>,
    steps: Seq<StepView>,
    route: Seq<(int, int)>,
    v: int,
)
    requires
        targets_in_range(adj),
        is_topological(successors(adj), order),
        settled(adj, mode, source, order, steps, adj.len() as int, 0),
        is_route(successors(adj), route, source, v),
    ensures
        steps[v].distance matches Extended::Finite(d) && no_worse(mode, d, route_weight(adj, route)),
    decreases route.len(),
{
    let succ = successors(adj);
    if route.len() > 0 {
        let e = route.last();
        lemma_route_drop_last(succ, route, source, v);
        lemma_route_bound(adj, mode, source, order, steps, route.drop_last(), e.0);
        assert(is_edge(succ, e));
        assert(relaxed(order, adj.len() as int, 0, e)) by {
            assert(order.contains(e.0));
            let i = choose|i: int| 0 <= i < order.len() && order[i] == e.0;
            assert(0 <= i < order.len() && order[i] == e.0 && (i < adj.len() || (i == adj.len()
                && e.1 < 0)));
        }
        assert(edge_ok(adj, mode, steps, e));
        assert(edge_target(succ, e) == adj[e.0][e.1].target);
    }
}

/// Every edge of `route` leads to a node whose predecessor is the node
/// that the edge leaves.
pub open spec fn follows_predecessors(
    succ: Seq<Seq<int>>,
    steps: Seq<StepView>,
    route: Seq<(int, int)>,
) -> bool {
    forall|i: int|
        0 <= i < route.len() ==> steps[edge_target(succ, #[trigger] route[i])].predecessor == Some(
            route[i].0,
        )
}

/// `route` is the way from the source to `v` that the predecessor links
/// describe: it has fewer edges than the graph has nodes, and its weight is
/// the distance of `v`.
pub open spec fn traces_back(
    adj: Seq<Seq<WeightedEdge<i64>>>,
    source: int,
    steps: Seq<StepView>,
    v: int,
    route: Seq<(int, int)>,
) -> bool {
    &&& is_route(successors(adj), route, source, v)
    &&& follows_predecessors(successors(adj), steps, route)
    &&& route.len() < adj.len()
    &&& steps[v].distance == Extended::Finite(route_weight(adj, route))
}

/// Once every edge is relaxed, the predecessor links lead from a node with
/// a finite distance back to the source, along a route whose weight is that
/// distance and which has no more edges than the node has nodes before it
/// in the order.
pub proof fn lemma_predecessor_route(
    adj: Seq<Seq<WeightedEdge<i64>>>,
    mode: OptimalPathType,
    source: int,
    order: Seq<int>,
    steps: Seq<StepView>,
    p: int,
) -> (route: Seq<(int, int)>)
    requires
        targets_in_range(adj),
        is_topological(successors(adj), order),
        0 <= source < adj.len(),
        settled(adj, mode, source, order, steps, adj.len() as int, 0),
        0 <= p < order.len(),
        steps[order[p]].distance is Finite,
    ensures
        traces_back(adj, source, steps, order[p], route),
        route.len() <= p,
    decreases p,
{
    let succ = successors(adj);
    let v = order[p];
    assert(node_ok(adj, mode, source, order, steps, adj.len() as int, 0, v));
    if v == source {
        Seq::empty()
    } else {
        let u = steps[v].predecessor->0;
        let e = choose|e: int| is_link(adj, order, steps, adj.len() as int, 0, u, e, v);
        assert(order.contains(u));
        let q = choose|q: int| 0 <= q < order.len() && order[q] == u;
        assert(succ[order[q]][e] == order[p]);
        let before = lemma_predecessor_route(adj, mode, source, order, steps, q);
        let route = before.push((u, e));
        lemma_route_push(succ, before, source, u, (u, e));
        assert(route.drop_last() =~= before);
        assert forall|i: int| 0 <= i < route.len() implies steps[edge_target(
            succ,
            #[trigger] route[i],
        )].predecessor == Some(route[i].0) by {
            if i < before.len() {
                assert(route[i] == before[i]);
            }
        }
        route
    }
}

/// What a path query owes for an acyclic graph. The source has distance
/// zero and no predecessor. A node that the source does not reach keeps the
/// sentinel of the mode and has no predecessor. A node that the source
/// reaches has a finite distance, which no route from the source betters
/// and which the route along the predecessor links attains.
pub open spec fn is_optimal(
    adj: Seq<Seq<WeightedEdge<i64>>>,
    mode: OptimalPathType,
    source: int,
    steps: Seq<StepView>,
) -> bool {
    &&& steps.len() == adj.len()
    &&& steps[source] == StepView { distance: Extended::Finite(0), predecessor: None }
    &&& forall|v: int|
        0 <= v < adj.len() && !reaches(successors(adj), source, v) ==> #[trigger] steps[v] == StepView {
            distance: sentinel(mode),
            predecessor: None,
        }
    &&& forall|v: int, route: Seq<(int, int)>| #[trigger]
        is_route(successors(adj), route, source, v) ==> {
            &&& steps[v].distance matches Extended::Finite(d)
            &&& no_worse(mode, d, route_weight(adj, route))
        }
    &&& forall|v: int|
        0 <= v < adj.len() && #[trigger] reaches(successors(adj), source, v) ==> exists|
            route: Seq<(int, int)>,
        |
            traces_back(adj, source, steps, v, route)
}

/// The order of the sort is topological where the graph is acyclic.
pub proof fn lemma_order_is_topological(adj: Seq<Seq<WeightedEdge<i64>>>)
    requires
        targets_in_range(adj),
        acyclic(successors(adj)),
    ensures
        is_topological(successors(adj), topological_order(successors(adj))),
{
    let succ = successors(adj);
    lemma_successors_in_range(adj);
    lemma_topological_order_is_permutation(succ);
    lemma_topological_order_respects_edges(succ);
}

/// In an acyclic graph the result of a path query is optimal: for each node
/// that the source reaches, the distance is the least (for `Shortest`) or
/// the greatest (for `Longest`) weight of a route from the source, and the
/// predecessor links trace such a route back to the source in fewer steps
/// than there are nodes; every other node keeps the sentinel.
pub proof fn lemma_optimal_steps(adj: Seq<Seq<WeightedEdge<i64>>>, mode: OptimalPathType, source: int)
    requires
        targets_in_range(adj),
        acyclic(successors(adj)),
        0 <= source < adj.len(),
    ensures
        is_optimal(adj, mode, source, optimal_steps(adj, mode, source)),
{
    let succ = successors(adj);
    let n = adj.len();
    let order = topological_order(succ);
    let steps = optimal_steps(adj, mode, source);
    lemma_order_is_topological(adj);
    lemma_relax_nodes_settled(adj, mode, source, order, n);
    assert forall|v: int| 0 <= v < n && !reaches(succ, source, v) implies #[trigger] steps[v]
        == (StepView { distance: sentinel(mode), predecessor: None }) by {
        assert(node_ok(adj, mode, source, order, steps, n as int, 0, v));
    }
    assert forall|v: int, route: Seq<(int, int)>| #[trigger]
        is_route(succ, route, source, v) implies {
        &&& steps[v].distance matches Extended::Finite(d)
        &&& no_worse(mode, d, route_weight(adj, route))
    } by {
        lemma_route_bound(adj, mode, source, order, steps, route, v);
    }
    assert forall|v: int| 0 <= v < n && #[trigger] reaches(succ, source, v) implies exists|
        route: Seq<(int, int)>,
    |
        traces_back(adj, source, steps, v, route) by {
        let any = choose|route: Seq<(int, int)>| is_route(succ, route, source, v);
        lemma_route_bound(adj, mode, source, order, steps, any, v);
        assert(order.contains(v));
        let p = choose|p: int| 0 <= p < order.len() && order[p] == v;
        let route = lemma_predecessor_route(adj, mode, source, order, steps, p);
        assert(traces_back(adj, source, steps, v, route));
    }
}

/// In an acyclic graph the shortest distance of a node that the source
/// reaches is the minimum of the weights of the routes from the source to
/// it: some route has that weight and none has less; the source itself is
/// at distance zero and has no predecessor.
pub proof fn lemma_shortest_is_minimum(
    adj: Seq<Seq<WeightedEdge<i64>>>,
    source: int,
    v: int,
    route: Seq<(int, int)>,
)
    requires
        targets_in_range(adj),
        acyclic(successors(adj)),
        is_route(successors(adj), route, source, v),
    ensures
        optimal_steps(adj, OptimalPathType::Shortest, source)[source] == (StepView {
            distance: Extended::Finite(0),
            predecessor: None,
        }),
        optimal_steps(adj, OptimalPathType::Shortest, source)[v].distance matches Extended::Finite(d)
            && d <= route_weight(adj, route) && exists|best: Seq<(int, int)>|
            is_route(successors(adj), best, source, v) && route_weight(adj, best) == d,
{
    let steps = optimal_steps(adj, OptimalPathType::Shortest, source);
    lemma_optimal_steps(adj, OptimalPathType::Shortest, source);
    lemma_successors_in_range(adj);
    lemma_route_ends(successors(adj), route, source, v);
    assert(reaches(successors(adj), source, v));
    let best = choose|best: Seq<(int, int)>| traces_back(adj, source, steps, v, best);
    assert(is_route(successors(adj), best, source, v) && route_weight(adj, best)
        == steps[v].distance->Finite_0);
}

/// In an acyclic graph the longest distance of a node that the source
/// reaches is the maximum of the weights of the routes from the source to
/// it: some route has that weight and none has more; the source itself is
/// at distance zero and has no predecessor.
pub proof fn lemma_longest_is_maximum(
    adj: Seq<Seq<WeightedEdge<i64>>>,
    source: int,
    v: int,
    route: Seq<(int, int)>,
)
    requires
        targets_in_range(adj),
        acyclic(successors(adj)),
        is_route(successors(adj), route, source, v),
    ensures
        optimal_steps(adj, OptimalPathType::Longest, source)[source] == (StepView {
            distance: Extended::Finite(0),
            predecessor: None,
        }),
        optimal_steps(adj, OptimalPathType::Longest, source)[v].distance matches Extended::Finite(d)
            && d >= route_weight(adj, route) && exists|best: Seq<(int, int)>|
            is_route(successors(adj), best, source, v) && route_weight(adj, best) == d,
{
    let steps = optimal_steps(adj, OptimalPathType::Longest, source);
    lemma_optimal_steps(adj, OptimalPathType::Longest, source);
    lemma_successors_in_range(adj);
    lemma_route_ends(successors(adj), route, source, v);
    assert(reaches(successors(adj), source, v));
    let best = choose|best: Seq<(int, int)>| traces_back(adj, source, steps, v, best);
    assert(is_route(successors(adj), best, source, v) && route_weight(adj, best)
        == steps[v].distance->Finite_0);
}

/// In an acyclic graph a node that the source does not reach keeps the
/// sentinel of the mode, positive infinity for `Shortest` and negative
/// infinity for `Longest`, and has no predecessor.
pub proof fn lemma_unreached_keeps_sentinel(
    adj: Seq<Seq<WeightedEdge<i64>>>,
    mode: OptimalPathType,
    source: int,
    v: int,
)
    requires
        targets_in_range(adj),
        acyclic(successors(adj)),
        0 <= source < adj.len(),
        0 <= v < adj.len(),
        !reaches(successors(adj), source, v),
    ensures
        optimal_steps(adj, mode, source)[v] == (StepView {
            distance: sentinel(mode),
            predecessor: None,
        }),
{
    lemma_optimal_steps(adj, mode, source);
}

/// In an acyclic graph the predecessor links lead from every node with a
/// finite distance back to the source: there is a route from the source to
/// the node, of fewer edges than the graph has nodes, on which every node
/// but the source has the node before it as its predecessor, and whose
/// weight is the distance of the node.
pub proof fn lemma_predecessors_trace_back(
    adj: Seq<Seq<WeightedEdge<i64>>>,
    mode: OptimalPathType,
    source: int,
    v: int,
)
    requires
        targets_in_range(adj),
        acyclic(successors(adj)),
        0 <= source < adj.len(),
        0 <= v < adj.len(),
        optimal_steps(adj, mode, source)[v].distance is Finite,
    ensures
        exists|route: Seq<(int, int)>|
            {
                &&& #[trigger] is_route(successors(adj), route, source, v)
                &&& follows_predecessors(successors(adj), optimal_steps(adj, mode, source), route)
                &&& route.len() <= adj.len() - 1
                &&& optimal_steps(adj, mode, source)[v].distance == Extended::Finite(
                    route_weight(adj, route),
                )
            },
{
    let steps = optimal_steps(adj, mode, source);
    lemma_optimal_steps(adj, mode, source);
    if !reaches(successors(adj), source, v) {
        assert(steps[v].distance == sentinel(mode));
    }
    let route = choose|route: Seq<(int, int)>| traces_back(adj, source, steps, v, route);
    assert(is_route(successors(adj), route, source, v));
}

} // verus!
