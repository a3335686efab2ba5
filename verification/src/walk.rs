//! Routes through a graph, reachability and acyclicity, over successor lists.

use vstd::prelude::*;

verus! {

/// Every successor is a node of the graph.
pub open spec fn in_range(succ: Seq<Seq<int>>) -> bool {
    forall|u: int, j: int|
        0 <= u < succ.len() && 0 <= j < succ[u].len() ==> 0 <= #[trigger] succ[u][j] < succ.len()
}

/// `e` names an edge of the graph: a node and an index into its successors.
pub open spec fn is_edge(succ: Seq<Seq<int>>, e: (int, int)) -> bool {
    0 <= e.0 < succ.len() && 0 <= e.1 < succ[e.0].len()
}

/// The node that edge `e` leads to.
pub open spec fn edge_target(succ: Seq<Seq<int>>, e: (int, int)) -> int {
    succ[e.0][e.1]
}

/// `route` is a chain of edges that starts at `from` and ends at `to`, each
/// edge leaving the node that the one before it leads to. The empty route
/// stays at its node.
pub open spec fn is_route(succ: Seq<Seq<int>>, route: Seq<(int, int)>, from: int, to: int) -> bool {
    &&& 0 <= from < succ.len()
    &&& forall|i: int| 0 <= i < route.len() ==> is_edge(succ, #[trigger] route[i])
    &&& forall|i: int|
        0 <= i < route.len() - 1 ==> edge_target(succ, #[trigger] route[i]) == route[i + 1].0
    &&& route.len() == 0 ==> from == to
    &&& route.len() > 0 ==> route[0].0 == from && edge_target(succ, route.last()) == to
}

/// There is a route from `from` to `to`.
pub open spec fn reaches(succ: Seq<Seq<int>>, from: int, to: int) -> bool {
    exists|route: Seq<(int, int)>| is_route(succ, route, from, to)
}

/// No route with an edge in it returns to the node it started from.
pub open spec fn acyclic(succ: Seq<Seq<int>>) -> bool {
    forall|route: Seq<(int, int)>, a: int| #[trigger] is_route(succ, route, a, a) ==> route.len() == 0
}

/// A route followed by an edge that leaves its end is a route to that
/// edge's target.
pub proof fn lemma_route_push(
    succ: Seq<Seq<int>>,
    route: Seq<(int, int)>,
    from: int,
    to: int,
    e: (int, int),
)
    requires
        is_route(succ, route, from, to),
        is_edge(succ, e),
        e.0 == to,
    ensures
        is_route(succ, route.push(e), from, edge_target(succ, e)),
{
    let longer = route.push(e);
    assert forall|i: int| 0 <= i < longer.len() - 1 implies edge_target(succ, #[trigger] longer[i])
        == longer[i + 1].0 by {
        if i < route.len() - 1 {
            assert(longer[i] == route[i]);
        } else {
            assert(longer[i] == route.last());
        }
    }
}

/// A route without its last edge is a route to the node that this edge
/// leaves.
pub proof fn lemma_route_drop_last(succ: Seq<Seq<int>>, route: Seq<(int, int)>, from: int, to: int)
    requires
        is_route(succ, route, from, to),
        route.len() > 0,
    ensures
        is_route(succ, route.drop_last(), from, route.last().0),
{
    let shorter = route.drop_last();
    assert forall|i: int| 0 <= i < shorter.len() implies is_edge(succ, #[trigger] shorter[i]) by {
        assert(shorter[i] == route[i]);
    }
    assert forall|i: int| 0 <= i < shorter.len() - 1 implies edge_target(succ, #[trigger] shorter[i])
        == shorter[i + 1].0 by {
        assert(shorter[i] == route[i]);
    }
    if shorter.len() > 0 {
        assert(shorter[0] == route[0]);
        assert(shorter.last() == route[route.len() - 2]);
    } else {
        assert(route[0] == route.last());
    }
}

/// Where every successor is a node of the graph, a route ends at one.
pub proof fn lemma_route_ends(succ: Seq<Seq<int>>, route: Seq<(int, int)>, from: int, to: int)
    requires
        in_range(succ),
        is_route(succ, route, from, to),
    ensures
        0 <= from < succ.len(),
        0 <= to < succ.len(),
{
    if route.len() > 0 {
        assert(is_edge(succ, route.last()));
    }
}

/// Reachability passes along an edge.
pub proof fn lemma_reaches_step(succ: Seq<Seq<int>>, from: int, to: int, e: (int, int))
    requires
        reaches(succ, from, to),
        is_edge(succ, e),
        e.0 == to,
    ensures
        reaches(succ, from, edge_target(succ, e)),
{
    let route = choose|route: Seq<(int, int)>| is_route(succ, route, from, to);
    lemma_route_push(succ, route, from, to, e);
}

/// Every node of the graph reaches itself.
pub proof fn lemma_reaches_self(succ: Seq<Seq<int>>, u: int)
    requires
        0 <= u < succ.len(),
    ensures
        reaches(succ, u, u),
{
    assert(is_route(succ, Seq::<(int, int)>::empty(), u, u));
}

/// In an acyclic graph no edge leads to a node that reaches its source.
pub proof fn lemma_no_edge_back(succ: Seq<Seq<int>>, e: (int, int))
    requires
        acyclic(succ),
        is_edge(succ, e),
    ensures
        !reaches(succ, edge_target(succ, e), e.0),
{
    if reaches(succ, edge_target(succ, e), e.0) {
        let v = edge_target(succ, e);
        let route = choose|route: Seq<(int, int)>| is_route(succ, route, v, e.0);
        lemma_route_push(succ, route, v, e.0, e);
        assert(is_route(succ, route.push(e), v, v));
    }
}

} // verus!
