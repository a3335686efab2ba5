//! Single-source shortest and longest paths by one pass of edge relaxation
//! in topological order.

use crate::distance::{
    extended_add, improves, sentinel, step_views, Distance, Extended, OptimalPathType, Step,
    StepView,
};
use crate::graph::{
    degree_sum, edge_count, lemma_degree_sum_bound, successors, targets_in_range, WeightedEdge,
    DAG,
};
use crate::optimal::{is_optimal, lemma_optimal_steps};
use crate::order::topological_order;
use crate::walk::acyclic;
use crate::sort::node_ids;
use vstd::prelude::*;

verus! {

/// The steps before any edge is relaxed: the source at distance zero, every
/// other node at the sentinel of the mode, and no predecessor anywhere.
pub open spec fn initial_steps(n: nat, mode: OptimalPathType, source: int) -> Seq<StepView> {
    Seq::new(
        n,
        |i: int|
            StepView {
                distance: if i == source {
                    Extended::Finite(0)
                } else {
                    sentinel(mode)
                },
                predecessor: None,
            },
    )
}

/// The steps after the edge from `u` to `v` of weight `w` is relaxed: where
/// the way over `u` is strictly better than what `v` has, `v` takes it.
pub open spec fn relax_step(
    mode: OptimalPathType,
    steps: Seq<StepView>,
    u: int,
    v: int,
    w: int,
) -> Seq<StepView> {
    let candidate = extended_add(steps[u].distance, w);
    if improves(mode, candidate, steps[v].distance) {
        steps.update(v, StepView { distance: candidate, predecessor: Some(u) })
    } else {
        steps
    }
}

/// The steps after the first `j` edges of node `u` are relaxed in order.
pub open spec fn relax_edges(
    adj: Seq<Seq<WeightedEdge<i64>>>,
    mode: OptimalPathType,
    steps: Seq<StepView>,
    u: int,
    j: nat,
) -> Seq<StepView>
    decreases j,
{
    if j == 0 {
        steps
    } else {
        let edge = adj[u][j - 1];
        relax_step(
            mode,
            relax_edges(adj, mode, steps, u, (j - 1) as nat),
            u,
            edge.target as int,
            edge.weight as int,
        )
    }
}

/// The steps after all edges of the first `k` nodes of `order` are relaxed,
/// node by node.
pub open spec fn relax_nodes(
    adj: Seq<Seq<WeightedEdge<i64>>>,
    mode: OptimalPathType,
    order: Seq<int>,
    steps: Seq<StepView>,
    k: nat,
) -> Seq<StepView>
    decreases k,
{
    if k == 0 {
        steps
    } else {
        let u = order[k - 1];
        relax_edges(adj, mode, relax_nodes(adj, mode, order, steps, (k - 1) as nat), u, adj[u].len())
    }
}

/// The result of a path query: every edge relaxed once, the nodes taken in
/// topological order and the edges of each node in insertion order.
pub open spec fn optimal_steps(
    adj: Seq<Seq<WeightedEdge<i64>>>,
    mode: OptimalPathType,
    source: int,
) -> Seq<StepView> {
    relax_nodes(
        adj,
        mode,
        topological_order(successors(adj)),
        initial_steps(adj.len(), mode, source),
        adj.len(),
    )
}

/// Every finite distance lies within `m` edges of the largest weight from
/// zero.
pub open spec fn within(steps: Seq<StepView>, m: int) -> bool {
    forall|v: int|
        0 <= v < steps.len() ==> (#[trigger] steps[v].distance matches Extended::Finite(d) ==> -m
            * 0x8000_0000_0000_0000 <= d <= m * 0x8000_0000_0000_0000)
}

/// Relaxing one edge moves every finite distance at most one weight further
/// from zero.
pub proof fn lemma_relax_step_within(
    mode: OptimalPathType,
    steps: Seq<StepView>,
    u: int,
    v: int,
    w: int,
    m: int,
)
    requires
        within(steps, m),
        0 <= m,
        0 <= u < steps.len(),
        0 <= v < steps.len(),
        -0x8000_0000_0000_0000 <= w < 0x8000_0000_0000_0000,
    ensures
        within(relax_step(mode, steps, u, v, w), m + 1),
{
    let next = relax_step(mode, steps, u, v, w);
    assert forall|x: int| 0 <= x < next.len() implies (#[trigger] next[x].distance matches Extended::Finite(
        d,
    ) ==> -(m + 1) * 0x8000_0000_0000_0000 <= d <= (m + 1) * 0x8000_0000_0000_0000) by {
        if x != v {
            assert(next[x] == steps[x]);
        }
    }
}

impl DAG<i64> {
    /// Computes for every node its shortest or longest distance from
    /// `source` and the node before it on a path of that length. Every edge
    /// is relaxed once, the nodes taken in the order of
    /// [`DAG::topological_sort`] and the edges of a node in insertion
    /// order. In an acyclic graph the result is optimal: a node that no
    /// path from `source` reaches keeps the infinity of the mode and has no
    /// predecessor; every other node has the least or greatest weight of a
    /// path from `source`, and the predecessors trace such a path.
    pub fn optimal_path(&self, path_type: &OptimalPathType, source: u64) -> (nodes: Vec<Step>)
        requires
            targets_in_range(self@),
            source < self@.len(),
        ensures
            nodes@.len() == self@.len(),
            step_views(nodes@) == optimal_steps(self@, *path_type, source as int),
            acyclic(successors(self@)) ==> is_optimal(
                self@,
                *path_type,
                source as int,
                step_views(nodes@),
            ),
    {
        let ghost adj = self@;
        let ghost mode = *path_type;
        let n = self.node_count();
        let mut nodes: Vec<Step> = Vec::new();
        let mut i: usize = 0;
        while i < n
            invariant
                i <= n,
                nodes@.len() == i,
                forall|v: int|
                    0 <= v < i ==> #[trigger] nodes@[v]@ == (StepView {
                        distance: sentinel(*path_type),
                        predecessor: None,
                    }),
            decreases n - i,
        {
            match path_type {
                OptimalPathType::Shortest => nodes.push(
                    Step { distance: Distance::Infinity, predecessor: None },
                ),
                OptimalPathType::Longest => nodes.push(
                    Step { distance: Distance::NegInfinity, predecessor: None },
                ),
            }
            i = i + 1;
        }
        let ghost unreached = nodes@;
        nodes[source as usize] = Step { distance: Distance::Finite(0), predecessor: None };
        let sorted_nodes = self.topological_sort();
        let ghost order = node_ids(sorted_nodes@);
        let ghost start = initial_steps(n as nat, mode, source as int);
        proof {
            assert forall|v: int| 0 <= v < n implies #[trigger] step_views(nodes@)[v] == start[v] by {
                if v != source {
                    assert(nodes@[v] == unreached[v]);
                }
            }
            assert(step_views(nodes@) =~= start);
            assert(within(step_views(nodes@), 0));
            use_type_invariant(self);
            assert(order.take(0) =~= Seq::<int>::empty());
        }
        let mut k: usize = 0;
        while k < n
            invariant
                adj == self@,
                mode == *path_type,
                targets_in_range(adj),
                n == adj.len(),
                k <= n,
                nodes@.len() == n,
                order == node_ids(sorted_nodes@),
                order == topological_order(successors(adj)),
                crate::sort::is_permutation(sorted_nodes@, n as nat),
                step_views(nodes@) == relax_nodes(adj, mode, order, start, k as nat),
                within(step_views(nodes@), degree_sum(adj, order.take(k as int)) as int),
                edge_count(adj) <= usize::MAX,
            decreases n - k,
        {
            let x = sorted_nodes[k];
            let edges = self.neighbors(x);
            let ghost before = step_views(nodes@);
            let ghost m = degree_sum(adj, order.take(k as int));
            proof {
                let taken = order.take(k + 1);
                assert(taken.drop_last() =~= order.take(k as int));
                assert(taken.last() == x);
                assert(taken.no_duplicates()) by {
                    assert forall|a: int, b: int|
                        0 <= a < taken.len() && 0 <= b < taken.len() && a != b implies taken[a]
                        != taken[b] by {
                        assert(sorted_nodes@[a] != sorted_nodes@[b]);
                    }
                }
                assert forall|a: int| 0 <= a < taken.len() implies 0 <= #[trigger] taken[a]
                    < adj.len() by {
                    assert(sorted_nodes@[a] < n);
                }
                lemma_degree_sum_bound(adj, taken);
                assert(degree_sum(adj, taken) == m + edges@.len());
            }
            let mut j: usize = 0;
            while j < edges.len()
                invariant
                    mode == *path_type,
                    targets_in_range(adj),
                    n == adj.len(),
                    x < n,
                    nodes@.len() == n,
                    edges@ == adj[x as int],
                    j <= edges@.len(),
                    step_views(nodes@) == relax_edges(adj, mode, before, x as int, j as nat),
                    within(step_views(nodes@), m + j),
                    m + edges@.len() <= usize::MAX,
                decreases edges@.len() - j,
            {
                let edge = edges[j];
                proof {
                    assert(adj[x as int][j as int].target < n);
                    let d = step_views(nodes@)[x as int].distance;
                    assert(nodes@[x as int].distance@ == d);
                    lemma_relax_step_within(
                        mode,
                        step_views(nodes@),
                        x as int,
                        edge.target as int,
                        edge.weight as int,
                        m + j,
                    );
                }
                DAG::relax(path_type, &mut nodes, x, edge.target, edge.weight);
                j = j + 1;
            }
            k = k + 1;
        }
        proof {
            if acyclic(successors(adj)) {
                lemma_optimal_steps(adj, mode, source as int);
            }
        }
        nodes
    }

    /// Relaxes the edge from `u` to `v` of weight `vw_distance`.
    fn relax(path_type: &OptimalPathType, nodes: &mut Vec<Step>, u: u64, v: u64, vw_distance: i64)
        requires
            u < old(nodes).len(),
            v < old(nodes).len(),
            old(nodes)@[u as int].distance matches Distance::Finite(d) ==> i128::MIN <= d + vw_distance
                <= i128::MAX,
        ensures
            final(nodes)@.len() == old(nodes)@.len(),
            step_views(final(nodes)@) == relax_step(
                *path_type,
                step_views(old(nodes)@),
                u as int,
                v as int,
                vw_distance as int,
            ),
    {
        let candidate = nodes[u as usize].distance.plus(vw_distance);
        let current = nodes[v as usize].distance;
        let better = match path_type {
            OptimalPathType::Shortest => candidate.less_than(current),
            OptimalPathType::Longest => current.less_than(candidate),
        };
        if better {
            nodes[v as usize] = Step { distance: candidate, predecessor: Some(u) };
            proof {
                assert(step_views(nodes@) =~= relax_step(
                    *path_type,
                    step_views(old(nodes)@),
                    u as int,
                    v as int,
                    vw_distance as int,
                ));
            }
        }
    }
}

} // verus!
