//! The graph store: adjacency lists built once from an edge list.

use crate::walk::in_range;
use vstd::prelude::*;

verus! {

/// One outgoing edge of a node: where it leads and what it weighs.
#[derive(Clone, Copy, Debug, PartialEq)]
pub struct WeightedEdge<W> {
    pub weight: W,
    pub target: u64,
}

/// The stored form of one input edge `(source, target, weight)`.
pub open spec fn stored_edge<W>(edge: (u64, u64, W)) -> WeightedEdge<W> {
    WeightedEdge { weight: edge.2, target: edge.1 }
}

/// The outgoing edges of node `u`: the input edges whose source is `u`, in
/// input order.
pub open spec fn outgoing<W>(edges: Seq<(u64, u64, W)>, u: int) -> Seq<WeightedEdge<W>>
    decreases edges.len(),
{
    if edges.len() == 0 {
        Seq::empty()
    } else if edges.last().0 == u {
        outgoing(edges.drop_last(), u).push(stored_edge(edges.last()))
    } else {
        outgoing(edges.drop_last(), u)
    }
}

/// The adjacency lists of the graph with `n` nodes and the given edges.
pub open spec fn adjacency<W>(n: nat, edges: Seq<(u64, u64, W)>) -> Seq<Seq<WeightedEdge<W>>> {
    Seq::new(n, |u: int| outgoing(edges, u))
}

/// The number of edges held in all adjacency lists together.
pub open spec fn edge_count<W>(adj: Seq<Seq<WeightedEdge<W>>>) -> nat
    decreases adj.len(),
{
    if adj.len() == 0 {
        0
    } else {
        edge_count(adj.drop_last()) + adj.last().len()
    }
}

/// Every edge leads to a node of the graph.
pub open spec fn targets_in_range<W>(adj: Seq<Seq<WeightedEdge<W>>>) -> bool {
    forall|u: int, j: int|
        0 <= u < adj.len() && 0 <= j < adj[u].len() ==> (#[trigger] adj[u][j]).target < adj.len()
}

/// The successor lists: for each node, the targets of its outgoing edges in
/// insertion order, without the weights.
pub open spec fn successors<W>(adj: Seq<Seq<WeightedEdge<W>>>) -> Seq<Seq<int>> {
    Seq::new(adj.len(), |u: int| Seq::new(adj[u].len(), |j: int| adj[u][j].target as int))
}

/// Appending one edge to the list of node `u` adds one to the edge count.
pub proof fn lemma_edge_count_push<W>(adj: Seq<Seq<WeightedEdge<W>>>, u: int, e: WeightedEdge<W>)
    requires
        0 <= u < adj.len(),
    ensures
        edge_count(adj.update(u, adj[u].push(e))) == edge_count(adj) + 1,
    decreases adj.len(),
{
    let next = adj.update(u, adj[u].push(e));
    if u == adj.len() - 1 {
        assert(next.drop_last() =~= adj.drop_last());
    } else {
        lemma_edge_count_push(adj.drop_last(), u, e);
        assert(next.drop_last() =~= adj.drop_last().update(u, adj.drop_last()[u].push(e)));
    }
}

/// Adjacency lists that are all empty hold no edge.
pub proof fn lemma_edge_count_empty<W>(adj: Seq<Seq<WeightedEdge<W>>>)
    requires
        forall|u: int| 0 <= u < adj.len() ==> (#[trigger] adj[u]).len() == 0,
    ensures
        edge_count(adj) == 0,
    decreases adj.len(),
{
    if adj.len() > 0 {
        lemma_edge_count_empty(adj.drop_last());
    }
}

/// The number of edges that leave the listed nodes, each counted as often
/// as its node is listed.
pub open spec fn degree_sum<W>(adj: Seq<Seq<WeightedEdge<W>>>, nodes: Seq<int>) -> nat
    decreases nodes.len(),
{
    if nodes.len() == 0 {
        0
    } else {
        degree_sum(adj, nodes.drop_last()) + adj[nodes.last()].len()
    }
}

/// Taking one node out of the list takes its edges out of the sum.
pub proof fn lemma_degree_sum_remove<W>(adj: Seq<Seq<WeightedEdge<W>>>, nodes: Seq<int>, p: int)
    requires
        0 <= p < nodes.len(),
    ensures
        degree_sum(adj, nodes) == degree_sum(adj, nodes.remove(p)) + adj[nodes[p]].len(),
    decreases nodes.len(),
{
    if p == nodes.len() - 1 {
        assert(nodes.remove(p) =~= nodes.drop_last());
    } else {
        lemma_degree_sum_remove(adj, nodes.drop_last(), p);
        assert(nodes.remove(p).drop_last() =~= nodes.drop_last().remove(p));
        assert(nodes.remove(p).last() == nodes.last());
    }
}

/// The sum looks only at the lists of the nodes it is taken over.
pub proof fn lemma_degree_sum_prefix<W>(adj: Seq<Seq<WeightedEdge<W>>>, nodes: Seq<int>)
    requires
        forall|i: int| 0 <= i < nodes.len() ==> 0 <= #[trigger] nodes[i] < adj.len() - 1,
    ensures
        degree_sum(adj, nodes) == degree_sum(adj.drop_last(), nodes),
    decreases nodes.len(),
{
    if nodes.len() > 0 {
        lemma_degree_sum_prefix(adj, nodes.drop_last());
        assert(0 <= nodes[nodes.len() - 1] < adj.len() - 1);
    }
}

/// Distinct nodes have no more outgoing edges together than the graph has
/// edges.
pub proof fn lemma_degree_sum_bound<W>(adj: Seq<Seq<WeightedEdge<W>>>, nodes: Seq<int>)
    requires
        nodes.no_duplicates(),
        forall|i: int| 0 <= i < nodes.len() ==> 0 <= #[trigger] nodes[i] < adj.len(),
    ensures
        degree_sum(adj, nodes) <= edge_count(adj),
    decreases adj.len(),
{
    if adj.len() == 0 {
        if nodes.len() > 0 {
            assert(0 <= nodes[0] < adj.len());
        }
    } else {
        let last = adj.len() - 1;
        if nodes.contains(last) {
            let p = choose|p: int| 0 <= p < nodes.len() && nodes[p] == last;
            let others = nodes.remove(p);
            lemma_degree_sum_remove(adj, nodes, p);
            assert forall|i: int| 0 <= i < others.len() implies 0 <= #[trigger] others[i] < last by {
                if i < p {
                    assert(others[i] == nodes[i]);
                } else {
                    assert(others[i] == nodes[i + 1]);
                }
            }
            assert(others.no_duplicates()) by {
                assert forall|a: int, b: int|
                    0 <= a < others.len() && 0 <= b < others.len() && a != b implies others[a]
                    != others[b] by {
                    let a0 = if a < p { a } else { a + 1 };
                    let b0 = if b < p { b } else { b + 1 };
                    assert(others[a] == nodes[a0] && others[b] == nodes[b0]);
                }
            }
            lemma_degree_sum_prefix(adj, others);
            lemma_degree_sum_bound(adj.drop_last(), others);
        } else {
            assert forall|i: int| 0 <= i < nodes.len() implies 0 <= #[trigger] nodes[i] < last by {
                assert(nodes.contains(nodes[i]));
            }
            lemma_degree_sum_prefix(adj, nodes);
            lemma_degree_sum_bound(adj.drop_last(), nodes);
        }
    }
}

/// The outgoing edges after one more input edge has been read.
pub proof fn lemma_outgoing_push<W>(edges: Seq<(u64, u64, W)>, edge: (u64, u64, W), u: int)
    ensures
        outgoing(edges.push(edge), u) == if edge.0 == u {
            outgoing(edges, u).push(stored_edge(edge))
        } else {
            outgoing(edges, u)
        },
{
    assert(edges.push(edge).drop_last() =~= edges);
}

/// Every outgoing edge of a node is one of the input edges.
pub proof fn lemma_outgoing_from_input<W>(edges: Seq<(u64, u64, W)>, u: int, j: int)
    requires
        0 <= j < outgoing(edges, u).len(),
    ensures
        exists|i: int|
            0 <= i < edges.len() && (#[trigger] edges[i]).0 == u && outgoing(edges, u)[j]
                == stored_edge(edges[i]),
    decreases edges.len(),
{
    if edges.len() > 0 {
        let last = edges.len() - 1;
        let rest = edges.drop_last();
        if edges.last().0 == u && j == outgoing(rest, u).len() {
            assert(edges[last].0 == u && outgoing(edges, u)[j] == stored_edge(edges[last]));
        } else {
            lemma_outgoing_from_input(rest, u, j);
            let i = choose|i: int|
                0 <= i < rest.len() && (#[trigger] rest[i]).0 == u && outgoing(rest, u)[j]
                    == stored_edge(rest[i]);
            assert(edges[i] == rest[i]);
        }
    }
}

/// Where every input edge leads to one of the `n` nodes, so does every edge
/// of the graph built from them.
pub proof fn lemma_adjacency_targets_in_range<W>(n: nat, edges: Seq<(u64, u64, W)>)
    requires
        forall|i: int| 0 <= i < edges.len() ==> (#[trigger] edges[i]).1 < n,
    ensures
        targets_in_range(adjacency(n, edges)),
{
    let adj = adjacency(n, edges);
    assert forall|u: int, j: int| 0 <= u < adj.len() && 0 <= j < adj[u].len() implies (#[trigger] adj[u][j]).target
        < adj.len() by {
        lemma_outgoing_from_input(edges, u, j);
    }
}

/// Where all edges lead to nodes of the graph, so do the successor lists.
pub proof fn lemma_successors_in_range<W>(adj: Seq<Seq<WeightedEdge<W>>>)
    requires
        targets_in_range(adj),
    ensures
        in_range(successors(adj)),
{
    let succ = successors(adj);
    assert forall|u: int, j: int| 0 <= u < succ.len() && 0 <= j < succ[u].len() implies 0
        <= #[trigger] succ[u][j] < succ.len() by {
        assert(adj[u][j].target < adj.len());
    }
}

/// The targets of the outgoing edges of a node do not depend on the
/// weights of the input edges.
pub proof fn lemma_outgoing_targets<W, V>(
    first: Seq<(u64, u64, W)>,
    second: Seq<(u64, u64, V)>,
    u: int,
)
    requires
        first.len() == second.len(),
        forall|i: int|
            0 <= i < first.len() ==> (#[trigger] first[i]).0 == second[i].0 && first[i].1
                == second[i].1,
    ensures
        outgoing(first, u).len() == outgoing(second, u).len(),
        forall|j: int|
            0 <= j < outgoing(first, u).len() ==> (#[trigger] outgoing(first, u)[j]).target
                == outgoing(second, u)[j].target,
    decreases first.len(),
{
    if first.len() > 0 {
        assert(first.last().0 == second.last().0 && first.last().1 == second.last().1);
        assert forall|i: int| 0 <= i < first.drop_last().len() implies (#[trigger] first.drop_last()[i]).0
            == second.drop_last()[i].0 && first.drop_last()[i].1 == second.drop_last()[i].1 by {
            assert(first.drop_last()[i] == first[i]);
            assert(second.drop_last()[i] == second[i]);
        }
        lemma_outgoing_targets(first.drop_last(), second.drop_last(), u);
    }
}

/// Two edge lists that agree on the sources and targets of their edges, in
/// order, give graphs with the same successor lists, whatever the weights.
pub proof fn lemma_successors_ignore_weights<W, V>(
    n: nat,
    first: Seq<(u64, u64, W)>,
    second: Seq<(u64, u64, V)>,
)
    requires
        first.len() == second.len(),
        forall|i: int|
            0 <= i < first.len() ==> (#[trigger] first[i]).0 == second[i].0 && first[i].1
                == second[i].1,
    ensures
        successors(adjacency(n, first)) == successors(adjacency(n, second)),
{
    let a = successors(adjacency(n, first));
    let b = successors(adjacency(n, second));
    assert forall|u: int| 0 <= u < n implies a[u] == b[u] by {
        lemma_outgoing_targets(first, second, u);
        assert(a[u] =~= b[u]);
    }
    assert(a =~= b);
}

/// A weighted directed graph on the nodes `0..n`, held as one list of
/// outgoing edges per node. It is built once and never changed. Parallel
/// edges are kept, each on its own. The targets of the edges are not
/// looked at when the graph is built; the traversals ask that they are
/// nodes of the graph.
pub struct DAG<W> {
    adj_list: Vec<Vec<WeightedEdge<W>>>,
}

impl<W> View for DAG<W> {
    type V = Seq<Seq<WeightedEdge<W>>>;

    /// The adjacency lists: entry `u` holds the outgoing edges of node `u`
    /// in insertion order.
    closed spec fn view(&self) -> Seq<Seq<WeightedEdge<W>>> {
        rows(self.adj_list@)
    }
}

/// The contents of the lists, list by list.
spec fn rows<W>(lists: Seq<Vec<WeightedEdge<W>>>) -> Seq<Seq<WeightedEdge<W>>> {
    Seq::new(lists.len(), |u: int| lists[u]@)
}

impl<W: Copy> DAG<W> {
    /// Builds the graph on the nodes `0..n_nodes` from `edge_list`, whose
    /// entries are `(source, target, weight)`. Each node's outgoing edges
    /// keep the order of the input.
    pub fn init(n_nodes: &u64, edge_list: &Vec<(u64, u64, W)>) -> (dag: DAG<W>)
        requires
            *n_nodes <= usize::MAX,
            forall|i: int| 0 <= i < edge_list@.len() ==> (#[trigger] edge_list@[i]).0 < *n_nodes,
        ensures
            dag@ == adjacency(*n_nodes as nat, edge_list@),
            (forall|i: int| 0 <= i < edge_list@.len() ==> (#[trigger] edge_list@[i]).1 < *n_nodes)
                ==> targets_in_range(dag@),
    {
        let n: u64 = *n_nodes;
        let mut adj_list: Vec<Vec<WeightedEdge<W>>> = Vec::new();
        let mut k: u64 = 0;
        while k < n
            invariant
                k <= n,
                adj_list@.len() == k,
                forall|u: int| 0 <= u < k ==> (#[trigger] adj_list@[u])@.len() == 0,
            decreases n - k,
        {
            let tmp: Vec<WeightedEdge<W>> = Vec::new();
            adj_list.push(tmp);
            k = k + 1;
        }
        proof {
            lemma_edge_count_empty(rows(adj_list@));
            assert forall|u: int| 0 <= u < n implies (#[trigger] adj_list@[u])@ == outgoing(
                edge_list@.take(0),
                u,
            ) by {
                assert(adj_list@[u]@ =~= outgoing(edge_list@.take(0), u));
            }
        }
        let mut i: usize = 0;
        while i < edge_list.len()
            invariant
                n <= usize::MAX,
                i <= edge_list@.len(),
                adj_list@.len() == n,
                forall|i: int| 0 <= i < edge_list@.len() ==> (#[trigger] edge_list@[i]).0 < n,
                forall|u: int|
                    0 <= u < n ==> (#[trigger] adj_list@[u])@ == outgoing(edge_list@.take(i as int), u),
                edge_count(rows(adj_list@)) == i,
            decreases edge_list@.len() - i,
        {
            let edge = edge_list[i];
            let source: usize = edge.0 as usize;
            let stored = WeightedEdge { target: edge.1, weight: edge.2 };
            let ghost before = rows(adj_list@);
            adj_list[source].push(stored);
            proof {
                let after = rows(adj_list@);
                assert(after =~= before.update(source as int, before[source as int].push(stored)));
                lemma_edge_count_push(before, source as int, stored);
                assert(edge_list@.take(i + 1) =~= edge_list@.take(i as int).push(edge));
                assert forall|u: int| 0 <= u < n implies (#[trigger] adj_list@[u])@ == outgoing(
                    edge_list@.take(i + 1),
                    u,
                ) by {
                    lemma_outgoing_push(edge_list@.take(i as int), edge, u);
                }
            }
            i = i + 1;
        }
        proof {
            assert(edge_list@.take(edge_list@.len() as int) =~= edge_list@);
        }
        let dag = DAG { adj_list };
        proof {
            assert(dag@ =~= adjacency(n as nat, edge_list@));
            if forall|i: int| 0 <= i < edge_list@.len() ==> (#[trigger] edge_list@[i]).1 < n {
                lemma_adjacency_targets_in_range(n as nat, edge_list@);
            }
        }
        dag
    }
}

impl<W> DAG<W> {
    /// The edges of a graph are as many as its edge list held, which a
    /// machine word counts.
    #[verifier::type_invariant]
    pub(crate) open spec fn edges_fit(&self) -> bool {
        edge_count(self@) <= usize::MAX
    }

    /// Whether every edge leads to a node of the graph, which the
    /// traversals of the graph require.
    pub fn has_targets_in_range(&self) -> (ok: bool)
        ensures
            ok == targets_in_range(self@),
    {
        let n = self.adj_list.len();
        let mut u: usize = 0;
        while u < n
            invariant
                n == self.adj_list@.len(),
                u <= n,
                forall|a: int, j: int|
                    0 <= a < u && 0 <= j < self@[a].len() ==> (#[trigger] self@[a][j]).target < n,
            decreases n - u,
        {
            let edges = &self.adj_list[u];
            let mut j: usize = 0;
            while j < edges.len()
                invariant
                    n == self.adj_list@.len(),
                    u < n,
                    edges@ == self@[u as int],
                    j <= edges@.len(),
                    forall|b: int| 0 <= b < j ==> (#[trigger] edges@[b]).target < n,
                decreases edges@.len() - j,
            {
                if edges[j].target >= n as u64 {
                    assert(!((#[trigger] self@[u as int][j as int]).target < self@.len()));
                    return false;
                }
                j = j + 1;
            }
            u = u + 1;
        }
        true
    }

    /// The number of nodes.
    pub fn node_count(&self) -> (n: usize)
        ensures
            n == self@.len(),
    {
        self.adj_list.len()
    }

    /// The outgoing edges of `node`, in insertion order.
    pub fn neighbors(&self, node: u64) -> (edges: &Vec<WeightedEdge<W>>)
        requires
            node < self@.len(),
        ensures
            edges@ == self@[node as int],
    {
        assert(self@.len() == self.adj_list.len());
        &self.adj_list[node as usize]
    }
}

} // verus!
