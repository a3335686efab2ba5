//! The depth-first order in which the nodes of a graph finish, as a
//! mathematical function of the successor lists alone.

use crate::walk::{
    acyclic, in_range, is_edge, lemma_no_edge_back, lemma_reaches_self, lemma_reaches_step, reaches,
};
use vstd::prelude::*;

verus! {

/// How many of the nodes `0..n` are not in `seen`.
pub open spec fn unseen(n: nat, seen: Set<int>) -> nat
    decreases n,
{
    if n == 0 {
        0
    } else {
        unseen((n - 1) as nat, seen) + if seen.contains(n - 1) {
            0nat
        } else {
            1nat
        }
    }
}

/// A larger set leaves no more nodes unseen.
pub proof fn lemma_unseen_monotone(n: nat, small: Set<int>, large: Set<int>)
    requires
        forall|x: int| small.contains(x) ==> large.contains(x),
    ensures
        unseen(n, large) <= unseen(n, small),
    decreases n,
{
    if n > 0 {
        lemma_unseen_monotone((n - 1) as nat, small, large);
    }
}

/// Seeing one more node of the graph leaves one node fewer unseen.
pub proof fn lemma_unseen_insert(n: nat, seen: Set<int>, u: int)
    requires
        0 <= u < n,
        !seen.contains(u),
    ensures
        unseen(n, seen.insert(u)) + 1 == unseen(n, seen),
    decreases n,
{
    if u == n - 1 {
        lemma_unseen_same((n - 1) as nat, seen, seen.insert(u));
    } else {
        lemma_unseen_insert((n - 1) as nat, seen, u);
    }
}

/// Sets that agree on the nodes `0..n` leave the same number unseen.
pub proof fn lemma_unseen_same(n: nat, a: Set<int>, b: Set<int>)
    requires
        forall|x: int| 0 <= x < n ==> (a.contains(x) <==> b.contains(x)),
    ensures
        unseen(n, a) == unseen(n, b),
    decreases n,
{
    if n > 0 {
        lemma_unseen_same((n - 1) as nat, a, b);
    }
}

/// The nodes that a depth-first visit of `u` finishes, in the order in which
/// they finish, when the nodes in `seen` have been entered before. A node is
/// finished after all that its edges lead to; `u` itself comes last.
pub open spec fn dfs_visit(succ: Seq<Seq<int>>, seen: Set<int>, u: int) -> Seq<int>
    decreases unseen(succ.len(), seen), 0nat, 0nat,
{
    if 0 <= u < succ.len() && !seen.contains(u) {
        proof {
            lemma_unseen_insert(succ.len(), seen, u);
        }
        dfs_edges(succ, seen.insert(u), u, 0).push(u)
    } else {
        Seq::empty()
    }
}

/// The nodes finished while the edges of `u` from index `j` on are followed
/// in order, each leading into a visit of its target unless that was seen.
pub open spec fn dfs_edges(succ: Seq<Seq<int>>, seen: Set<int>, u: int, j: int) -> Seq<int>
    decreases unseen(succ.len(), seen), 1nat, succ[u].len() - j,
{
    if 0 <= u < succ.len() && 0 <= j < succ[u].len() {
        let first = dfs_visit(succ, seen, succ[u][j]);
        proof {
            lemma_unseen_monotone(succ.len(), seen, seen.union(first.to_set()));
        }
        first + dfs_edges(succ, seen.union(first.to_set()), u, j + 1)
    } else {
        Seq::empty()
    }
}

/// The nodes finished after the roots `0..k` have been tried in increasing
/// order, each visited unless an earlier visit had reached it.
pub open spec fn dfs_scan(succ: Seq<Seq<int>>, k: nat) -> Seq<int>
    decreases k,
{
    if k == 0 {
        Seq::empty()
    } else {
        let before = dfs_scan(succ, (k - 1) as nat);
        before + dfs_visit(succ, before.to_set(), k - 1)
    }
}

/// The order that the sort returns: the nodes by decreasing finish time.
pub open spec fn topological_order(succ: Seq<Seq<int>>) -> Seq<int> {
    dfs_scan(succ, succ.len()).reverse()
}

/// `found` holds nodes of the graph, none of them twice and none from `seen`.
pub open spec fn fresh(found: Seq<int>, seen: Set<int>, n: int) -> bool {
    &&& found.no_duplicates()
    &&& forall|i: int| 0 <= i < found.len() ==> 0 <= #[trigger] found[i] < n && !seen.contains(found[i])
}

/// A visit finishes only nodes that were not seen before, each once, and
/// finishes its own node last.
pub proof fn lemma_dfs_visit_fresh(succ: Seq<Seq<int>>, seen: Set<int>, u: int)
    ensures
        fresh(dfs_visit(succ, seen, u), seen, succ.len() as int),
        0 <= u < succ.len() && !seen.contains(u) ==> dfs_visit(succ, seen, u).len() > 0
            && dfs_visit(succ, seen, u).last() == u,
    decreases unseen(succ.len(), seen), 0nat, 0nat,
{
    if 0 <= u < succ.len() && !seen.contains(u) {
        lemma_unseen_insert(succ.len(), seen, u);
        lemma_dfs_edges_fresh(succ, seen.insert(u), u, 0);
    }
}

/// Following the edges of a node finishes only nodes that were not seen
/// before, each once.
pub proof fn lemma_dfs_edges_fresh(succ: Seq<Seq<int>>, seen: Set<int>, u: int, j: int)
    ensures
        fresh(dfs_edges(succ, seen, u, j), seen, succ.len() as int),
    decreases unseen(succ.len(), seen), 1nat, succ[u].len() - j,
{
    if 0 <= u < succ.len() && 0 <= j < succ[u].len() {
        let first = dfs_visit(succ, seen, succ[u][j]);
        let seen_after = seen.union(first.to_set());
        let rest = dfs_edges(succ, seen_after, u, j + 1);
        lemma_unseen_monotone(succ.len(), seen, seen_after);
        lemma_dfs_visit_fresh(succ, seen, succ[u][j]);
        lemma_dfs_edges_fresh(succ, seen_after, u, j + 1);
        let all = first + rest;
        assert forall|a: int, b: int| 0 <= a < all.len() && 0 <= b < all.len() && a != b implies all[a]
            != all[b] by {
            if a < first.len() && b >= first.len() {
                assert(first.contains(first[a]));
                assert(!seen_after.contains(rest[b - first.len()]));
            } else if b < first.len() && a >= first.len() {
                assert(first.contains(first[b]));
                assert(!seen_after.contains(rest[a - first.len()]));
            }
        }
        assert forall|i: int| 0 <= i < all.len() implies 0 <= #[trigger] all[i] < succ.len()
            && !seen.contains(all[i]) by {
            if i >= first.len() {
                assert(!seen_after.contains(rest[i - first.len()]));
            }
        }
    }
}

/// `x` stands in `done` before position `i`.
pub open spec fn appears_before(done: Seq<int>, i: int, x: int) -> bool {
    exists|k: int| 0 <= k < i && done[k] == x
}

/// `done` holds nodes of the graph, and whatever an edge of one of them
/// leads to stands before it.
pub open spec fn targets_first(succ: Seq<Seq<int>>, done: Seq<int>) -> bool {
    &&& forall|i: int| 0 <= i < done.len() ==> 0 <= #[trigger] done[i] < succ.len()
    &&& forall|i: int, j: int|
        0 <= i < done.len() && 0 <= j < succ[done[i]].len() ==> appears_before(
            done,
            i,
            #[trigger] succ[done[i]][j],
        )
}

/// In an acyclic graph a visit keeps every finished node behind the targets
/// of its edges, provided that each node entered and not yet finished
/// reaches the node to visit.
pub proof fn lemma_dfs_visit_targets_first(
    succ: Seq<Seq<int>>,
    seen: Set<int>,
    done: Seq<int>,
    u: int,
)
    requires
        in_range(succ),
        acyclic(succ),
        targets_first(succ, done),
        forall|i: int| 0 <= i < done.len() ==> seen.contains(#[trigger] done[i]),
        0 <= u < succ.len(),
        forall|g: int| seen.contains(g) && !done.contains(g) ==> reaches(succ, g, u),
    ensures
        targets_first(succ, done + dfs_visit(succ, seen, u)),
    decreases unseen(succ.len(), seen), 0nat, 0nat,
{
    if !seen.contains(u) {
        let inside = seen.insert(u);
        let found = dfs_edges(succ, inside, u, 0);
        lemma_unseen_insert(succ.len(), seen, u);
        lemma_reaches_self(succ, u);
        assert(!done.contains(u));
        lemma_dfs_edges_targets_first(succ, inside, done, u, 0);
        lemma_dfs_edges_fresh(succ, inside, u, 0);
        let mid = done + found;
        let all = done + found.push(u);
        assert(all =~= mid.push(u));
        assert forall|i: int, j: int| 0 <= i < all.len() && 0 <= j < succ[all[i]].len() implies appears_before(
            all,
            i,
            #[trigger] succ[all[i]][j],
        ) by {
            if i < mid.len() {
                assert(all[i] == mid[i]);
                assert(appears_before(mid, i, succ[mid[i]][j]));
                let k = choose|k: int| 0 <= k < i && mid[k] == succ[mid[i]][j];
                assert(all[k] == mid[k]);
            } else {
                assert(mid.contains(succ[u][j]));
                let k = choose|k: int| 0 <= k < mid.len() && mid[k] == succ[u][j];
                assert(all[k] == mid[k]);
            }
        }
    } else {
        assert(done + dfs_visit(succ, seen, u) =~= done);
    }
}

/// In an acyclic graph, following the edges of an entered node from index
/// `j` on keeps every finished node behind the targets of its edges, and
/// finishes all that the edges of the node lead to.
pub proof fn lemma_dfs_edges_targets_first(
    succ: Seq<Seq<int>>,
    seen: Set<int>,
    done: Seq<int>,
    u: int,
    j: int,
)
    requires
        in_range(succ),
        acyclic(succ),
        targets_first(succ, done),
        forall|i: int| 0 <= i < done.len() ==> seen.contains(#[trigger] done[i]),
        0 <= u < succ.len(),
        seen.contains(u),
        !done.contains(u),
        0 <= j <= succ[u].len(),
        forall|g: int| seen.contains(g) && !done.contains(g) ==> reaches(succ, g, u),
        forall|k: int| 0 <= k < j ==> done.contains(#[trigger] succ[u][k]),
    ensures
        targets_first(succ, done + dfs_edges(succ, seen, u, j)),
        forall|k: int|
            0 <= k < succ[u].len() ==> (done + dfs_edges(succ, seen, u, j)).contains(
                #[trigger] succ[u][k],
            ),
    decreases unseen(succ.len(), seen), 1nat, succ[u].len() - j,
{
    if j < succ[u].len() {
        let v = succ[u][j];
        let first = dfs_visit(succ, seen, v);
        let seen_after = seen.union(first.to_set());
        let rest = dfs_edges(succ, seen_after, u, j + 1);
        let done_after = done + first;
        lemma_unseen_monotone(succ.len(), seen, seen_after);
        lemma_dfs_visit_fresh(succ, seen, v);
        assert(is_edge(succ, (u, j)));
        if seen.contains(v) && !done.contains(v) {
            lemma_no_edge_back(succ, (u, j));
        }
        assert forall|g: int| seen.contains(g) && !done.contains(g) implies reaches(succ, g, v) by {
            lemma_reaches_step(succ, g, u, (u, j));
        }
        lemma_dfs_visit_targets_first(succ, seen, done, v);
        assert(done_after.contains(v)) by {
            if seen.contains(v) {
                let k = choose|k: int| 0 <= k < done.len() && done[k] == v;
                assert(done_after[k] == v);
            } else {
                assert(done_after[done_after.len() - 1] == first.last());
            }
        }
        assert forall|i: int| 0 <= i < done_after.len() implies seen_after.contains(
            #[trigger] done_after[i],
        ) by {
            if i >= done.len() {
                assert(first.contains(first[i - done.len()]));
            }
        }
        assert forall|g: int| seen_after.contains(g) && !done_after.contains(g) implies reaches(
            succ,
            g,
            u,
        ) by {
            if first.to_set().contains(g) {
                let k = choose|k: int| 0 <= k < first.len() && first[k] == g;
                assert(done_after[done.len() + k] == g);
            }
            if done.contains(g) {
                let k = choose|k: int| 0 <= k < done.len() && done[k] == g;
                assert(done_after[k] == g);
            }
        }
        assert(!done_after.contains(u)) by {
            if done_after.contains(u) {
                let k = choose|k: int| 0 <= k < done_after.len() && done_after[k] == u;
                if k < done.len() {
                    assert(done[k] == u);
                } else {
                    assert(first[k - done.len()] == u);
                }
            }
        }
        assert forall|k: int| 0 <= k < j + 1 implies done_after.contains(#[trigger] succ[u][k]) by {
            if k < j {
                let i = choose|i: int| 0 <= i < done.len() && done[i] == succ[u][k];
                assert(done_after[i] == succ[u][k]);
            }
        }
        lemma_dfs_edges_targets_first(succ, seen_after, done_after, u, j + 1);
        assert(done + (first + rest) =~= done_after + rest);
    } else {
        assert(done + dfs_edges(succ, seen, u, j) =~= done);
    }
}

/// After the roots `0..k` have been tried, each of them is finished, no
/// node is finished twice, and in an acyclic graph every finished node
/// stands behind the targets of its edges.
pub proof fn lemma_dfs_scan(succ: Seq<Seq<int>>, k: nat)
    requires
        k <= succ.len(),
    ensures
        fresh(dfs_scan(succ, k), Set::empty(), succ.len() as int),
        forall|u: int| 0 <= u < k ==> dfs_scan(succ, k).contains(u),
        in_range(succ) && acyclic(succ) ==> targets_first(succ, dfs_scan(succ, k)),
    decreases k,
{
    if k > 0 {
        let before = dfs_scan(succ, (k - 1) as nat);
        let seen = before.to_set();
        let found = dfs_visit(succ, seen, k - 1);
        let all = before + found;
        lemma_dfs_scan(succ, (k - 1) as nat);
        lemma_dfs_visit_fresh(succ, seen, k - 1);
        assert forall|a: int, b: int| 0 <= a < all.len() && 0 <= b < all.len() && a != b implies all[a]
            != all[b] by {
            if a < before.len() && b >= before.len() {
                assert(before.contains(before[a]));
                assert(!seen.contains(found[b - before.len()]));
            } else if b < before.len() && a >= before.len() {
                assert(before.contains(before[b]));
                assert(!seen.contains(found[a - before.len()]));
            }
        }
        assert forall|u: int| 0 <= u < k implies all.contains(u) by {
            if u < k - 1 || seen.contains(k - 1) {
                assert(before.contains(u));
                let i = choose|i: int| 0 <= i < before.len() && before[i] == u;
                assert(all[i] == u);
            } else {
                assert(all[all.len() - 1] == found.last());
            }
        }
        if in_range(succ) && acyclic(succ) {
            assert forall|i: int| 0 <= i < before.len() implies seen.contains(#[trigger] before[i]) by {
                assert(before.contains(before[i]));
            }
            lemma_dfs_visit_targets_first(succ, seen, before, k - 1);
        }
    }
}

/// Once every root has been tried, each node is finished exactly once.
pub proof fn lemma_dfs_scan_complete(succ: Seq<Seq<int>>)
    ensures
        dfs_scan(succ, succ.len()).len() == succ.len(),
{
    let n = succ.len();
    let done = dfs_scan(succ, n);
    lemma_dfs_scan(succ, n);
    assert forall|x: int| done.to_set().contains(x) <==> 0 <= x < n by {
        if done.to_set().contains(x) {
            let i = choose|i: int| 0 <= i < done.len() && done[i] == x;
        }
    }
    assert(done.to_set() =~= vstd::set_lib::set_int_range(0, n as int));
    vstd::set_lib::lemma_int_range(0, n as int);
    done.unique_seq_to_set();
}

/// The order holds every node of the graph exactly once.
pub proof fn lemma_topological_order_is_permutation(succ: Seq<Seq<int>>)
    ensures
        topological_order(succ).len() == succ.len(),
        topological_order(succ).no_duplicates(),
        forall|i: int|
            0 <= i < succ.len() ==> 0 <= #[trigger] topological_order(succ)[i] < succ.len(),
        forall|u: int| 0 <= u < succ.len() ==> topological_order(succ).contains(u),
{
    let n = succ.len();
    let done = dfs_scan(succ, n);
    let order = topological_order(succ);
    lemma_dfs_scan(succ, n);
    lemma_dfs_scan_complete(succ);
    assert(order.len() == n);
    assert forall|i: int| 0 <= i < n implies #[trigger] order[i] == done[n - 1 - i] by {}
    assert forall|u: int| 0 <= u < n implies order.contains(u) by {
        assert(done.contains(u));
        let i = choose|i: int| 0 <= i < done.len() && done[i] == u;
        assert(order[n - 1 - i] == u);
    }
}

/// In an acyclic graph every edge leads from an earlier position of the
/// order to a later one.
pub proof fn lemma_topological_order_respects_edges(succ: Seq<Seq<int>>)
    requires
        in_range(succ),
        acyclic(succ),
    ensures
        forall|i: int, j: int, e: int|
            #![trigger topological_order(succ)[j], succ[topological_order(succ)[i]][e]]
            0 <= i < succ.len() && 0 <= j < succ.len() && 0 <= e < succ[topological_order(succ)[i]].len()
                && succ[topological_order(succ)[i]][e] == topological_order(succ)[j] ==> i < j,
{
    let n = succ.len();
    let done = dfs_scan(succ, n);
    let order = topological_order(succ);
    lemma_dfs_scan(succ, n);
    lemma_topological_order_is_permutation(succ);
    assert forall|i: int, j: int, e: int|
        #![trigger order[j], succ[order[i]][e]]
        0 <= i < n && 0 <= j < n && 0 <= e < succ[order[i]].len() && succ[order[i]][e]
            == order[j] implies i < j by {
        let a = n - 1 - i;
        assert(order[i] == done[a]);
        assert(order[j] == done[n - 1 - j]);
        assert(appears_before(done, a, succ[done[a]][e]));
        let k = choose|k: int| 0 <= k < a && done[k] == succ[done[a]][e];
        assert(k == n - 1 - j);
    }
}

} // verus!
