//! Topological sorting by depth-first search.

use crate::graph::{
    adjacency, lemma_successors_ignore_weights, lemma_successors_in_range, successors,
    targets_in_range, WeightedEdge, DAG,
};
use crate::order::{
    dfs_edges, dfs_scan, dfs_visit, lemma_dfs_scan_complete,
    lemma_topological_order_is_permutation, lemma_topological_order_respects_edges,
    lemma_unseen_insert, topological_order, unseen,
};
use crate::walk::acyclic;
use vstd::prelude::*;

verus! {

/// The marking of a node during the search: not yet entered, entered and
/// still open, or finished.
enum NodeColor {
    White,
    Gray,
    Black,
}

/// The nodes that the search has entered so far.
spec fn entered(colors: Seq<NodeColor>) -> Set<int> {
    Set::new(|i: int| 0 <= i < colors.len() && !(colors[i] is White))
}

/// Node indices as mathematical integers.
pub open spec fn node_ids(nodes: Seq<u64>) -> Seq<int> {
    Seq::new(nodes.len(), |i: int| nodes[i] as int)
}

/// The order of the sort is a function of the node count and of the
/// sources and targets of the edges in input order: two edge lists that
/// agree on these, whatever their weights, are sorted alike, and so is one
/// edge list sorted twice.
pub proof fn lemma_order_ignores_weights<W, V>(
    n: nat,
    first: Seq<(u64, u64, W)>,
    second: Seq<(u64, u64, V)>,
    first_order: Seq<u64>,
    second_order: Seq<u64>,
)
    requires
        first.len() == second.len(),
        forall|i: int|
            0 <= i < first.len() ==> (#[trigger] first[i]).0 == second[i].0 && first[i].1
                == second[i].1,
        node_ids(first_order) == topological_order(successors(adjacency(n, first))),
        node_ids(second_order) == topological_order(successors(adjacency(n, second))),
    ensures
        first_order == second_order,
{
    lemma_successors_ignore_weights(n, first, second);
    assert(first_order.len() == node_ids(first_order).len());
    assert(second_order.len() == node_ids(second_order).len());
    assert forall|i: int| 0 <= i < first_order.len() implies first_order[i] == second_order[i] by {
        assert(node_ids(first_order)[i] == node_ids(second_order)[i]);
    }
    assert(first_order =~= second_order);
}

/// `order` lists every node of the graph exactly once.
pub open spec fn is_permutation(order: Seq<u64>, n: nat) -> bool {
    &&& order.len() == n
    &&& order.no_duplicates()
    &&& forall|i: int| 0 <= i < order.len() ==> #[trigger] order[i] < n
}

/// Every edge of the graph leads from an earlier position of `order` to a
/// later one.
pub open spec fn respects_edges<W>(adj: Seq<Seq<WeightedEdge<W>>>, order: Seq<u64>) -> bool {
    forall|i: int, j: int, e: int|
        #![trigger order[j], adj[order[i] as int][e]]
        0 <= i < order.len() && 0 <= j < order.len() && 0 <= e < adj[order[i] as int].len()
            && adj[order[i] as int][e].target == order[j] ==> i < j
}

impl<W> DAG<W> {
    /// Returns the nodes in the order in which a depth-first search that
    /// tries the roots `0, 1, ..` in turn and follows each node's edges in
    /// insertion order finishes them, last finished first. The order holds
    /// every node once; in an acyclic graph it is topological: each edge
    /// leads from an earlier position to a later one. It depends on the
    /// successor lists only, not on the weights.
    pub fn topological_sort(&self) -> (order: Vec<u64>)
        requires
            targets_in_range(self@),
        ensures
            node_ids(order@) == topological_order(successors(self@)),
            is_permutation(order@, self@.len()),
            acyclic(successors(self@)) ==> respects_edges(self@, order@),
    {
        let ghost succ = successors(self@);
        let n = self.node_count();
        let mut t_sort: Vec<u64> = Vec::new();
        let mut colors: Vec<NodeColor> = Vec::new();
        let mut k: usize = 0;
        while k < n
            invariant
                k <= n,
                colors@.len() == k,
                forall|i: int| 0 <= i < k ==> #[trigger] colors@[i] is White,
            decreases n - k,
        {
            colors.push(NodeColor::White);
            k = k + 1;
        }
        let mut finished: Vec<u64> = Vec::new();
        proof {
            assert(node_ids(finished@) =~= dfs_scan(succ, 0));
            assert(entered(colors@) =~= node_ids(finished@).to_set());
        }
        let mut x: usize = 0;
        while x < n
            invariant
                targets_in_range(self@),
                succ == successors(self@),
                n == self@.len(),
                x <= n,
                colors@.len() == n,
                node_ids(finished@) == dfs_scan(succ, x as nat),
                entered(colors@) == node_ids(finished@).to_set(),
            decreases n - x,
        {
            let ghost ids_now = node_ids(finished@);
            let ghost seen_now = entered(colors@);
            let ghost found = dfs_visit(succ, seen_now, x as int);
            match colors[x] {
                NodeColor::White => {
                    self.topological_dfs_visit(&mut finished, &mut colors, x);
                },
                _ => {
                    proof {
                        assert(seen_now.contains(x as int));
                        assert(node_ids(finished@) =~= ids_now + found);
                        assert(found.to_set() =~= Set::empty());
                        assert(seen_now.union(found.to_set()) =~= seen_now);
                    }
                },
            }
            proof {
                vstd::seq_lib::seq_to_set_distributes_over_add(ids_now, found);
                assert(entered(colors@) =~= node_ids(finished@).to_set());
            }
            x = x + 1;
        }
        proof {
            lemma_dfs_scan_complete(succ);
        }
        let mut i: usize = finished.len();
        while i > 0
            invariant
                i <= finished@.len(),
                t_sort@.len() == finished@.len() - i,
                forall|k: int|
                    0 <= k < t_sort@.len() ==> #[trigger] t_sort@[k] == finished@[finished@.len() - 1 - k],
            decreases i,
        {
            i = i - 1;
            t_sort.push(finished[i]);
        }
        proof {
            let ids = node_ids(t_sort@);
            let order = topological_order(succ);
            assert(node_ids(finished@).len() == n);
            assert(ids =~= order);
            lemma_topological_order_is_permutation(succ);
            assert(is_permutation(t_sort@, self@.len())) by {
                assert forall|a: int, b: int|
                    0 <= a < t_sort@.len() && 0 <= b < t_sort@.len() && a != b implies t_sort@[a]
                    != t_sort@[b] by {
                    assert(ids[a] != ids[b]);
                }
                assert forall|a: int| 0 <= a < t_sort@.len() implies #[trigger] t_sort@[a] < n by {
                    assert(0 <= order[a] < n);
                    assert(ids[a] == t_sort@[a]);
                }
            }
            if acyclic(succ) {
                lemma_successors_in_range(self@);
                lemma_topological_order_respects_edges(succ);
                assert forall|i: int, j: int, e: int|
                    #![trigger t_sort@[j], self@[t_sort@[i] as int][e]]
                    0 <= i < n && 0 <= j < n && 0 <= e < self@[t_sort@[i] as int].len()
                        && self@[t_sort@[i] as int][e].target == t_sort@[j] implies i < j by {
                    assert(ids[i] == order[i] && ids[j] == order[j]);
                    assert(succ[order[i]][e] == order[j]);
                }
            }
        }
        t_sort
    }

    /// Visits `node` depth first: enters it, visits in edge order every
    /// target that has not been entered, and then appends `node` to
    /// `finished`. A node is gray from when it is entered until it is
    /// finished, and black from then on; when the visit returns, the nodes
    /// it finished are black and every other node has the colour it had.
    /// The nodes that are open are kept on a work stack, each with the
    /// index of its next edge, so that a long chain of nodes costs no call
    /// depth.
    fn topological_dfs_visit(
        &self,
        finished: &mut Vec<u64>,
        colors: &mut Vec<NodeColor>,
        node: usize,
    )
        requires
            targets_in_range(self@),
            old(colors)@.len() == self@.len(),
            node < self@.len(),
            old(colors)@[node as int] is White,
        ensures
            final(colors)@.len() == old(colors)@.len(),
            node_ids(final(finished)@) == node_ids(old(finished)@) + dfs_visit(
                successors(self@),
                entered(old(colors)@),
                node as int,
            ),
            entered(final(colors)@) == entered(old(colors)@).union(
                dfs_visit(successors(self@), entered(old(colors)@), node as int).to_set(),
            ),
            forall|i: int|
                0 <= i < old(colors)@.len() ==> (#[trigger] final(colors)@[i] is Black <==> old(
                    colors,
                )@[i] is Black || dfs_visit(
                    successors(self@),
                    entered(old(colors)@),
                    node as int,
                ).contains(i)),
            forall|i: int|
                0 <= i < old(colors)@.len() ==> (#[trigger] final(colors)@[i] is Gray <==> old(
                    colors,
                )@[i] is Gray),
    {
        let ghost succ = successors(self@);
        let ghost colors_before = colors@;
        let ghost seen_before = entered(colors@);
        let ghost finished_before = node_ids(finished@);
        let ghost goal = dfs_visit(succ, seen_before, node as int);
        let ghost found: Seq<int> = Seq::empty();
        let mut stack: Vec<(usize, usize)> = Vec::new();
        colors[node] = NodeColor::Gray;
        stack.push((node, 0));
        proof {
            let seen = entered(colors@);
            assert(seen =~= seen_before.insert(node as int));
            assert(frames(stack@) =~= Seq::<(int, int)>::empty().push((node as int, 0)));
            lemma_resume_push(succ, seen, Seq::empty(), (node as int, 0));
            let inner = dfs_edges(succ, seen, node as int, 0).push(node as int);
            assert(dfs_resume(succ, seen.union(inner.to_set()), Seq::empty()) =~= Seq::<int>::empty());
            assert(found + dfs_resume(succ, seen, frames(stack@)) =~= goal);
            assert(seen =~= seen_before.union(found.to_set()).union(frame_nodes(frames(stack@)))) by {
                assert(frames(stack@)[0].0 == node);
            }
            lemma_frame_nodes_push(Seq::empty(), (node as int, 0));
            assert(frame_nodes(Seq::empty()) =~= Set::empty());
        }
        while stack.len() > 0
            invariant
                targets_in_range(self@),
                succ == successors(self@),
                colors@.len() == self@.len(),
                colors_before.len() == self@.len(),
                marked(colors_before, colors@, found, frame_nodes(frames(stack@))),
                forall|i: int|
                    0 <= i < stack@.len() ==> colors_before[(#[trigger] stack@[i]).0 as int] is White,
                forall|i: int, k: int|
                    0 <= i < stack@.len() && 0 <= k < stack@.len() && i != k ==> (#[trigger] stack@[i]).0
                        != (#[trigger] stack@[k]).0,
                node_ids(finished@) == finished_before + found,
                found + dfs_resume(succ, entered(colors@), frames(stack@)) == goal,
                entered(colors@) == seen_before.union(found.to_set()).union(
                    frame_nodes(frames(stack@)),
                ),
                forall|i: int|
                    0 <= i < stack@.len() ==> (#[trigger] stack@[i]).0 < self@.len() && stack@[i].1
                        <= self@[stack@[i].0 as int].len(),
            decreases unseen(self@.len(), entered(colors@)), pending(succ, frames(stack@)),
        {
            let top = stack.len() - 1;
            let (u, j) = stack[top];
            let edges = self.neighbors(u as u64);
            let ghost seen = entered(colors@);
            let ghost below = frames(stack@).drop_last();
            proof {
                assert(frames(stack@) =~= below.push((u as int, j as int)));
                lemma_resume_push(succ, seen, below, (u as int, j as int));
                lemma_pending_push(succ, below, (u as int, j as int));
                assert(seen.contains(u as int)) by {
                    assert(frames(stack@)[top as int].0 == u);
                }
            }
            if j < edges.len() {
                assert(self@[u as int][j as int].target < colors.len());
                let next = edges[j].target as usize;
                let ghost stack_before = stack@;
                stack[top] = (u, j + 1);
                let ghost first = dfs_visit(succ, seen, next as int);
                let ghost seen_after = seen.union(first.to_set());
                let ghost rest = dfs_edges(succ, seen_after, u as int, j + 1);
                proof {
                    assert(succ[u as int][j as int] == next);
                    assert(dfs_edges(succ, seen, u as int, j as int) == first + rest);
                    assert(frames(stack@) =~= below.push((u as int, j + 1)));
                    lemma_pending_push(succ, below, (u as int, j + 1));
                    lemma_frame_nodes_push(below, (u as int, j + 1));
                    lemma_frame_nodes_push(below, (u as int, j as int));
                    assert forall|i: int| 0 <= i < stack@.len() implies (#[trigger] stack@[i]).0
                        == stack_before[i].0 by {}
                }
                let ghost stack_moved = stack@;
                let ghost colors_now = colors@;
                match colors[next] {
                    NodeColor::White => {
                        colors[next] = NodeColor::Gray;
                        stack.push((next, 0));
                        proof {
                            assert(!frame_nodes(frames(stack_moved)).contains(next as int));
                            assert forall|i: int| 0 <= i < stack_moved.len() implies (#[trigger] stack_moved[i]).0
                                != next by {
                                if stack_moved[i].0 == next {
                                    assert(frames(stack_moved)[i].0 == next);
                                }
                            }
                            assert forall|i: int| 0 <= i < stack@.len() implies colors_before[(#[trigger] stack@[i]).0 as int] is White by {
                                if i < stack_moved.len() {
                                    assert(stack@[i] == stack_moved[i]);
                                }
                            }
                            assert forall|i: int, k: int|
                                0 <= i < stack@.len() && 0 <= k < stack@.len() && i != k implies (#[trigger] stack@[i]).0
                                != (#[trigger] stack@[k]).0 by {
                                if i < stack_moved.len() {
                                    assert(stack@[i] == stack_moved[i]);
                                }
                                if k < stack_moved.len() {
                                    assert(stack@[k] == stack_moved[k]);
                                }
                            }
                            let seen_inside = seen.insert(next as int);
                            let inner = dfs_edges(succ, seen_inside, next as int, 0);
                            let middle = below.push((u as int, j + 1));
                            assert(entered(colors@) =~= seen_inside);
                            assert(first == inner.push(next as int));
                            assert(frames(stack@) =~= middle.push((next as int, 0)));
                            lemma_resume_push(succ, seen_inside, middle, (next as int, 0));
                            inner.lemma_push_to_set_commute(next as int);
                            assert(seen_inside.union(first.to_set()) =~= seen_after);
                            lemma_resume_push(succ, seen_after, below, (u as int, j + 1));
                            let whole = (first + rest).push(u as int);
                            assert(whole =~= first + rest.push(u as int));
                            vstd::seq_lib::seq_to_set_distributes_over_add(first, rest.push(u as int));
                            assert(seen_after.union(rest.push(u as int).to_set()) =~= seen.union(
                                whole.to_set(),
                            ));
                            let tail = dfs_resume(succ, seen.union(whole.to_set()), below);
                            assert(found + (whole + tail) =~= found + (first + (rest.push(u as int)
                                + tail)));
                            lemma_unseen_insert(self@.len(), seen, next as int);
                            assert(frame_nodes(frames(stack@)) =~= frame_nodes(
                                below.push((u as int, j as int)),
                            ).insert(next as int)) by {
                                lemma_frame_nodes_push(middle, (next as int, 0));
                                lemma_frame_nodes_push(below, (u as int, j + 1));
                                lemma_frame_nodes_push(below, (u as int, j as int));
                            }
                            assert forall|i: int| 0 <= i < colors@.len() && i != next implies colors@[i]
                                == colors_now[i] by {}
                        }
                    },
                    _ => {
                        proof {
                            assert(seen.contains(next as int));
                            assert(first =~= Seq::empty());
                            assert(first.to_set() =~= Set::empty());
                            assert(seen_after =~= seen);
                            assert(first + rest =~= rest);
                            lemma_resume_push(succ, seen, below, (u as int, j + 1));
                        }
                    },
                }
            } else {
                let ghost ids_now = node_ids(finished@);
                let ghost stack_before = stack@;
                let ghost colors_now = colors@;
                colors[u] = NodeColor::Black;
                finished.push(u as u64);
                stack.pop();
                proof {
                    assert forall|i: int| 0 <= i < stack@.len() implies #[trigger] stack@[i]
                        == stack_before[i] by {}
                    assert(!frame_nodes(below).contains(u as int)) by {
                        if frame_nodes(below).contains(u as int) {
                            let i = choose|i: int| 0 <= i < below.len() && (#[trigger] below[i]).0 == u;
                            assert(stack_before[i].0 == stack_before[top as int].0);
                        }
                    }
                    assert(colors_before[stack_before[top as int].0 as int] is White);
                    assert forall|i: int| 0 <= i < colors@.len() && i != u implies colors@[i]
                        == colors_now[i] by {}
                    assert forall|i: int| found.push(u as int).contains(i) <==> found.contains(i)
                        || i == u by {
                        if found.contains(i) {
                            let k = choose|k: int| 0 <= k < found.len() && found[k] == i;
                            assert(found.push(u as int)[k] == i);
                        }
                        if i == u {
                            assert(found.push(u as int)[found.len() as int] == i);
                        }
                        if found.push(u as int).contains(i) {
                            let k = choose|k: int|
                                0 <= k < found.push(u as int).len() && found.push(u as int)[k] == i;
                            if k < found.len() {
                                assert(found[k] == i);
                            }
                        }
                    }
                    let last = Seq::<int>::empty().push(u as int);
                    assert(dfs_edges(succ, seen, u as int, j as int) =~= Seq::empty());
                    assert(dfs_edges(succ, seen, u as int, j as int).push(u as int) =~= last);
                    assert(last.to_set() =~= Set::empty().insert(u as int)) by {
                        Seq::<int>::empty().lemma_push_to_set_commute(u as int);
                        assert(Seq::<int>::empty().to_set() =~= Set::empty());
                    }
                    assert(seen.union(last.to_set()) =~= seen);
                    assert(entered(colors@) =~= seen);
                    assert(frames(stack@) =~= below);
                    assert(node_ids(finished@) =~= ids_now.push(u as int));
                    let tail = dfs_resume(succ, seen, below);
                    assert(found.push(u as int) + tail =~= found + (last + tail));
                    assert(finished_before + found.push(u as int) =~= (finished_before + found).push(
                        u as int,
                    ));
                    found.lemma_push_to_set_commute(u as int);
                    lemma_frame_nodes_push(below, (u as int, j as int));
                    assert(seen =~= seen_before.union(found.push(u as int).to_set()).union(
                        frame_nodes(below),
                    ));
                    found = found.push(u as int);
                }
            }
        }
        proof {
            assert(frames(stack@) =~= Seq::<(int, int)>::empty());
            assert(found + Seq::<int>::empty() =~= found);
            assert(frame_nodes(frames(stack@)) =~= Set::empty());
            assert(entered(colors@) =~= seen_before.union(goal.to_set()));
            assert(found == goal);
        }
    }
}

/// How the colours stand during a visit that has finished `found` and has
/// `open` on its work stack: a node is black where it was black before or
/// is finished, and gray where it was gray before or is open.
spec fn marked(before: Seq<NodeColor>, now: Seq<NodeColor>, found: Seq<int>, open: Set<int>) -> bool {
    &&& now.len() == before.len()
    &&& forall|i: int|
        0 <= i < now.len() ==> (#[trigger] now[i] is Black <==> before[i] is Black || found.contains(i))
    &&& forall|i: int|
        0 <= i < now.len() ==> (#[trigger] now[i] is Gray <==> before[i] is Gray || open.contains(i))
}

/// The work stack as mathematical pairs of a node and the index of the next
/// edge to follow from it, the innermost node last.
spec fn frames(stack: Seq<(usize, usize)>) -> Seq<(int, int)> {
    Seq::new(stack.len(), |i: int| (stack[i].0 as int, stack[i].1 as int))
}

/// The nodes that are on the work stack.
spec fn frame_nodes(frames: Seq<(int, int)>) -> Set<int> {
    Set::new(|u: int| exists|i: int| 0 <= i < frames.len() && (#[trigger] frames[i]).0 == u)
}

/// The nodes that the search still finishes from a given work stack, in
/// finishing order: the rest of the innermost node's edges and that node,
/// then the same for each node below it.
spec fn dfs_resume(succ: Seq<Seq<int>>, seen: Set<int>, frames: Seq<(int, int)>) -> Seq<int>
    decreases frames.len(),
{
    if frames.len() == 0 {
        Seq::empty()
    } else {
        let top = frames.last();
        let found = dfs_edges(succ, seen, top.0, top.1).push(top.0);
        found + dfs_resume(succ, seen.union(found.to_set()), frames.drop_last())
    }
}

/// The steps that the work stack still owes without entering a new node:
/// for each node on it, one for each edge not yet followed and one to
/// finish it.
spec fn pending(succ: Seq<Seq<int>>, frames: Seq<(int, int)>) -> nat
    decreases frames.len(),
{
    if frames.len() == 0 {
        0
    } else {
        let top = frames.last();
        pending(succ, frames.drop_last()) + if top.1 <= succ[top.0].len() {
            (succ[top.0].len() - top.1 + 1) as nat
        } else {
            1nat
        }
    }
}

proof fn lemma_resume_push(succ: Seq<Seq<int>>, seen: Set<int>, below: Seq<(int, int)>, top: (int, int))
    ensures
        dfs_resume(succ, seen, below.push(top)) == dfs_edges(succ, seen, top.0, top.1).push(top.0)
            + dfs_resume(
            succ,
            seen.union(dfs_edges(succ, seen, top.0, top.1).push(top.0).to_set()),
            below,
        ),
{
    assert(below.push(top).drop_last() =~= below);
}

proof fn lemma_pending_push(succ: Seq<Seq<int>>, below: Seq<(int, int)>, top: (int, int))
    ensures
        pending(succ, below.push(top)) == pending(succ, below) + if top.1 <= succ[top.0].len() {
            (succ[top.0].len() - top.1 + 1) as nat
        } else {
            1nat
        },
{
    assert(below.push(top).drop_last() =~= below);
}

proof fn lemma_frame_nodes_push(below: Seq<(int, int)>, top: (int, int))
    ensures
        frame_nodes(below.push(top)) == frame_nodes(below).insert(top.0),
{
    let longer = below.push(top);
    assert forall|u: int| frame_nodes(longer).contains(u) <==> frame_nodes(below).insert(
        top.0,
    ).contains(u) by {
        if frame_nodes(longer).contains(u) {
            let i = choose|i: int| 0 <= i < longer.len() && (#[trigger] longer[i]).0 == u;
            if i < below.len() {
                assert(below[i].0 == u);
            }
        }
        if frame_nodes(below).contains(u) {
            let i = choose|i: int| 0 <= i < below.len() && (#[trigger] below[i]).0 == u;
            assert(longer[i].0 == u);
        }
        if u == top.0 {
            assert(longer[below.len() as int].0 == u);
        }
    }
    assert(frame_nodes(longer) =~= frame_nodes(below).insert(top.0));
}

} // verus!
