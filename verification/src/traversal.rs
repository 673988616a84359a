//! Breadth-first and depth-first visiting orders, as functions of a graph and
//! a start identifier.

use crate::model::{GraphModel, Id};
use crate::seqs::{
    lemma_concat_contains, lemma_drop_first_contains, lemma_drop_last_contains,
    lemma_push_contains,
};
use vstd::prelude::*;

verus! {

/// Of `neighbors`, those not in `seen`, last first: what a depth-first
/// traversal puts on its stack, so that the first neighbour is taken next.
pub open spec fn fresh_reversed(neighbors: Seq<Id>, seen: Seq<Id>) -> Seq<Id> {
    neighbors.filter(|w: Id| !seen.contains(w)).reverse()
}

impl GraphModel {
    /// The identifiers that a traversal may still visit: the vertices and
    /// what is waiting, less what was seen.
    pub open spec fn unvisited(self, waiting: Seq<Id>, seen: Seq<Id>) -> Set<Id> {
        (self.vertices.to_set() + waiting.to_set()).difference(seen.to_set())
    }

    /// The breadth-first order from a queue of waiting identifiers and the
    /// identifiers visited so far. The head of the queue is taken; if it was
    /// visited already it is dropped, else it is visited and all of its
    /// neighbours join the end of the queue, visited or not.
    pub open spec fn bfs_run(self, queue: Seq<Id>, out: Seq<Id>) -> Seq<Id>
        decreases self.unvisited(queue, out).len(), queue.len(),
        when self.wf()
        via Self::bfs_run_decreases
    {
        if queue.len() == 0 {
            out
        } else if out.contains(queue.first()) {
            self.bfs_run(queue.drop_first(), out)
        } else {
            self.bfs_run(
                queue.drop_first() + self.neighbors(queue.first()),
                out.push(queue.first()),
            )
        }
    }

    /// The depth-first order from a stack of waiting identifiers and the
    /// identifiers visited so far. The top of the stack is taken; if it was
    /// visited already it is dropped, else it is visited and its neighbours
    /// that are not visited yet go on the stack, last first.
    pub open spec fn dfs_run(self, stack: Seq<Id>, out: Seq<Id>) -> Seq<Id>
        decreases self.unvisited(stack, out).len(), stack.len(),
        when self.wf()
        via Self::dfs_run_decreases
    {
        if stack.len() == 0 {
            out
        } else if out.contains(stack.last()) {
            self.dfs_run(stack.drop_last(), out)
        } else {
            self.dfs_run(
                stack.drop_last() + fresh_reversed(
                    self.neighbors(stack.last()),
                    out.push(stack.last()),
                ),
                out.push(stack.last()),
            )
        }
    }

    /// The vertices reachable from `start` in breadth-first order: by
    /// distance from `start`, ties in the order of the adjacency lists.
    pub open spec fn bfs(self, start: Id) -> Seq<Id> {
        self.bfs_run(seq![start], Seq::empty())
    }

    /// The vertices reachable from `start` in depth-first pre-order, the
    /// neighbours of each vertex taken in the order of its adjacency list.
    pub open spec fn dfs(self, start: Id) -> Seq<Id> {
        self.dfs_run(seq![start], Seq::empty())
    }

    #[via_fn]
    proof fn bfs_run_decreases(self, queue: Seq<Id>, out: Seq<Id>) {
        if queue.len() != 0 {
            let node = queue.first();
            let rest = queue.drop_first();
            lemma_drop_first_contains(queue);
            if out.contains(node) {
                self.lemma_drop_keeps_unvisited(queue, out, rest);
            } else {
                lemma_concat_contains(rest, self.neighbors(node));
                self.lemma_visit_shrinks_unvisited(queue, out, node, rest + self.neighbors(node));
            }
        }
    }

    #[via_fn]
    proof fn dfs_run_decreases(self, stack: Seq<Id>, out: Seq<Id>) {
        if stack.len() != 0 {
            let node = stack.last();
            let rest = stack.drop_last();
            lemma_drop_last_contains(stack);
            if out.contains(node) {
                self.lemma_drop_keeps_unvisited(stack, out, rest);
            } else {
                let seen = out.push(node);
                lemma_fresh_reversed_contains(self.neighbors(node), seen);
                lemma_concat_contains(rest, fresh_reversed(self.neighbors(node), seen));
                self.lemma_visit_shrinks_unvisited(
                    stack,
                    out,
                    node,
                    rest + fresh_reversed(self.neighbors(node), seen),
                );
            }
        }
    }

    /// Dropping from the waiting identifiers one that was seen already
    /// leaves the unvisited ones as they were.
    pub proof fn lemma_drop_keeps_unvisited(self, waiting: Seq<Id>, seen: Seq<Id>, rest: Seq<Id>)
        requires
            forall|x: Id| rest.contains(x) ==> waiting.contains(x),
            forall|x: Id| waiting.contains(x) ==> rest.contains(x) || seen.contains(x),
        ensures
            self.unvisited(rest, seen) == self.unvisited(waiting, seen),
    {
        assert(self.unvisited(rest, seen) =~= self.unvisited(waiting, seen));
    }

    /// Visiting a waiting identifier that was not seen before, and letting
    /// only vertices join those that wait, leaves fewer unvisited.
    pub proof fn lemma_visit_shrinks_unvisited(
        self,
        waiting: Seq<Id>,
        seen: Seq<Id>,
        node: Id,
        next: Seq<Id>,
    )
        requires
            waiting.contains(node),
            !seen.contains(node),
            forall|x: Id| next.contains(x) ==> waiting.contains(x) || self.vertices.contains(x),
        ensures
            self.unvisited(next, seen.push(node)).len() < self.unvisited(waiting, seen).len(),
    {
        let before = self.unvisited(waiting, seen);
        let after = self.unvisited(next, seen.push(node));
        vstd::seq_lib::seq_to_set_is_finite(self.vertices);
        vstd::seq_lib::seq_to_set_is_finite(waiting);
        assert(before.finite());
        assert(before.contains(node));
        assert(seen.push(node)[seen.len() as int] == node);
        assert forall|x: Id| after.contains(x) implies before.remove(node).contains(x) by {
            lemma_push_contains(seen, node, x);
        }
        vstd::set_lib::lemma_len_subset(after, before.remove(node));
    }
}

/// What `fresh_reversed` holds: the neighbours that were not seen.
pub proof fn lemma_fresh_reversed_contains(neighbors: Seq<Id>, seen: Seq<Id>)
    ensures
        forall|x: Id| #[trigger]
            fresh_reversed(neighbors, seen).contains(x) <==> neighbors.contains(x)
                && !seen.contains(x),
{
    let pred = |w: Id| !seen.contains(w);
    let kept = neighbors.filter(pred);
    let rev = kept.reverse();
    assert forall|x: Id| kept.contains(x) <==> neighbors.contains(x) && !seen.contains(x) by {
        if kept.contains(x) {
            let i = choose|i: int| 0 <= i < kept.len() && kept[i] == x;
            neighbors.lemma_filter_pred(pred, i);
            neighbors.lemma_filter_contains_rev(pred, x);
        }
        if neighbors.contains(x) && !seen.contains(x) {
            let j = choose|j: int| 0 <= j < neighbors.len() && neighbors[j] == x;
            neighbors.lemma_filter_contains(pred, j);
        }
    }
    assert forall|x: Id| #[trigger] rev.contains(x) <==> kept.contains(x) by {
        if rev.contains(x) {
            let i = choose|i: int| 0 <= i < rev.len() && rev[i] == x;
            assert(kept[kept.len() - 1 - i] == x);
        }
        if kept.contains(x) {
            let i = choose|i: int| 0 <= i < kept.len() && kept[i] == x;
            assert(rev[kept.len() - 1 - i] == x);
        }
    }
}

/// How `fresh_reversed` grows when one more neighbour is put in front: that
/// neighbour comes last, if it was not seen.
pub proof fn lemma_fresh_reversed_step(neighbors: Seq<Id>, seen: Seq<Id>, k: int)
    requires
        0 <= k < neighbors.len(),
    ensures
        fresh_reversed(neighbors.skip(k), seen) == fresh_reversed(neighbors.skip(k + 1), seen) + (
        if seen.contains(neighbors[k]) {
            Seq::<Id>::empty()
        } else {
            seq![neighbors[k]]
        }),
{
    let pred = |w: Id| !seen.contains(w);
    let tail = neighbors.skip(k + 1);
    let head = if pred(neighbors[k]) {
        seq![neighbors[k]]
    } else {
        Seq::<Id>::empty()
    };
    assert(neighbors.skip(k) =~= seq![neighbors[k]] + tail);
    tail.lemma_filter_prepend(neighbors[k], pred);
    let kept = tail.filter(pred);
    assert((head + kept).reverse() =~= kept.reverse() + head);
}

/// Nothing is fresh among no neighbours.
pub proof fn lemma_fresh_reversed_empty(seen: Seq<Id>)
    ensures
        fresh_reversed(Seq::<Id>::empty(), seen) == Seq::<Id>::empty(),
{
    let pred = |w: Id| !seen.contains(w);
    Seq::<Id>::empty().lemma_filter_len(pred);
    assert(fresh_reversed(Seq::<Id>::empty(), seen) =~= Seq::<Id>::empty());
}

} // verus!
