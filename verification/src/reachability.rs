//! What the traversals visit: every vertex that can be reached from the
//! start, each exactly once.

use crate::model::{GraphModel, Id};
use crate::seqs::{
    lemma_concat_contains, lemma_drop_first_contains, lemma_drop_last_contains,
    lemma_push_contains,
};
use crate::traversal::{fresh_reversed, lemma_fresh_reversed_contains};
use vstd::prelude::*;

verus! {

impl GraphModel {
    /// Whether `p` is a walk along edges: it is not empty, and each of its
    /// identifiers but the first is a neighbour of the one before it.
    pub open spec fn is_path(self, p: Seq<Id>) -> bool {
        &&& p.len() > 0
        &&& forall|i: int| 0 < i < p.len() ==> self.neighbors(p[i - 1]).contains(#[trigger] p[i])
    }

    /// Whether `v` can be reached from `start` by following edges any number
    /// of times; `start` itself can be, by following none.
    pub open spec fn reachable(self, start: Id, v: Id) -> bool {
        exists|p: Seq<Id>| #[trigger] self.is_path(p) && p.first() == start && p.last() == v
    }

    /// The identifiers that can be reached from `start`.
    pub open spec fn reachable_set(self, start: Id) -> Set<Id> {
        Set::new(|v: Id| self.reachable(start, v))
    }

    /// What holds at every step of a traversal from `start`: nothing was
    /// visited twice, whatever was visited or waits can be reached, the start
    /// was visited or waits, and every neighbour of a visited identifier was
    /// visited or waits.
    pub open spec fn explored(self, start: Id, waiting: Seq<Id>, seen: Seq<Id>) -> bool {
        &&& seen.no_duplicates()
        &&& forall|v: Id| #[trigger] seen.contains(v) ==> self.reachable(start, v)
        &&& forall|v: Id| #[trigger] waiting.contains(v) ==> self.reachable(start, v)
        &&& seen.contains(start) || waiting.contains(start)
        &&& forall|u: Id, w: Id|
            seen.contains(u) && #[trigger] self.neighbors(u).contains(w) ==> seen.contains(w)
                || waiting.contains(w)
    }

    /// Every identifier can be reached from itself.
    pub proof fn lemma_reachable_self(self, start: Id)
        ensures
            self.reachable(start, start),
    {
        let p = seq![start];
        assert(self.is_path(p) && p.first() == start && p.last() == start);
    }

    /// A neighbour of what can be reached can be reached.
    pub proof fn lemma_reachable_step(self, start: Id, u: Id, w: Id)
        requires
            self.reachable(start, u),
            self.neighbors(u).contains(w),
        ensures
            self.reachable(start, w),
    {
        let p = choose|p: Seq<Id>| #[trigger] self.is_path(p) && p.first() == start && p.last() == u;
        let q = p.push(w);
        assert forall|i: int| 0 < i < q.len() implies self.neighbors(q[i - 1]).contains(
            #[trigger] q[i],
        ) by {
            if i < p.len() {
                assert(self.neighbors(p[i - 1]).contains(p[i]));
            }
        }
        assert(self.is_path(q) && q.first() == start && q.last() == w);
    }

    /// Visiting `node` and letting `next` wait in place of `waiting` keeps a
    /// traversal in order, where `next` holds all of `waiting` but `node` and
    /// otherwise only neighbours of `node`, among them each that was not seen.
    proof fn lemma_visit_explores(
        self,
        start: Id,
        waiting: Seq<Id>,
        seen: Seq<Id>,
        node: Id,
        next: Seq<Id>,
    )
        requires
            self.explored(start, waiting, seen),
            waiting.contains(node),
            !seen.contains(node),
            forall|x: Id| waiting.contains(x) ==> x == node || next.contains(x),
            forall|x: Id|
                next.contains(x) ==> waiting.contains(x) || self.neighbors(node).contains(x),
            forall|x: Id|
                self.neighbors(node).contains(x) ==> x == node || seen.contains(x) || next.contains(
                    x,
                ),
        ensures
            self.explored(start, next, seen.push(node)),
    {
        let marked = seen.push(node);
        assert forall|x: Id| marked.contains(x) <==> seen.contains(x) || x == node by {
            lemma_push_contains(seen, node, x);
        }
        assert(marked.no_duplicates()) by {
            assert forall|i: int, j: int|
                0 <= i < marked.len() && 0 <= j < marked.len() && i != j implies marked[i]
                != marked[j] by {
                if i < seen.len() {
                    assert(seen.contains(seen[i]));
                }
                if j < seen.len() {
                    assert(seen.contains(seen[j]));
                }
            }
        }
        assert forall|v: Id| #[trigger] next.contains(v) implies self.reachable(start, v) by {
            if !waiting.contains(v) {
                self.lemma_reachable_step(start, node, v);
            }
        }
        assert forall|u: Id, w: Id|
            marked.contains(u) && #[trigger] self.neighbors(u).contains(w) implies marked.contains(
            w,
        ) || next.contains(w) by {
            if u != node || seen.contains(u) {
                assert(seen.contains(u));
                assert(seen.contains(w) || waiting.contains(w));
            }
        }
    }

    /// Dropping from the waiting identifiers one that was seen already keeps
    /// a traversal in order.
    proof fn lemma_drop_explores(self, start: Id, waiting: Seq<Id>, seen: Seq<Id>, rest: Seq<Id>)
        requires
            self.explored(start, waiting, seen),
            forall|x: Id| rest.contains(x) ==> waiting.contains(x),
            forall|x: Id| waiting.contains(x) ==> rest.contains(x) || seen.contains(x),
        ensures
            self.explored(start, rest, seen),
    {
    }

    /// A breadth-first run that starts in order ends in order, with nothing
    /// left waiting, and only adds to what was visited.
    pub proof fn lemma_bfs_run_explores(self, start: Id, queue: Seq<Id>, out: Seq<Id>)
        requires
            self.wf(),
            self.explored(start, queue, out),
        ensures
            self.explored(start, Seq::empty(), self.bfs_run(queue, out)),
            out.is_prefix_of(self.bfs_run(queue, out)),
        decreases self.unvisited(queue, out).len(), queue.len(),
    {
        if queue.len() == 0 {
            assert(queue =~= Seq::empty());
        } else {
            let node = queue.first();
            let rest = queue.drop_first();
            lemma_drop_first_contains(queue);
            if out.contains(node) {
                self.lemma_drop_keeps_unvisited(queue, out, rest);
                self.lemma_drop_explores(start, queue, out, rest);
                self.lemma_bfs_run_explores(start, rest, out);
            } else {
                let next = rest + self.neighbors(node);
                lemma_concat_contains(rest, self.neighbors(node));
                self.lemma_visit_shrinks_unvisited(queue, out, node, next);
                self.lemma_visit_explores(start, queue, out, node, next);
                self.lemma_bfs_run_explores(start, next, out.push(node));
            }
        }
    }

    /// A depth-first run that starts in order ends in order, with nothing
    /// left waiting, and only adds to what was visited.
    pub proof fn lemma_dfs_run_explores(self, start: Id, stack: Seq<Id>, out: Seq<Id>)
        requires
            self.wf(),
            self.explored(start, stack, out),
        ensures
            self.explored(start, Seq::empty(), self.dfs_run(stack, out)),
            out.is_prefix_of(self.dfs_run(stack, out)),
        decreases self.unvisited(stack, out).len(), stack.len(),
    {
        if stack.len() == 0 {
            assert(stack =~= Seq::empty());
        } else {
            let node = stack.last();
            let rest = stack.drop_last();
            lemma_drop_last_contains(stack);
            if out.contains(node) {
                self.lemma_drop_keeps_unvisited(stack, out, rest);
                self.lemma_drop_explores(start, stack, out, rest);
                self.lemma_dfs_run_explores(start, rest, out);
            } else {
                let marked = out.push(node);
                let fresh = fresh_reversed(self.neighbors(node), marked);
                let next = rest + fresh;
                lemma_fresh_reversed_contains(self.neighbors(node), marked);
                lemma_concat_contains(rest, fresh);
                assert forall|x: Id| marked.contains(x) <==> out.contains(x) || x == node by {
                    lemma_push_contains(out, node, x);
                }
                self.lemma_visit_shrinks_unvisited(stack, out, node, next);
                self.lemma_visit_explores(start, stack, out, node, next);
                self.lemma_dfs_run_explores(start, next, marked);
            }
        }
    }

    /// Once nothing waits, the end of every walk from the start was visited.
    pub proof fn lemma_explored_covers(self, start: Id, seen: Seq<Id>, p: Seq<Id>)
        requires
            self.explored(start, Seq::empty(), seen),
            self.is_path(p),
            p.first() == start,
        ensures
            seen.contains(p.last()),
        decreases p.len(),
    {
        if p.len() > 1 {
            let q = p.drop_last();
            assert forall|i: int| 0 < i < q.len() implies self.neighbors(q[i - 1]).contains(
                #[trigger] q[i],
            ) by {
                assert(self.neighbors(p[i - 1]).contains(p[i]));
            }
            self.lemma_explored_covers(start, seen, q);
            let i = p.len() - 1;
            assert(self.neighbors(p[i - 1]).contains(p[i]));
            assert(q.last() == p[i - 1]);
        }
    }

    /// What a finished traversal visited: exactly what can be reached from
    /// the start, each identifier once, so as many as can be reached.
    pub proof fn lemma_explored_is_reachable(self, start: Id, seen: Seq<Id>)
        requires
            self.explored(start, Seq::empty(), seen),
        ensures
            seen.no_duplicates(),
            forall|v: Id| #[trigger] seen.contains(v) <==> self.reachable(start, v),
            seen.to_set() == self.reachable_set(start),
            self.reachable_set(start).finite(),
            seen.len() == self.reachable_set(start).len(),
    {
        assert forall|v: Id| self.reachable(start, v) implies seen.contains(v) by {
            let p = choose|p: Seq<Id>| #[trigger]
                self.is_path(p) && p.first() == start && p.last() == v;
            self.lemma_explored_covers(start, seen, p);
        }
        assert(seen.to_set() =~= self.reachable_set(start));
        vstd::seq_lib::seq_to_set_is_finite(seen);
        seen.unique_seq_to_set();
    }

    /// A breadth-first traversal begins at its start and visits exactly
    /// the identifiers that can be reached from it, each once; so it is as
    /// long as the number of identifiers that can be reached.
    pub proof fn lemma_bfs_visits_reachable_once(self, start: Id)
        requires
            self.wf(),
        ensures
            self.bfs(start).len() > 0,
            self.bfs(start).first() == start,
            self.bfs(start).no_duplicates(),
            forall|v: Id| #[trigger] self.bfs(start).contains(v) <==> self.reachable(start, v),
            self.bfs(start).to_set() == self.reachable_set(start),
            self.reachable_set(start).finite(),
            self.bfs(start).len() == self.reachable_set(start).len(),
    {
        let queue = seq![start];
        let out = Seq::<Id>::empty();
        self.lemma_reachable_self(start);
        assert(queue[0] == start);
        assert(self.explored(start, queue, out));
        self.lemma_bfs_first_step(start);
        let next = queue.drop_first() + self.neighbors(start);
        lemma_drop_first_contains(queue);
        lemma_concat_contains(queue.drop_first(), self.neighbors(start));
        self.lemma_visit_explores(start, queue, out, start, next);
        assert(out.push(start) =~= seq![start]);
        self.lemma_bfs_run_explores(start, next, seq![start]);
        assert(seq![start][0] == start);
        self.lemma_explored_is_reachable(start, self.bfs(start));
    }

    /// A depth-first traversal begins at its start and visits exactly the
    /// identifiers that can be reached from it, each once; so it is as long
    /// as the number of identifiers that can be reached.
    pub proof fn lemma_dfs_visits_reachable_once(self, start: Id)
        requires
            self.wf(),
        ensures
            self.dfs(start).len() > 0,
            self.dfs(start).first() == start,
            self.dfs(start).no_duplicates(),
            forall|v: Id| #[trigger] self.dfs(start).contains(v) <==> self.reachable(start, v),
            self.dfs(start).to_set() == self.reachable_set(start),
            self.reachable_set(start).finite(),
            self.dfs(start).len() == self.reachable_set(start).len(),
    {
        let stack = seq![start];
        let out = Seq::<Id>::empty();
        self.lemma_reachable_self(start);
        assert(stack[0] == start);
        assert(self.explored(start, stack, out));
        self.lemma_dfs_first_step(start);
        let fresh = fresh_reversed(self.neighbors(start), seq![start]);
        let next = stack.drop_last() + fresh;
        lemma_drop_last_contains(stack);
        lemma_fresh_reversed_contains(self.neighbors(start), seq![start]);
        lemma_concat_contains(stack.drop_last(), fresh);
        assert(out.push(start) =~= seq![start]);
        assert forall|x: Id| seq![start].contains(x) <==> x == start by {
            lemma_push_contains(out, start, x);
        }
        self.lemma_visit_explores(start, stack, out, start, next);
        self.lemma_dfs_run_explores(start, next, seq![start]);
        assert(seq![start][0] == start);
        self.lemma_explored_is_reachable(start, self.dfs(start));
    }

    /// The first step of a breadth-first traversal visits the start.
    pub proof fn lemma_bfs_first_step(self, start: Id)
        requires
            self.wf(),
        ensures
            self.bfs(start) == self.bfs_run(
                seq![start].drop_first() + self.neighbors(start),
                seq![start],
            ),
    {
        let queue = seq![start];
        let out = Seq::<Id>::empty();
        assert(queue.first() == start);
        assert(!out.contains(start));
        assert(out.push(start) =~= seq![start]);
    }

    /// The first step of a depth-first traversal visits the start.
    pub proof fn lemma_dfs_first_step(self, start: Id)
        requires
            self.wf(),
        ensures
            self.dfs(start) == self.dfs_run(
                seq![start].drop_last() + fresh_reversed(self.neighbors(start), seq![start]),
                seq![start],
            ),
    {
        let stack = seq![start];
        let out = Seq::<Id>::empty();
        assert(stack.last() == start);
        assert(!out.contains(start));
        assert(out.push(start) =~= seq![start]);
    }

    /// Both traversals from one start visit the same identifiers, and
    /// equally many; only the order may differ.
    pub proof fn lemma_bfs_dfs_visit_the_same(self, start: Id)
        requires
            self.wf(),
        ensures
            self.bfs(start).to_set() == self.dfs(start).to_set(),
            self.bfs(start).len() == self.dfs(start).len(),
            forall|v: Id| #[trigger] self.bfs(start).contains(v) <==> self.dfs(start).contains(v),
    {
        self.lemma_bfs_visits_reachable_once(start);
        self.lemma_dfs_visits_reachable_once(start);
        assert forall|v: Id| #[trigger]
            self.bfs(start).contains(v) <==> self.dfs(start).contains(v) by {
            assert(self.bfs(start).contains(v) <==> self.reachable(start, v));
            assert(self.dfs(start).contains(v) <==> self.reachable(start, v));
        }
    }

    /// What can be reached from a vertex is a vertex, so a traversal from a
    /// vertex visits vertices only, and no more of them than there are.
    pub proof fn lemma_known_start_visits_vertices(self, start: Id)
        requires
            self.wf(),
            self.vertices.contains(start),
        ensures
            forall|v: Id| #[trigger] self.reachable(start, v) ==> self.vertices.contains(v),
            forall|v: Id| #[trigger] self.bfs(start).contains(v) ==> self.vertices.contains(v),
            forall|v: Id| #[trigger] self.dfs(start).contains(v) ==> self.vertices.contains(v),
            self.bfs(start).len() <= self.vertices.len(),
            self.dfs(start).len() <= self.vertices.len(),
    {
        assert forall|v: Id| #[trigger] self.reachable(start, v) implies self.vertices.contains(
            v,
        ) by {
            let p = choose|p: Seq<Id>| #[trigger]
                self.is_path(p) && p.first() == start && p.last() == v;
            if p.len() > 1 {
                let i = p.len() - 1;
                assert(self.neighbors(p[i - 1]).contains(p[i]));
            }
        }
        self.lemma_bfs_visits_reachable_once(start);
        self.lemma_dfs_visits_reachable_once(start);
        assert(self.reachable_set(start).subset_of(self.vertices.to_set()));
        vstd::seq_lib::seq_to_set_is_finite(self.vertices);
        vstd::set_lib::lemma_len_subset(self.reachable_set(start), self.vertices.to_set());
        self.vertices.unique_seq_to_set();
    }

    /// From a start that is no vertex of the graph, both traversals visit
    /// the start and nothing else.
    pub proof fn lemma_unknown_start_is_visited_alone(self, start: Id)
        requires
            self.wf(),
            !self.vertices.contains(start),
        ensures
            self.bfs(start) == seq![start],
            self.dfs(start) == seq![start],
    {
        let none = self.neighbors(start);
        if none.len() > 0 {
            assert(none.contains(none[0]));
        }
        assert(none =~= Seq::<Id>::empty());
        self.lemma_bfs_first_step(start);
        self.lemma_dfs_first_step(start);
        crate::traversal::lemma_fresh_reversed_empty(seq![start]);
        assert(seq![start].drop_first() + none =~= Seq::<Id>::empty());
        assert(seq![start].drop_last() + Seq::<Id>::empty() =~= Seq::<Id>::empty());
    }
}

} // verus!
