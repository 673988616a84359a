//! The graph as it is stored, and the operations that build and traverse it.

use crate::model::{GraphModel, GraphType, Id};
use crate::seqs::{lemma_concat_contains, lemma_drop_first_contains, lemma_drop_last_contains};
use crate::traversal::{
    fresh_reversed, lemma_fresh_reversed_contains, lemma_fresh_reversed_empty,
    lemma_fresh_reversed_step,
};
use std::collections::VecDeque;
use vstd::hash_set::StringHashSet;
use vstd::prelude::*;

verus! {

/// A graph over string identifiers. It owns its identifiers; the neighbours
/// of the vertex at a position stand at the same position in `neighbors`.
#[derive(Debug, Clone)]
pub struct Graph {
    typ: GraphType,
    vertices: Vec<String>,
    neighbors: Vec<Vec<String>>,
}

impl View for Graph {
    type V = GraphModel;

    /// The graph that the stored parts stand for: a vertex has an entry in
    /// the adjacency exactly when its list of neighbours is not empty.
    closed spec fn view(&self) -> GraphModel {
        GraphModel {
            typ: self.typ,
            vertices: self.vertices.deep_view(),
            adjacency: Map::new(
                |id: Id|
                    exists|i: int|
                        0 <= i < self.vertices.len() && #[trigger] self.vertices[i]@ == id
                            && self.neighbors[i].len() > 0,
                |id: Id| self.neighbors[self.vertices.deep_view().index_of(id)].deep_view(),
            ),
        }
    }
}

impl Graph {
    /// What the stored parts must satisfy to stand for a graph: one list of
    /// neighbours for each vertex, and no vertex stored twice.
    closed spec fn stored(&self) -> bool {
        &&& self.vertices.len() == self.neighbors.len()
        &&& self.vertices.deep_view().no_duplicates()
    }

    /// Whether the graph is one that `new` and `add_edge` can have made.
    pub closed spec fn wf(&self) -> bool {
        &&& self.stored()
        &&& self@.wf()
    }

    /// A well-formed graph stands for a well-formed model.
    pub proof fn lemma_wf_view(&self)
        requires
            self.wf(),
        ensures
            self@.wf(),
    {
    }

    /// How the stored parts show in the graph they stand for.
    proof fn lemma_stored(&self)
        requires
            self.stored(),
        ensures
            self@.typ == self.typ,
            self@.vertices == self.vertices.deep_view(),
            self@.no_empty_entries(),
            forall|i: int|
                0 <= i < self.vertices.len() ==> self@.neighbors(#[trigger] self.vertices[i]@)
                    == self.neighbors[i].deep_view(),
            forall|id: Id|
                !self.vertices.deep_view().contains(id) ==> #[trigger] self@.neighbors(id)
                    == Seq::<Id>::empty(),
    {
        let m = self@;
        let ids = self.vertices.deep_view();
        assert forall|i: int| 0 <= i < self.vertices.len() implies m.neighbors(
            #[trigger] self.vertices[i]@,
        ) == self.neighbors[i].deep_view() by {
            let id = self.vertices[i]@;
            assert(ids[i] == id);
            let k = ids.index_of(id);
            assert(0 <= k < ids.len() && ids[k] == id);
            assert(k == i);
            if self.neighbors[i].len() == 0 {
                assert(!m.adjacency.contains_key(id)) by {
                    if m.adjacency.contains_key(id) {
                        let j = choose|j: int|
                            0 <= j < self.vertices.len() && #[trigger] self.vertices[j]@ == id
                                && self.neighbors[j].len() > 0;
                        assert(ids[j] == id);
                    }
                }
                assert(self.neighbors[i].deep_view() =~= Seq::<Id>::empty());
            } else {
                assert(m.adjacency.contains_key(id));
            }
        }
        assert forall|id: Id| !ids.contains(id) implies #[trigger] m.neighbors(id) == Seq::<
            Id,
        >::empty() by {
            if m.adjacency.contains_key(id) {
                let j = choose|j: int|
                    0 <= j < self.vertices.len() && #[trigger] self.vertices[j]@ == id
                        && self.neighbors[j].len() > 0;
                assert(ids[j] == id);
            }
        }
        assert forall|a: Id| #[trigger] m.adjacency.contains_key(a) implies m.adjacency[a].len()
            > 0 by {
            let j = choose|j: int|
                0 <= j < self.vertices.len() && #[trigger] self.vertices[j]@ == a
                    && self.neighbors[j].len() > 0;
            assert(m.neighbors(self.vertices[j]@) == self.neighbors[j].deep_view());
        }
    }

    /// The position at which `id` is stored, if it is.
    fn position(&self, id: &String) -> (r: Option<usize>)
        ensures
            match r {
                Some(i) => i < self.vertices.len() && self.vertices[i as int]@ == id@,
                None => !self.vertices.deep_view().contains(id@),
            },
    {
        let mut k: usize = 0;
        while k < self.vertices.len()
            invariant
                k <= self.vertices.len(),
                forall|j: int| 0 <= j < k ==> self.vertices[j]@ != id@,
            decreases self.vertices.len() - k,
        {
            if self.vertices[k] == *id {
                return Some(k);
            }
            k += 1;
        }
        None
    }

    /// Stores `vertex` without neighbours unless it is stored already, and
    /// returns its position. What was stored stays where it was.
    fn add_vertex(&mut self, vertex: &String) -> (i: usize)
        requires
            old(self).stored(),
        ensures
            final(self).stored(),
            final(self)@ == old(self)@.with_vertex(vertex@),
            i < final(self).vertices.len(),
            final(self).vertices[i as int]@ == vertex@,
            old(self).vertices.len() <= final(self).vertices.len(),
            forall|j: int|
                0 <= j < old(self).vertices.len() ==> final(self).vertices[j]@ == old(
                    self,
                ).vertices[j]@,
    {
        let ghost before = *self;
        match self.position(vertex) {
            Some(i) => {
                proof {
                    assert(self.vertices.deep_view()[i as int] == vertex@);
                }
                i
            },
            None => {
                let i = self.vertices.len();
                self.vertices.push(vertex.clone());
                self.neighbors.push(Vec::new());
                proof {
                    let ids = before.vertices.deep_view();
                    assert(self.vertices.deep_view() =~= ids.push(vertex@));
                    before.lemma_stored();
                    crate::model::lemma_register(ids, vertex@);
                    self.lemma_stored();
                    assert forall|x: Id| #[trigger] self@.neighbors(x) == before@.neighbors(x) by {
                        if ids.contains(x) {
                            let j = choose|j: int| 0 <= j < ids.len() && ids[j] == x;
                            assert(before.vertices[j]@ == x);
                            assert(self.vertices[j]@ == x);
                            assert(self.neighbors[j] == before.neighbors[j]);
                        } else if x == vertex@ {
                            assert(self.vertices[i as int]@ == x);
                            assert(self.neighbors[i as int].deep_view() =~= Seq::<Id>::empty());
                        } else {
                            assert(!self.vertices.deep_view().contains(x));
                        }
                    }
                    self@.lemma_same_graph(before@.with_vertex(vertex@));
                }
                i
            },
        }
    }

    /// Appends `to` to the neighbours of the vertex stored at position `i`.
    fn push_neighbor(&mut self, i: usize, to: &String)
        requires
            old(self).stored(),
            i < old(self).vertices.len(),
        ensures
            final(self).stored(),
            final(self).vertices == old(self).vertices,
            final(self)@ == old(self)@.link(old(self).vertices[i as int]@, to@),
    {
        let ghost before = *self;
        self.neighbors[i].push(to.clone());
        proof {
            let from = self.vertices[i as int]@;
            let ids = self.vertices.deep_view();
            before.lemma_stored();
            self.lemma_stored();
            before@.lemma_link(from, to@);
            assert(self.neighbors[i as int].deep_view() =~= before.neighbors[i as int].deep_view().push(
                to@,
            ));
            assert forall|x: Id| #[trigger] self@.neighbors(x) == before@.link(from, to@).neighbors(
                x,
            ) by {
                if ids.contains(x) {
                    let j = choose|j: int| 0 <= j < ids.len() && ids[j] == x;
                    assert(self.vertices[j]@ == x);
                    if j != i {
                        assert(ids[i as int] == from);
                        assert(self.neighbors[j] == before.neighbors[j]);
                    }
                }
            }
            self@.lemma_same_graph(before@.link(from, to@));
        }
    }

    /// The graph of the given kind with no vertices and no edges.
    pub fn new(typ: GraphType) -> (g: Graph)
        ensures
            g.wf(),
            g@ == GraphModel::empty(typ),
    {
        let g = Graph { typ, vertices: Vec::new(), neighbors: Vec::new() };
        proof {
            assert(g@.vertices =~= Seq::<Id>::empty());
            assert(g@.adjacency =~= Map::<Id, Seq<Id>>::empty());
            GraphModel::lemma_empty_wf(typ);
        }
        g
    }

    /// The kind of the graph.
    pub fn typ(&self) -> (typ: GraphType)
        ensures
            typ == self@.typ,
    {
        self.typ
    }

    /// The vertices in the order in which they first appeared.
    pub fn vertices(&self) -> (vertices: &Vec<String>)
        ensures
            vertices.deep_view() == self@.vertices,
    {
        &self.vertices
    }

    /// Adds the edge from `origin` to `destination`: both become vertices
    /// if they are not yet, the destination becomes the last neighbour of the
    /// origin, and in an undirected graph the origin then becomes the last
    /// neighbour of the destination.
    pub fn add_edge(&mut self, origin: &String, destination: &String)
        requires
            old(self).wf(),
        ensures
            final(self).wf(),
            final(self)@ == old(self)@.add_edge(origin@, destination@),
    {
        proof {
            self@.lemma_add_edge_wf(origin@, destination@);
        }
        let i = self.add_vertex(origin);
        let j = self.add_vertex(destination);
        self.push_neighbor(i, destination);
        match self.typ {
            GraphType::Directed => {},
            GraphType::Undirected => {
                self.push_neighbor(j, origin);
            },
        }
    }

    /// The neighbours of `id` as stored, where `id` has an entry in the
    /// adjacency.
    pub fn neighbors(&self, id: &String) -> (r: Option<&Vec<String>>)
        requires
            self.wf(),
        ensures
            match r {
                Some(list) => self@.adjacency.contains_key(id@) && list.deep_view()
                    == self@.adjacency[id@],
                None => !self@.adjacency.contains_key(id@),
            },
    {
        proof {
            self.lemma_stored();
        }
        match self.position(id) {
            Some(i) => {
                let list = &self.neighbors[i];
                proof {
                    assert(self@.neighbors(self.vertices[i as int]@) == list.deep_view());
                    if list.len() > 0 {
                        assert(list.deep_view().len() > 0);
                    }
                }
                if list.len() > 0 {
                    Some(list)
                } else {
                    None
                }
            },
            None => {
                proof {
                    assert(self@.neighbors(id@) == Seq::<Id>::empty());
                }
                None
            },
        }
    }

    /// The identifiers visited from `start` in breadth-first order: `start`
    /// first, then what can be reached from it, each identifier once. A start
    /// that is no vertex of the graph is visited alone.
    pub fn bfs(&self, start: &String) -> (result: Vec<String>)
        requires
            self.wf(),
        ensures
            result.deep_view() == self@.bfs(start@),
            result.len() > 0 && result[0]@ == start@,
            result.deep_view().no_duplicates(),
            forall|v: Id| #[trigger] result.deep_view().contains(v) <==> self@.reachable(start@, v),
            !self@.vertices.contains(start@) ==> result.deep_view() == seq![start@],
    {
        proof {
            self@.lemma_bfs_visits_reachable_once(start@);
            if !self@.vertices.contains(start@) {
                self@.lemma_unknown_start_is_visited_alone(start@);
            }
        }
        let mut visited = StringHashSet::new();
        let mut result: Vec<String> = Vec::new();
        let mut queue: VecDeque<String> = VecDeque::new();
        queue.push_back(start.clone());
        proof {
            assert(queue.deep_view() =~= seq![start@]);
            assert(result.deep_view() =~= Seq::<Id>::empty());
            assert(visited@ =~= result.deep_view().to_set());
        }
        while queue.len() > 0
            invariant
                self.wf(),
                visited@ == result.deep_view().to_set(),
                self@.bfs_run(queue.deep_view(), result.deep_view()) == self@.bfs(start@),
            decreases self@.unvisited(queue.deep_view(), result.deep_view()).len(), queue.len(),
        {
            let ghost waiting = queue.deep_view();
            let ghost seen = result.deep_view();
            let node = match queue.pop_front() {
                Some(node) => node,
                None => { return result; },
            };
            proof {
                assert(queue.deep_view() =~= waiting.drop_first());
                assert(node@ == waiting.first());
                lemma_drop_first_contains(waiting);
            }
            if !visited.contains(node.as_str()) {
                visited.insert(node.clone());
                match self.neighbors(&node) {
                    Some(list) => {
                        let mut k: usize = 0;
                        while k < list.len()
                            invariant
                                k <= list.len(),
                                waiting.len() > 0,
                                queue.deep_view() == waiting.drop_first() + list.deep_view().take(
                                    k as int,
                                ),
                            decreases list.len() - k,
                        {
                            let ghost queued = queue.deep_view();
                            queue.push_back(list[k].clone());
                            proof {
                                assert(queue.deep_view() =~= queued.push(list[k as int]@));
                                assert(list.deep_view().take(k as int + 1) =~= list.deep_view().take(
                                    k as int,
                                ).push(list[k as int]@));
                                assert(queue.deep_view() =~= waiting.drop_first()
                                    + list.deep_view().take(k as int + 1));
                            }
                            k += 1;
                        }
                        proof {
                            assert(list.deep_view().take(k as int) =~= list.deep_view());
                        }
                    },
                    None => {
                        proof {
                            assert(queue.deep_view() =~= waiting.drop_first() + self@.neighbors(
                                node@,
                            ));
                        }
                    },
                }
                result.push(node);
                proof {
                    assert(result.deep_view() =~= seen.push(node@));
                    assert(visited@ =~= result.deep_view().to_set()) by {
                        assert forall|x: Id|
                            visited@.contains(x) <==> result.deep_view().to_set().contains(x) by {
                            crate::seqs::lemma_push_contains(seen, node@, x);
                        }
                    }
                    lemma_concat_contains(waiting.drop_first(), self@.neighbors(node@));
                    self@.lemma_visit_shrinks_unvisited(waiting, seen, node@, queue.deep_view());
                }
            } else {
                proof {
                    self@.lemma_drop_keeps_unvisited(waiting, seen, queue.deep_view());
                }
            }
        }
        proof {
            assert(queue.deep_view().len() == 0);
        }
        result
    }

    /// The identifiers visited from `start` in depth-first pre-order: `start`
    /// first, then what can be reached from it, each identifier once. A start
    /// that is no vertex of the graph is visited alone.
    pub fn dfs(&self, start: &String) -> (result: Vec<String>)
        requires
            self.wf(),
        ensures
            result.deep_view() == self@.dfs(start@),
            result.len() > 0 && result[0]@ == start@,
            result.deep_view().no_duplicates(),
            forall|v: Id| #[trigger] result.deep_view().contains(v) <==> self@.reachable(start@, v),
            !self@.vertices.contains(start@) ==> result.deep_view() == seq![start@],
    {
        proof {
            self@.lemma_dfs_visits_reachable_once(start@);
            if !self@.vertices.contains(start@) {
                self@.lemma_unknown_start_is_visited_alone(start@);
            }
        }
        let mut visited = StringHashSet::new();
        let mut result: Vec<String> = Vec::new();
        let mut stack: Vec<String> = Vec::new();
        stack.push(start.clone());
        proof {
            assert(stack.deep_view() =~= seq![start@]);
            assert(result.deep_view() =~= Seq::<Id>::empty());
            assert(visited@ =~= result.deep_view().to_set());
        }
        while stack.len() > 0
            invariant
                self.wf(),
                visited@ == result.deep_view().to_set(),
                self@.dfs_run(stack.deep_view(), result.deep_view()) == self@.dfs(start@),
            decreases self@.unvisited(stack.deep_view(), result.deep_view()).len(), stack.len(),
        {
            let ghost waiting = stack.deep_view();
            let ghost seen = result.deep_view();
            let node = match stack.pop() {
                Some(node) => node,
                None => { return result; },
            };
            proof {
                assert(stack.deep_view() =~= waiting.drop_last());
                assert(node@ == waiting.last());
                lemma_drop_last_contains(waiting);
            }
            if !visited.contains(node.as_str()) {
                visited.insert(node.clone());
                result.push(node.clone());
                let ghost marked = seen.push(node@);
                proof {
                    assert(result.deep_view() =~= marked);
                    assert(visited@ =~= marked.to_set()) by {
                        assert forall|x: Id|
                            visited@.contains(x) <==> marked.to_set().contains(x) by {
                            crate::seqs::lemma_push_contains(seen, node@, x);
                        }
                    }
                }
                match self.neighbors(&node) {
                    Some(list) => {
                        let mut k: usize = list.len();
                        proof {
                            assert(list.deep_view().skip(k as int) =~= Seq::<Id>::empty());
                            lemma_fresh_reversed_empty(marked);
                            assert(stack.deep_view() =~= waiting.drop_last() + Seq::<Id>::empty());
                        }
                        while k > 0
                            invariant
                                k <= list.len(),
                                waiting.len() > 0,
                                visited@ == marked.to_set(),
                                stack.deep_view() == waiting.drop_last() + fresh_reversed(
                                    list.deep_view().skip(k as int),
                                    marked,
                                ),
                            decreases k,
                        {
                            k -= 1;
                            proof {
                                lemma_fresh_reversed_step(list.deep_view(), marked, k as int);
                                assert(list.deep_view()[k as int] == list[k as int]@);
                            }
                            let ghost pushed = stack.deep_view();
                            if !visited.contains(list[k].as_str()) {
                                stack.push(list[k].clone());
                                proof {
                                    assert(stack.deep_view() =~= pushed.push(list[k as int]@));
                                    assert(stack.deep_view() =~= waiting.drop_last()
                                        + fresh_reversed(list.deep_view().skip(k as int), marked));
                                }
                            } else {
                                proof {
                                    assert(stack.deep_view() =~= waiting.drop_last()
                                        + fresh_reversed(list.deep_view().skip(k as int), marked));
                                }
                            }
                        }
                        proof {
                            assert(list.deep_view().skip(0) =~= list.deep_view());
                        }
                    },
                    None => {
                        proof {
                            lemma_fresh_reversed_empty(marked);
                            assert(stack.deep_view() =~= waiting.drop_last() + fresh_reversed(
                                self@.neighbors(node@),
                                marked,
                            ));
                        }
                    },
                }
                proof {
                    lemma_fresh_reversed_contains(self@.neighbors(node@), marked);
                    lemma_concat_contains(
                        waiting.drop_last(),
                        fresh_reversed(self@.neighbors(node@), marked),
                    );
                    self@.lemma_visit_shrinks_unvisited(waiting, seen, node@, stack.deep_view());
                }
            } else {
                proof {
                    self@.lemma_drop_keeps_unvisited(waiting, seen, stack.deep_view());
                }
            }
        }
        proof {
            assert(stack.deep_view().len() == 0);
        }
        result
    }
}

} // verus!
