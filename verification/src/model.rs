//! The mathematical model of a graph: what a graph is, independent of how it
//! is stored, and what adding an edge does to it.

use crate::seqs::lemma_push_contains;
use vstd::prelude::*;

verus! {

/// A vertex identifier, as the sequence of its characters. Two identifiers
/// are the same vertex exactly when they are equal character by character.
pub type Id = Seq<char>;

/// Whether an edge is an ordered pair or a symmetric relation.
#[derive(Clone, Copy, Debug, PartialEq, Eq, Structural)]
pub enum GraphType {
    Directed,
    Undirected,
}

/// A graph as a value: its kind, its vertices in order of first appearance,
/// and for each vertex with at least one neighbour the list of its neighbours.
pub struct GraphModel {
    pub typ: GraphType,
    pub vertices: Seq<Id>,
    pub adjacency: Map<Id, Seq<Id>>,
}

/// `vertices` with `id` appended, unless it is already there.
pub open spec fn register(vertices: Seq<Id>, id: Id) -> Seq<Id> {
    if vertices.contains(id) {
        vertices
    } else {
        vertices.push(id)
    }
}

impl GraphModel {
    /// The graph of the given kind with no vertices and no edges.
    pub open spec fn empty(typ: GraphType) -> GraphModel {
        GraphModel { typ, vertices: Seq::empty(), adjacency: Map::empty() }
    }

    /// The neighbours of `id` in order; none where `id` has no entry.
    pub open spec fn neighbors(self, id: Id) -> Seq<Id> {
        if self.adjacency.contains_key(id) {
            self.adjacency[id]
        } else {
            Seq::empty()
        }
    }

    /// The graph with `id` registered as a vertex.
    pub open spec fn with_vertex(self, id: Id) -> GraphModel {
        GraphModel { vertices: register(self.vertices, id), ..self }
    }

    /// Whether every entry of the adjacency lists at least one neighbour.
    pub open spec fn no_empty_entries(self) -> bool {
        forall|a: Id| #[trigger] self.adjacency.contains_key(a) ==> self.adjacency[a].len() > 0
    }

    /// The graph with `to` appended to the neighbours of `from`.
    pub open spec fn link(self, from: Id, to: Id) -> GraphModel {
        GraphModel { adjacency: self.adjacency.insert(from, self.neighbors(from).push(to)), ..self }
    }

    /// The graph after the edge from `origin` to `destination` is added: both
    /// ends are registered, the destination joins the origin's neighbours,
    /// and in an undirected graph the origin then joins the destination's.
    /// Nothing is deduplicated but the vertices.
    pub open spec fn add_edge(self, origin: Id, destination: Id) -> GraphModel {
        let g = self.with_vertex(origin).with_vertex(destination).link(origin, destination);
        match self.typ {
            GraphType::Directed => g,
            GraphType::Undirected => g.link(destination, origin),
        }
    }

    /// The graph after each of `destinations`, in order, is added as an edge
    /// from `origin`.
    pub open spec fn add_edges_from(self, origin: Id, destinations: Seq<Id>) -> GraphModel
        decreases destinations.len(),
    {
        if destinations.len() == 0 {
            self
        } else {
            self.add_edges_from(origin, destinations.drop_last()).add_edge(
                origin,
                destinations.last(),
            )
        }
    }

    /// The graph after every entry of `entries`, in order, has had its
    /// destinations added as edges from its origin.
    pub open spec fn add_entries(self, entries: Seq<(Id, Seq<Id>)>) -> GraphModel
        decreases entries.len(),
    {
        if entries.len() == 0 {
            self
        } else {
            self.add_entries(entries.drop_last()).add_edges_from(
                entries.last().0,
                entries.last().1,
            )
        }
    }

    /// Whether `entries` lists the edge from `a` to `b`: some entry has the
    /// origin `a` and `b` among its destinations.
    pub open spec fn lists_edge(entries: Seq<(Id, Seq<Id>)>, a: Id, b: Id) -> bool {
        exists|i: int| 0 <= i < entries.len() && (#[trigger] entries[i]).0 == a && entries[i].1.contains(b)
    }

    /// What holds of every graph that was built from the empty graph by adding
    /// edges: no vertex is listed twice, no entry of the adjacency is empty,
    /// both ends of every edge are vertices, and in an undirected graph every
    /// edge is there in both directions.
    pub open spec fn wf(self) -> bool {
        &&& self.vertices.no_duplicates()
        &&& self.no_empty_entries()
        &&& forall|a: Id, b: Id| #[trigger]
            self.neighbors(a).contains(b) ==> self.vertices.contains(a) && self.vertices.contains(
                b,
            )
        &&& self.typ == GraphType::Undirected ==> forall|a: Id, b: Id| #[trigger]
            self.neighbors(a).contains(b) ==> self.neighbors(b).contains(a)
    }
}

/// Registering an identifier keeps what was there in place, adds nothing but
/// that identifier, and never lists a vertex twice.
pub proof fn lemma_register(vertices: Seq<Id>, id: Id)
    ensures
        register(vertices, id).contains(id),
        vertices.is_prefix_of(register(vertices, id)),
        forall|x: Id| #[trigger] register(vertices, id).contains(x) <==> vertices.contains(x) || x == id,
        vertices.contains(id) ==> register(vertices, id) == vertices,
        vertices.no_duplicates() ==> register(vertices, id).no_duplicates(),
{
    let r = register(vertices, id);
    if !vertices.contains(id) {
        assert(r[vertices.len() as int] == id);
        assert forall|x: Id| #[trigger] r.contains(x) implies vertices.contains(x) || x == id by {
            let i = choose|i: int| 0 <= i < r.len() && r[i] == x;
            if i < vertices.len() {
                assert(vertices[i] == x);
            }
        }
        assert forall|x: Id| vertices.contains(x) implies #[trigger] r.contains(x) by {
            let i = choose|i: int| 0 <= i < vertices.len() && vertices[i] == x;
            assert(r[i] == x);
        }
    }
}

impl GraphModel {
    /// Two graphs without empty entries are the same graph when they are of
    /// one kind, list the same vertices and give every identifier the same
    /// neighbours.
    pub proof fn lemma_same_graph(self, other: GraphModel)
        requires
            self.typ == other.typ,
            self.vertices == other.vertices,
            self.no_empty_entries(),
            other.no_empty_entries(),
            forall|id: Id| #[trigger] self.neighbors(id) == other.neighbors(id),
        ensures
            self == other,
    {
        assert forall|id: Id| self.adjacency.contains_key(id) implies other.adjacency.contains_key(
            id,
        ) && self.adjacency[id] == other.adjacency[id] by {
            assert(self.neighbors(id) == other.neighbors(id));
        }
        assert forall|id: Id| other.adjacency.contains_key(id) implies self.adjacency.contains_key(
            id,
        ) by {
            assert(self.neighbors(id) == other.neighbors(id));
        }
        assert(self.adjacency =~= other.adjacency);
    }

    /// The empty graph is well formed.
    pub proof fn lemma_empty_wf(typ: GraphType)
        ensures
            GraphModel::empty(typ).wf(),
    {
        let g = GraphModel::empty(typ);
        assert forall|a: Id, b: Id| !#[trigger] g.neighbors(a).contains(b) by {}
    }

    /// Linking appends to one list and leaves every other list as it was.
    pub proof fn lemma_link(self, from: Id, to: Id)
        ensures
            self.link(from, to).neighbors(from) == self.neighbors(from).push(to),
            forall|x: Id| x != from ==> #[trigger] self.link(from, to).neighbors(x) == self.neighbors(x),
            self.link(from, to).vertices == self.vertices,
            self.link(from, to).typ == self.typ,
    {
    }

    /// The neighbours of every vertex after an edge is added: the origin has
    /// gained the destination, in an undirected graph the destination has then
    /// gained the origin, and no other list has changed.
    pub proof fn lemma_add_edge_neighbors(self, origin: Id, destination: Id)
        ensures
            self.add_edge(origin, destination).typ == self.typ,
            self.add_edge(origin, destination).vertices == register(
                register(self.vertices, origin),
                destination,
            ),
            forall|x: Id| x != origin && x != destination ==> #[trigger] self.add_edge(
                origin,
                destination,
            ).neighbors(x) == self.neighbors(x),
            self.typ == GraphType::Directed ==> {
                &&& self.add_edge(origin, destination).neighbors(origin) == self.neighbors(
                    origin,
                ).push(destination)
                &&& origin != destination ==> self.add_edge(origin, destination).neighbors(
                    destination,
                ) == self.neighbors(destination)
            },
            self.typ == GraphType::Undirected ==> {
                &&& origin != destination ==> {
                    &&& self.add_edge(origin, destination).neighbors(origin) == self.neighbors(
                        origin,
                    ).push(destination)
                    &&& self.add_edge(origin, destination).neighbors(destination)
                        == self.neighbors(destination).push(origin)
                }
                &&& origin == destination ==> self.add_edge(origin, destination).neighbors(origin)
                    == self.neighbors(origin).push(origin).push(origin)
            },
    {
        let g0 = self.with_vertex(origin).with_vertex(destination);
        assert(forall|x: Id| g0.neighbors(x) == self.neighbors(x));
        g0.lemma_link(origin, destination);
        let g1 = g0.link(origin, destination);
        g1.lemma_link(destination, origin);
    }

    /// Adding an edge keeps a graph well formed.
    pub proof fn lemma_add_edge_wf(self, origin: Id, destination: Id)
        requires
            self.wf(),
        ensures
            self.add_edge(origin, destination).wf(),
    {
        let g = self.add_edge(origin, destination);
        self.lemma_add_edge_neighbors(origin, destination);
        lemma_register(self.vertices, origin);
        lemma_register(register(self.vertices, origin), destination);
        assert forall|a: Id| #[trigger] g.adjacency.contains_key(a) implies g.adjacency[a].len()
            > 0 by {
            if a != origin && a != destination {
                assert(g.neighbors(a) == self.neighbors(a));
                assert(self.adjacency.contains_key(a));
            }
        }
        assert forall|a: Id, b: Id| #[trigger] g.neighbors(a).contains(b) implies g.vertices.contains(
            a,
        ) && g.vertices.contains(b) by {
            self.lemma_add_edge_contains(origin, destination, a, b);
            if self.neighbors(a).contains(b) {
            }
        }
        if self.typ == GraphType::Undirected {
            assert forall|a: Id, b: Id| #[trigger] g.neighbors(a).contains(b) implies g.neighbors(
                b,
            ).contains(a) by {
                self.lemma_add_edge_contains(origin, destination, a, b);
                self.lemma_add_edge_contains(origin, destination, b, a);
                if self.neighbors(a).contains(b) {
                    assert(self.neighbors(b).contains(a));
                }
            }
        }
    }

    /// Which edges a graph has after one is added: those it had, the new one,
    /// and in an undirected graph the new one reversed.
    pub proof fn lemma_add_edge_contains(self, origin: Id, destination: Id, a: Id, b: Id)
        ensures
            self.add_edge(origin, destination).neighbors(a).contains(b) <==> {
                ||| self.neighbors(a).contains(b)
                ||| (a == origin && b == destination)
                ||| (self.typ == GraphType::Undirected && a == destination && b == origin)
            },
    {
        self.lemma_add_edge_neighbors(origin, destination);
        lemma_push_contains(self.neighbors(a), origin, b);
        lemma_push_contains(self.neighbors(a), destination, b);
        lemma_push_contains(self.neighbors(a).push(origin), origin, b);
    }

    /// In an undirected graph an added edge is there in both directions; in
    /// a directed graph it is there from its origin to its destination.
    pub proof fn lemma_added_edge_is_present(self, a: Id, b: Id)
        ensures
            self.add_edge(a, b).neighbors(a).contains(b),
            self.typ == GraphType::Undirected ==> self.add_edge(a, b).neighbors(b).contains(a),
    {
        self.lemma_add_edge_contains(a, b, a, b);
        self.lemma_add_edge_contains(a, b, b, a);
    }

    /// An edge, once there, stays: adding another edge removes none, and
    /// each list of neighbours only grows at its end.
    pub proof fn lemma_add_edge_keeps_edges(self, origin: Id, destination: Id, x: Id)
        ensures
            self.neighbors(x).is_prefix_of(self.add_edge(origin, destination).neighbors(x)),
            forall|y: Id|
                self.neighbors(x).contains(y) ==> #[trigger] self.add_edge(
                    origin,
                    destination,
                ).neighbors(x).contains(y),
    {
        self.lemma_add_edge_neighbors(origin, destination);
        assert forall|y: Id| self.neighbors(x).contains(y) implies #[trigger] self.add_edge(
            origin,
            destination,
        ).neighbors(x).contains(y) by {
            self.lemma_add_edge_contains(origin, destination, x, y);
        }
    }

    /// In a directed graph, adding the edge from `a` to `b` changes the
    /// neighbours of no vertex but `a`: `a` is a neighbour of `b` afterwards
    /// only if it was one before, or if the edge is a loop.
    pub proof fn lemma_directed_edge_is_one_way(self, a: Id, b: Id)
        requires
            self.typ == GraphType::Directed,
        ensures
            forall|x: Id| x != a ==> #[trigger] self.add_edge(a, b).neighbors(x) == self.neighbors(x),
            a != b ==> (self.add_edge(a, b).neighbors(b).contains(a) <==> self.neighbors(
                b,
            ).contains(a)),
    {
        self.lemma_add_edge_neighbors(a, b);
    }

    /// Adding an edge never lists a vertex twice, and an edge between two
    /// known vertices leaves the vertices as they were.
    pub proof fn lemma_vertex_registration_is_idempotent(self, origin: Id, destination: Id)
        ensures
            self.vertices.no_duplicates() ==> self.add_edge(
                origin,
                destination,
            ).vertices.no_duplicates(),
            self.vertices.is_prefix_of(self.add_edge(origin, destination).vertices),
            self.vertices.contains(origin) && self.vertices.contains(destination)
                ==> self.add_edge(origin, destination).vertices == self.vertices,
            self.add_edge(origin, destination).vertices.contains(origin),
            self.add_edge(origin, destination).vertices.contains(destination),
    {
        self.lemma_add_edge_neighbors(origin, destination);
        lemma_register(self.vertices, origin);
        lemma_register(register(self.vertices, origin), destination);
    }

    /// The edges after all of `destinations` are added from `origin`: those
    /// that were there, those from `origin` to a destination, and in an
    /// undirected graph those from a destination to `origin`. The ends of the
    /// new edges are the only new vertices, and a well-formed graph stays so.
    pub proof fn lemma_add_edges_from(self, origin: Id, destinations: Seq<Id>)
        ensures
            self.add_edges_from(origin, destinations).typ == self.typ,
            self.wf() ==> self.add_edges_from(origin, destinations).wf(),
            forall|a: Id, b: Id| #[trigger]
                self.add_edges_from(origin, destinations).neighbors(a).contains(b) <==> {
                    ||| self.neighbors(a).contains(b)
                    ||| (a == origin && destinations.contains(b))
                    ||| (self.typ == GraphType::Undirected && b == origin && destinations.contains(
                        a,
                    ))
                },
            forall|x: Id| #[trigger]
                self.add_edges_from(origin, destinations).vertices.contains(x) <==> {
                    ||| self.vertices.contains(x)
                    ||| (destinations.len() > 0 && (x == origin || destinations.contains(x)))
                },
        decreases destinations.len(),
    {
        let after = self.add_edges_from(origin, destinations);
        if destinations.len() > 0 {
            let front = destinations.drop_last();
            let last = destinations.last();
            let mid = self.add_edges_from(origin, front);
            self.lemma_add_edges_from(origin, front);
            mid.lemma_add_edge_neighbors(origin, last);
            if self.wf() {
                mid.lemma_add_edge_wf(origin, last);
            }
            crate::seqs::lemma_drop_last_contains(destinations);
            assert forall|a: Id, b: Id| #[trigger] after.neighbors(a).contains(b) <==> {
                ||| self.neighbors(a).contains(b)
                ||| (a == origin && destinations.contains(b))
                ||| (self.typ == GraphType::Undirected && b == origin && destinations.contains(a))
            } by {
                mid.lemma_add_edge_contains(origin, last, a, b);
                assert(mid.neighbors(a).contains(b) <==> {
                    ||| self.neighbors(a).contains(b)
                    ||| (a == origin && front.contains(b))
                    ||| (self.typ == GraphType::Undirected && b == origin && front.contains(a))
                });
            }
            assert forall|x: Id| #[trigger] after.vertices.contains(x) <==> {
                ||| self.vertices.contains(x)
                ||| (x == origin || destinations.contains(x))
            } by {
                lemma_register(mid.vertices, origin);
                lemma_register(register(mid.vertices, origin), last);
                assert(mid.vertices.contains(x) <==> {
                    ||| self.vertices.contains(x)
                    ||| (front.len() > 0 && (x == origin || front.contains(x)))
                });
            }
        }
    }

    /// The edges after all of `entries` are added: those that were there,
    /// those that `entries` lists, and in an undirected graph those that it
    /// lists the other way round; no edge comes from anywhere else. A
    /// well-formed graph stays so.
    pub proof fn lemma_add_entries(self, entries: Seq<(Id, Seq<Id>)>)
        ensures
            self.add_entries(entries).typ == self.typ,
            self.wf() ==> self.add_entries(entries).wf(),
            forall|a: Id, b: Id| #[trigger]
                self.add_entries(entries).neighbors(a).contains(b) <==> {
                    ||| self.neighbors(a).contains(b)
                    ||| Self::lists_edge(entries, a, b)
                    ||| (self.typ == GraphType::Undirected && Self::lists_edge(entries, b, a))
                },
        decreases entries.len(),
    {
        let after = self.add_entries(entries);
        assert forall|a: Id, b: Id| #[trigger] after.neighbors(a).contains(b) <==> {
            ||| self.neighbors(a).contains(b)
            ||| Self::lists_edge(entries, a, b)
            ||| (self.typ == GraphType::Undirected && Self::lists_edge(entries, b, a))
        } by {
            if entries.len() > 0 {
                let front = entries.drop_last();
                let last = entries.last();
                let mid = self.add_entries(front);
                self.lemma_add_entries(front);
                mid.lemma_add_edges_from(last.0, last.1);
                assert(after.neighbors(a).contains(b) <==> {
                    ||| mid.neighbors(a).contains(b)
                    ||| (a == last.0 && last.1.contains(b))
                    ||| (self.typ == GraphType::Undirected && b == last.0 && last.1.contains(a))
                });
                assert(mid.neighbors(a).contains(b) <==> {
                    ||| self.neighbors(a).contains(b)
                    ||| Self::lists_edge(front, a, b)
                    ||| (self.typ == GraphType::Undirected && Self::lists_edge(front, b, a))
                });
                Self::lemma_lists_edge_last(entries, a, b);
                Self::lemma_lists_edge_last(entries, b, a);
            }
        }
        if entries.len() > 0 {
            let front = entries.drop_last();
            self.lemma_add_entries(front);
            self.add_entries(front).lemma_add_edges_from(entries.last().0, entries.last().1);
        }
    }

    /// A list of entries lists what its last entry lists and what the
    /// entries before it list.
    proof fn lemma_lists_edge_last(entries: Seq<(Id, Seq<Id>)>, a: Id, b: Id)
        requires
            entries.len() > 0,
        ensures
            Self::lists_edge(entries, a, b) <==> {
                ||| Self::lists_edge(entries.drop_last(), a, b)
                ||| (entries.last().0 == a && entries.last().1.contains(b))
            },
    {
        let front = entries.drop_last();
        if Self::lists_edge(entries, a, b) {
            let i = choose|i: int|
                0 <= i < entries.len() && (#[trigger] entries[i]).0 == a && entries[i].1.contains(
                    b,
                );
            if i < front.len() {
                assert(front[i] == entries[i]);
            }
        }
        if Self::lists_edge(front, a, b) {
            let i = choose|i: int|
                0 <= i < front.len() && (#[trigger] front[i]).0 == a && front[i].1.contains(b);
            assert(entries[i] == front[i]);
        }
        assert(entries[entries.len() - 1] == entries.last());
    }

    /// A graph built from the empty graph has exactly the edges that were
    /// listed: in a directed graph `b` is a neighbour of `a` only if the
    /// edge from `a` to `b` was listed; in an undirected graph, if it was
    /// listed in either direction.
    pub proof fn lemma_built_graph_edges(typ: GraphType, entries: Seq<(Id, Seq<Id>)>)
        ensures
            GraphModel::empty(typ).add_entries(entries).wf(),
            GraphModel::empty(typ).add_entries(entries).typ == typ,
            forall|a: Id, b: Id| #[trigger]
                GraphModel::empty(typ).add_entries(entries).neighbors(a).contains(b) <==> {
                    ||| Self::lists_edge(entries, a, b)
                    ||| (typ == GraphType::Undirected && Self::lists_edge(entries, b, a))
                },
    {
        let g = GraphModel::empty(typ);
        Self::lemma_empty_wf(typ);
        g.lemma_add_entries(entries);
        assert forall|a: Id, b: Id| !#[trigger] g.neighbors(a).contains(b) by {}
    }
}

} // verus!
