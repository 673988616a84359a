//! From a description of a graph to the graph and its two traversals.

use crate::graph::Graph;
use crate::model::{GraphModel, GraphType, Id};
use vstd::prelude::*;

verus! {

/// What is asked: the kind of graph, for each origin its destinations, in
/// the order in which they are to be added, and where to start.
#[derive(Debug, Clone)]
pub struct Entry {
    pub graph_type: GraphType,
    pub edges: Vec<(String, Vec<String>)>,
    pub start: String,
}

/// What is answered: the graph that was built, both traversals from the
/// start, and the start itself.
#[derive(Debug, Clone)]
pub struct Response {
    pub graph: Graph,
    pub bfs_result: Vec<String>,
    pub dfs_result: Vec<String>,
    pub start: String,
}

/// The entries of an edge list as values: each origin with its destinations.
pub open spec fn entries_view(edges: Seq<(String, Vec<String>)>) -> Seq<(Id, Seq<Id>)> {
    Seq::new(edges.len(), |i: int| (edges[i].0@, edges[i].1.deep_view()))
}

/// Builds the graph of the given kind from an edge list: the entries are
/// taken in order, and within an entry the destinations in order, each added
/// as an edge from the entry's origin. An origin without destinations adds
/// nothing.
pub fn build(typ: GraphType, edges: &Vec<(String, Vec<String>)>) -> (g: Graph)
    ensures
        g.wf(),
        g@ == GraphModel::empty(typ).add_entries(entries_view(edges@)),
{
    let ghost entries = entries_view(edges@);
    let mut g = Graph::new(typ);
    let mut i: usize = 0;
    proof {
        assert(entries.take(0) =~= Seq::empty());
    }
    while i < edges.len()
        invariant
            i <= edges.len(),
            entries == entries_view(edges@),
            g.wf(),
            g@ == GraphModel::empty(typ).add_entries(entries.take(i as int)),
        decreases edges.len() - i,
    {
        let origin = &edges[i].0;
        let destinations = &edges[i].1;
        let ghost before = g@;
        let ghost listed = destinations.deep_view();
        let mut k: usize = 0;
        proof {
            assert(listed.take(0) =~= Seq::empty());
        }
        while k < destinations.len()
            invariant
                k <= destinations.len(),
                listed == destinations.deep_view(),
                g.wf(),
                g@ == before.add_edges_from(origin@, listed.take(k as int)),
            decreases destinations.len() - k,
        {
            g.add_edge(origin, &destinations[k]);
            proof {
                let longer = listed.take(k as int + 1);
                assert(longer.drop_last() =~= listed.take(k as int));
                assert(longer.last() == destinations[k as int]@);
            }
            k += 1;
        }
        proof {
            assert(listed.take(k as int) =~= listed);
            let longer = entries.take(i as int + 1);
            assert(longer.drop_last() =~= entries.take(i as int));
            assert(longer.last() == (origin@, listed));
        }
        i += 1;
    }
    proof {
        assert(entries.take(i as int) =~= entries);
    }
    g
}

/// Builds the graph that `entry` describes and traverses it from the entry's
/// start, breadth first and depth first.
pub fn analyse(entry: &Entry) -> (response: Response)
    ensures
        response.graph.wf(),
        response.graph@ == GraphModel::empty(entry.graph_type).add_entries(
            entries_view(entry.edges@),
        ),
        response.bfs_result.deep_view() == response.graph@.bfs(entry.start@),
        response.dfs_result.deep_view() == response.graph@.dfs(entry.start@),
        response.start@ == entry.start@,
{
    let graph = build(entry.graph_type, &entry.edges);
    let bfs_result = graph.bfs(&entry.start);
    let dfs_result = graph.dfs(&entry.start);
    Response { graph, bfs_result, dfs_result, start: entry.start.clone() }
}

} // verus!
