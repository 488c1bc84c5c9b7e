//! The graph of the basic blocks, held by `graphene`'s adjacency lists.
use graphene::common::AdjListGraph;

use vstd::prelude::*;

verus! {

/// `graphene::common::AdjListGraph`, a directed graph whose vertices are
/// identified by their values.
#[verifier::external_type_specification]
#[verifier::external_body]
#[verifier::reject_recursive_types(V)]
#[verifier::reject_recursive_types(W)]
pub struct ExAdjListGraph<V, W>(AdjListGraph<V, W>);

/// The vertices of a graph in the order they were added.
pub uninterp spec fn graph_vertices(g: AdjListGraph<usize, ()>) -> Seq<usize>;

/// The targets of the edges out of each vertex of a graph, in the order the
/// edges were added.
pub uninterp spec fn graph_succs(g: AdjListGraph<usize, ()>) -> Map<usize, Seq<usize>>;

/// The edges of a graph without vertices.
pub open spec fn no_edges() -> Map<usize, Seq<usize>> {
    Map::empty()
}

/// `BaseGraph::empty_graph` gives a graph without vertices.
#[verifier::external_body]
pub(crate) fn empty_graph() -> (g: AdjListGraph<usize, ()>)
    ensures
        graph_vertices(g).len() == 0,
        graph_succs(g) == no_edges(),
{
    graphene::core::BaseGraph::empty_graph()
}

/// `BaseGraph::add_vertex` adds a vertex without edges, and fails exactly where
/// the graph already holds it, leaving the graph as it is.
#[verifier::external_body]
pub(crate) fn add_vertex(g: &mut AdjListGraph<usize, ()>, v: usize) -> (r: Result<(), ()>)
    ensures
        r is Err <==> graph_vertices(*old(g)).contains(v),
        r is Err ==> *final(g) == *old(g),
        r is Ok ==> graph_vertices(*final(g)) == graph_vertices(*old(g)).push(v),
        r is Ok ==> graph_succs(*final(g)) == graph_succs(*old(g)).insert(v, seq![]),
{
    graphene::core::BaseGraph::add_vertex(g, v)
}

/// `BaseGraph::add_edge` adds an edge behind the other edges of its source, and
/// fails exactly where the graph lacks one of the ends, leaving the graph as it
/// is.
#[verifier::external_body]
pub(crate) fn add_edge(g: &mut AdjListGraph<usize, ()>, source: usize, sink: usize) -> (r: Result<
    (),
    (),
>)
    ensures
        r is Ok <==> graph_vertices(*old(g)).contains(source) && graph_vertices(
            *old(g),
        ).contains(sink),
        r is Err ==> *final(g) == *old(g),
        r is Ok ==> graph_vertices(*final(g)) == graph_vertices(*old(g)),
        r is Ok ==> graph_succs(*final(g)) == graph_succs(*old(g)).insert(
            source,
            graph_succs(*old(g))[source].push(sink),
        ),
{
    graphene::core::BaseGraph::add_edge(g, graphene::core::BaseEdge::new(source, sink, ()))
}

/// `BaseGraph::edges_sourced_in` lists the edges out of a vertex in the order
/// they were added; here, their targets.
#[verifier::external_body]
pub(crate) fn edges_sourced_in(g: &AdjListGraph<usize, ()>, v: usize) -> (r: Vec<usize>)
    ensures
        r@ == (if graph_vertices(*g).contains(v) {
            graph_succs(*g)[v]
        } else {
            Seq::empty()
        }),
{
    graphene::core::BaseGraph::edges_sourced_in(g, v).into_iter().map(|e| e.sink).collect()
}

/// The sources of the edges into `v`: each vertex, in order, as often as it has
/// such an edge.
pub open spec fn sources_into(
    vertices: Seq<usize>,
    succs: Map<usize, Seq<usize>>,
    v: usize,
) -> Seq<usize>
    decreases vertices.len(),
{
    if vertices.len() == 0 {
        Seq::empty()
    } else {
        sources_into(vertices.drop_last(), succs, v) + Seq::new(
            succs[vertices.last()].filter(|t: usize| t == v).len(),
            |i: int| vertices.last(),
        )
    }
}

/// `BaseGraph::edges_sinked_in` lists the edges into a vertex, grouped by their
/// sources in the order of the vertices; here, their sources.
#[verifier::external_body]
pub(crate) fn edges_sinked_in(g: &AdjListGraph<usize, ()>, v: usize) -> (r: Vec<usize>)
    ensures
        r@ == sources_into(graph_vertices(*g), graph_succs(*g), v),
{
    graphene::core::BaseGraph::edges_sinked_in(g, v).into_iter().map(|e| e.source).collect()
}

} // verus!
