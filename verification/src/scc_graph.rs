//! The directed-graph collection and strongly-connected-components algorithm
//! that the import-cycle scope builder relies on, from the petgraph crate.
//!
//! The graph type is opaque to verification; its node and edge contents are
//! named by two specification functions, and each method the scope builder
//! calls is wrapped with a contract stating what petgraph's source and
//! documentation show.

use vstd::prelude::*;

verus! {

#[verifier::external_type_specification]
#[verifier::external_body]
pub struct ExDirected(petgraph::Directed);

#[verifier::external_type_specification]
#[verifier::external_body]
#[verifier::reject_recursive_types(N)]
#[verifier::reject_recursive_types(E)]
#[verifier::reject_recursive_types(Ty)]
#[verifier::reject_recursive_types(S)]
pub struct ExGraphMap<N, E, Ty, S>(petgraph::graphmap::GraphMap<N, E, Ty, S>) where
    S: std::hash::BuildHasher;

/// The nodes a directed graph currently holds.
pub uninterp spec fn graph_nodes(
    g: petgraph::graphmap::GraphMap<
        u64,
        (),
        petgraph::Directed,
        std::collections::hash_map::RandomState,
    >,
) -> Set<u64>;

/// The directed edges a graph currently holds, as (source, target) pairs.
pub uninterp spec fn graph_edges(
    g: petgraph::graphmap::GraphMap<
        u64,
        (),
        petgraph::Directed,
        std::collections::hash_map::RandomState,
    >,
) -> Set<(u64, u64)>;

/// Relies on petgraph's `GraphMap::new`: creates an empty graph.
#[verifier::external_body]
pub(crate) fn graph_new() -> (g: petgraph::graphmap::GraphMap<
    u64,
    (),
    petgraph::Directed,
    std::collections::hash_map::RandomState,
>)
    ensures
        graph_nodes(g) == Set::<u64>::empty(),
        graph_edges(g) == Set::<(u64, u64)>::empty(),
{
    petgraph::graphmap::GraphMap::new()
}

/// Relies on petgraph's `GraphMap::add_edge`: adds the directed edge
/// `a -> b`, inserting either endpoint if it is not part of the graph yet
/// (re-adding an existing edge only updates its weight, here `()`).
#[verifier::external_body]
pub(crate) fn graph_add_edge(
    g: &mut petgraph::graphmap::GraphMap<
        u64,
        (),
        petgraph::Directed,
        std::collections::hash_map::RandomState,
    >,
    a: u64,
    b: u64,
)
    ensures
        graph_nodes(*final(g)) == graph_nodes(*old(g)).insert(a).insert(b),
        graph_edges(*final(g)) == graph_edges(*old(g)).insert((a, b)),
{
    g.add_edge(a, b, ());
}

/// Relies on petgraph's `GraphMap::all_edges`: yields every directed edge
/// exactly once (a `GraphMap` holds no parallel edges).
#[verifier::external_body]
pub(crate) fn graph_all_edges(
    g: &petgraph::graphmap::GraphMap<
        u64,
        (),
        petgraph::Directed,
        std::collections::hash_map::RandomState,
    >,
) -> (r: Vec<(u64, u64)>)
    ensures
        forall|e: (u64, u64)| #[trigger] r@.contains(e) <==> graph_edges(*g).contains(e),
        r@.no_duplicates(),
{
    g.all_edges().map(|(a, b, _)| (a, b)).collect()
}

/// Relies on petgraph's `GraphMap::neighbors`: yields every node with an
/// outgoing edge from `a`, each exactly once; empty if `a` is not in the
/// graph.
#[verifier::external_body]
pub(crate) fn graph_neighbors(
    g: &petgraph::graphmap::GraphMap<
        u64,
        (),
        petgraph::Directed,
        std::collections::hash_map::RandomState,
    >,
    a: u64,
) -> (r: Vec<u64>)
    ensures
        forall|m: u64| #[trigger] r@.contains(m) <==> graph_edges(*g).contains((a, m)),
        r@.no_duplicates(),
{
    g.neighbors(a).collect()
}

/// A walk along the edges of an edge set.
pub open spec fn is_edge_walk(es: Set<(u64, u64)>, p: Seq<u64>) -> bool {
    forall|i: int|
        #![trigger es.contains((p[i], p[i + 1]))]
        0 <= i < p.len() - 1 ==> es.contains((p[i], p[i + 1]))
}

/// Whether `b` can be reached from `a` along the edge set (trivially true
/// for `a == b`).
pub open spec fn edge_reaches(es: Set<(u64, u64)>, a: u64, b: u64) -> bool {
    exists|p: Seq<u64>| is_edge_walk(es, p) && p.len() > 0 && p[0] == a && p.last() == b
}

/// Every node reaches itself.
pub proof fn lemma_edge_reaches_self(es: Set<(u64, u64)>, a: u64)
    ensures
        edge_reaches(es, a, a),
{
    let p = seq![a];
    assert(is_edge_walk(es, p));
    assert(p[0] == a && p.last() == a);
}

/// Relies on petgraph's `algo::tarjan_scc`: partitions the graph's nodes into
/// strongly connected components — every node in exactly one component, any
/// two nodes of one component mutually reachable along the graph's edges —
/// and returns the components in postorder (reverse topological order of the
/// condensation), so an edge between two different components always points
/// at an earlier component.
#[verifier::external_body]
pub(crate) fn graph_tarjan_scc(
    g: &petgraph::graphmap::GraphMap<
        u64,
        (),
        petgraph::Directed,
        std::collections::hash_map::RandomState,
    >,
) -> (r: Vec<Vec<u64>>)
    ensures
        forall|n: u64|
            graph_nodes(*g).contains(n) <==> exists|i: int|
                0 <= i < r@.len() && (#[trigger] r@[i])@.contains(n),
        forall|i: int, n: u64|
            #![trigger r@[i]@.contains(n)]
            0 <= i < r@.len() && r@[i]@.contains(n) ==> graph_nodes(*g).contains(n),
        forall|i: int, j: int, n: u64|
            #![trigger r@[i]@.contains(n), r@[j]@.contains(n)]
            0 <= i < r@.len() && 0 <= j < r@.len() && r@[i]@.contains(n) && r@[j]@.contains(n)
                ==> i == j,
        forall|i: int| 0 <= i < r@.len() ==> (#[trigger] r@[i])@.len() > 0,
        forall|i: int| 0 <= i < r@.len() ==> (#[trigger] r@[i])@.no_duplicates(),
        forall|i: int, a: u64, b: u64|
            #![trigger r@[i]@.contains(a), r@[i]@.contains(b)]
            0 <= i < r@.len() && r@[i]@.contains(a) && r@[i]@.contains(b) ==> edge_reaches(
                graph_edges(*g),
                a,
                b,
            ),
        forall|i: int, j: int, a: u64, b: u64|
            #![trigger r@[i]@.contains(a), r@[j]@.contains(b)]
            0 <= i < r@.len() && 0 <= j < r@.len() && i != j && r@[i]@.contains(a)
                && r@[j]@.contains(b) && graph_edges(*g).contains((a, b)) ==> j < i,
{
    petgraph::algo::tarjan_scc(g)
}

} // verus!
