//! The input graph and the neighbour index that is derived from it.

use petgraph::stable_graph::NodeIndex;
use petgraph::stable_graph::StableGraph;
use std::collections::HashMap;
use vstd::prelude::*;

verus! {

broadcast use vstd::std_specs::hash::group_hash_axioms;

/// petgraph's marker of graphs with directed edges. It holds nothing.
#[verifier::external_type_specification]
#[verifier::external_body]
pub struct ExDirected(petgraph::Directed);

/// petgraph's `StableGraph`. What the library reads of a graph, it reads
/// through `node_weights`, `neighbours` and `edge_count`.
#[verifier::external_type_specification]
#[verifier::external_body]
#[verifier::reject_recursive_types(N)]
#[verifier::reject_recursive_types(E)]
#[verifier::reject_recursive_types(Ty)]
#[verifier::reject_recursive_types(Ix)]
pub struct ExStableGraph<N, E, Ty, Ix>(StableGraph<N, E, Ty, Ix>);

/// The weights of the graph's nodes, in the order of their indices: what
/// `StableGraph::node_weights` yields.
pub uninterp spec fn graph_weights(graph: StableGraph<usize, usize>) -> Seq<usize>;

/// The indices of the nodes that an edge leads to from the node of index `node`,
/// in the order in which the graph enumerates them: what
/// `StableGraph::neighbors` yields for that node. Of `node`, petgraph's
/// `NodeIndex::new` keeps the low 32 bits.
pub uninterp spec fn graph_neighbours(graph: StableGraph<usize, usize>, node: usize) -> Seq<usize>;

/// For each node, the edges at that node, each as the pair of the node it
/// leads from and the node it leads to.
pub type NeighbourMap = HashMap<usize, Vec<(usize, usize)>>;

/// What a `NeighbourMap` stands for.
pub open spec fn index_view(neighbour_map: NeighbourMap) -> Map<usize, Seq<(usize, usize)>> {
    neighbour_map@.map_values(|edges: Vec<(usize, usize)>| edges@)
}

/// The input of a generation: the connectivity graph and its nodes in canonical order.
/// The first node is the seed.
pub struct MapGraph {
    pub graph: StableGraph<usize, usize>,
    pub nodes: Vec<usize>,
}

/// Calls `StableGraph::node_weights` and collects what it yields: the weight of
/// every node, in the order of the node indices.
#[verifier::external_body]
pub(crate) fn node_weights(graph: &StableGraph<usize, usize>) -> (weights: Vec<usize>)
    ensures
        weights@ == graph_weights(*graph),
{
    graph.node_weights().map(|w| *w).collect()
}

/// Calls `StableGraph::neighbors` on the node of index `node` and collects the
/// index of every node it yields, in the order in which they are yielded. It
/// yields nothing for a node that the graph does not hold.
#[verifier::external_body]
pub(crate) fn neighbours(graph: &StableGraph<usize, usize>, node: usize) -> (targets: Vec<usize>)
    ensures
        targets@ == graph_neighbours(*graph, node),
{
    graph.neighbors(NodeIndex::new(node)).map(|n| n.index()).collect()
}

/// Calls `StableGraph::edges` on the node of index `node` and counts what it
/// yields. In a directed graph this walks the same list of outgoing edges as
/// `StableGraph::neighbors` does, one item for each edge.
#[verifier::external_body]
pub(crate) fn edge_count(graph: &StableGraph<usize, usize>, node: usize) -> (count: usize)
    ensures
        count == graph_neighbours(*graph, node).len(),
{
    graph.edges(NodeIndex::new(node)).count()
}

/// The edges that lead from the first `n` of `nodes`, node by node, each node's
/// edges in the order in which the graph enumerates them.
pub open spec fn edges_from(graph: StableGraph<usize, usize>, nodes: Seq<usize>, n: nat) -> Seq<
    (usize, usize),
>
    decreases n,
{
    if n == 0 {
        Seq::empty()
    } else {
        let node = nodes[n - 1];
        edges_from(graph, nodes, (n - 1) as nat) + graph_neighbours(graph, node).map_values(
            |target: usize| (node, target),
        )
    }
}

/// What the first `n` of `edges` record at `node`: each edge once for the end at
/// which `node` stands, so an edge from `node` to itself twice.
pub open spec fn recorded_at(edges: Seq<(usize, usize)>, node: usize, n: nat) -> Seq<(usize, usize)>
    decreases n,
{
    if n == 0 {
        Seq::empty()
    } else {
        let before = recorded_at(edges, node, (n - 1) as nat);
        let edge = edges[n - 1];
        let with_source = if edge.0 == node {
            before.push(edge)
        } else {
            before
        };
        if edge.1 == node {
            with_source.push(edge)
        } else {
            with_source
        }
    }
}

/// The index of `edges` by node: under each node at which an edge stands, the
/// edges at that node.
pub open spec fn neighbour_index(edges: Seq<(usize, usize)>) -> Map<usize, Seq<(usize, usize)>> {
    Map::new(
        |node: usize| recorded_at(edges, node, edges.len()).len() > 0,
        |node: usize| recorded_at(edges, node, edges.len()),
    )
}

/// Every edge recorded at a node stands at that node.
pub proof fn lemma_recorded_at(edges: Seq<(usize, usize)>, node: usize, n: nat, i: int)
    requires
        n <= edges.len(),
        0 <= i < recorded_at(edges, node, n).len(),
    ensures
        edges.contains(recorded_at(edges, node, n)[i]),
        recorded_at(edges, node, n)[i].0 == node || recorded_at(edges, node, n)[i].1 == node,
    decreases n,
{
    if n > 0 {
        let before = recorded_at(edges, node, (n - 1) as nat);
        if i < before.len() {
            lemma_recorded_at(edges, node, (n - 1) as nat, i);
        } else {
            assert(edges[n - 1] == recorded_at(edges, node, n)[i]);
        }
    }
}

/// Every edge that leads from one of the listed nodes is an edge of the graph.
pub proof fn lemma_edges_from(graph: StableGraph<usize, usize>, nodes: Seq<usize>, n: nat, i: int)
    requires
        n <= nodes.len(),
        0 <= i < edges_from(graph, nodes, n).len(),
    ensures
        graph_neighbours(graph, edges_from(graph, nodes, n)[i].0).contains(
            edges_from(graph, nodes, n)[i].1,
        ),
    decreases n,
{
    if n > 0 {
        let before = edges_from(graph, nodes, (n - 1) as nat);
        if i < before.len() {
            lemma_edges_from(graph, nodes, (n - 1) as nat, i);
        } else {
            let node = nodes[n - 1];
            let targets = graph_neighbours(graph, node);
            assert(edges_from(graph, nodes, n)[i] == (node, targets[i - before.len()]));
        }
    }
}

/// Whether every edge that the index records is an edge of the graph, recorded
/// at one of its ends.
pub open spec fn index_of_graph(
    index: Map<usize, Seq<(usize, usize)>>,
    graph: StableGraph<usize, usize>,
) -> bool {
    forall|node: usize, j: int|
        index.contains_key(node) && 0 <= j < index[node].len() ==> {
            let edge = #[trigger] index[node][j];
            (edge.0 == node || edge.1 == node) && graph_neighbours(graph, edge.0).contains(edge.1)
        }
}

/// The neighbour index of a graph records edges of the graph only.
pub proof fn lemma_neighbour_index(graph: StableGraph<usize, usize>, nodes: Seq<usize>)
    ensures
        index_of_graph(neighbour_index(edges_from(graph, nodes, nodes.len())), graph),
{
    let edges = edges_from(graph, nodes, nodes.len());
    let index = neighbour_index(edges);
    assert forall|node: usize, j: int|
        index.contains_key(node) && 0 <= j < index[node].len() implies {
        let edge = #[trigger] index[node][j];
        (edge.0 == node || edge.1 == node) && graph_neighbours(graph, edge.0).contains(edge.1)
    } by {
        lemma_recorded_at(edges, node, edges.len(), j);
        let edge = index[node][j];
        let i = choose|i: int| 0 <= i < edges.len() && edges[i] == edge;
        lemma_edges_from(graph, nodes, nodes.len(), i);
    }
}

/// Adds `edge` to the edges under `key`.
fn record(neighbour_map: &mut NeighbourMap, key: usize, edge: (usize, usize))
    ensures
        final(neighbour_map)@.dom() == old(neighbour_map)@.dom().insert(key),
        final(neighbour_map)@[key]@ == (if old(neighbour_map)@.contains_key(key) {
            old(neighbour_map)@[key]@
        } else {
            Seq::empty()
        }).push(edge),
        forall|other: usize|
            other != key && old(neighbour_map)@.contains_key(other) ==> final(neighbour_map)@[other]
                == old(neighbour_map)@[other],
{
    let mut edges: Vec<(usize, usize)> = match neighbour_map.remove(&key) {
        Some(edges) => edges,
        None => Vec::new(),
    };
    edges.push(edge);
    neighbour_map.insert(key, edges);
    assert(neighbour_map@.dom() =~= old(neighbour_map)@.dom().insert(key));
}

/// Every edge of the graph that leads from one of its listed nodes.
fn all_edges(map_graph: &MapGraph) -> (edges: Vec<(usize, usize)>)
    ensures
        edges@ == edges_from(map_graph.graph, map_graph.nodes@, map_graph.nodes@.len()),
{
    let mut edges: Vec<(usize, usize)> = Vec::new();
    let mut i: usize = 0;
    while i < map_graph.nodes.len()
        invariant
            i <= map_graph.nodes.len(),
            edges@ == edges_from(map_graph.graph, map_graph.nodes@, i as nat),
        decreases map_graph.nodes.len() - i,
    {
        let node_a: usize = map_graph.nodes[i];
        let targets = neighbours(&map_graph.graph, node_a);
        let ghost base = edges@;
        let mut j: usize = 0;
        while j < targets.len()
            invariant
                j <= targets.len(),
                edges@ == base + targets@.take(j as int).map_values(
                    |target: usize| (node_a, target),
                ),
            decreases targets.len() - j,
        {
            edges.push((node_a, targets[j]));
            j += 1;
            assert(edges@ =~= base + targets@.take(j as int).map_values(
                |target: usize| (node_a, target),
            ));
        }
        assert(targets@.take(targets.len() as int) =~= targets@);
        i += 1;
    }
    edges
}

/// Builds the neighbour index of the graph: every edge that leads from one of
/// its listed nodes is recorded at the node it leads from and at the node it
/// leads to.
pub fn create_neighbour_map(map_graph: &MapGraph) -> (neighbour_map: NeighbourMap)
    ensures
        index_view(neighbour_map) == neighbour_index(
            edges_from(map_graph.graph, map_graph.nodes@, map_graph.nodes@.len()),
        ),
        index_of_graph(index_view(neighbour_map), map_graph.graph),
{
    proof {
        lemma_neighbour_index(map_graph.graph, map_graph.nodes@);
    }
    let edges = all_edges(map_graph);
    let mut neighbour_map: NeighbourMap = HashMap::new();
    let mut i: usize = 0;
    while i < edges.len()
        invariant
            i <= edges.len(),
            forall|node: usize|
                neighbour_map@.contains_key(node) <==> recorded_at(edges@, node, i as nat).len()
                    > 0,
            forall|node: usize|
                neighbour_map@.contains_key(node) ==> (#[trigger] neighbour_map@[node])@
                    == recorded_at(edges@, node, i as nat),
        decreases edges.len() - i,
    {
        let (node_a, node_b) = edges[i];
        record(&mut neighbour_map, node_a, (node_a, node_b));
        record(&mut neighbour_map, node_b, (node_a, node_b));
        i += 1;
    }
    assert(index_view(neighbour_map) =~= neighbour_index(edges@));
    neighbour_map
}

} // verus!
