use map_generator::graph::{create_neighbour_map, MapGraph};
use petgraph::stable_graph::{NodeIndex, StableGraph};

fn graph_of(weights: &[usize], edges: &[(usize, usize)]) -> MapGraph {
    let mut graph = StableGraph::<usize, usize>::new();
    let mut nodes = Vec::new();
    for weight in weights {
        nodes.push(graph.add_node(*weight).index());
    }
    for (a, b) in edges {
        graph.add_edge(NodeIndex::new(*a), NodeIndex::new(*b), 0);
    }
    MapGraph { graph, nodes }
}

#[test]
fn index_records_each_edge_at_both_ends() {
    let map_graph = graph_of(&[1, 2, 3], &[(0, 1), (1, 2), (0, 2)]);
    let index = create_neighbour_map(&map_graph);
    assert_eq!(index.len(), 3);
    assert_eq!(index.get(&0), Some(&vec![(0, 2), (0, 1)]));
    assert_eq!(index.get(&1), Some(&vec![(0, 1), (1, 2)]));
    assert_eq!(index.get(&2), Some(&vec![(0, 2), (1, 2)]));
}

#[test]
fn index_of_a_graph_without_edges_is_empty() {
    let map_graph = graph_of(&[1, 2, 3], &[]);
    assert!(create_neighbour_map(&map_graph).is_empty());
}

#[test]
fn index_follows_the_order_of_the_node_list() {
    let mut map_graph = graph_of(&[1, 2, 3], &[(0, 1), (2, 1)]);
    map_graph.nodes = vec![2, 0, 1];
    let index = create_neighbour_map(&map_graph);
    assert_eq!(index.get(&1), Some(&vec![(2, 1), (0, 1)]));
    assert_eq!(index.get(&0), Some(&vec![(0, 1)]));
    assert_eq!(index.get(&2), Some(&vec![(2, 1)]));
}

#[test]
fn index_records_an_edge_to_itself_twice() {
    let map_graph = graph_of(&[1, 2], &[(1, 1)]);
    let index = create_neighbour_map(&map_graph);
    assert_eq!(index.len(), 1);
    assert_eq!(index.get(&1), Some(&vec![(1, 1), (1, 1)]));
}

#[test]
fn index_skips_nodes_that_are_not_listed() {
    let mut map_graph = graph_of(&[1, 2, 3], &[(0, 1), (1, 2)]);
    map_graph.nodes = vec![0];
    let index = create_neighbour_map(&map_graph);
    assert_eq!(index.len(), 2);
    assert_eq!(index.get(&0), Some(&vec![(0, 1)]));
    assert_eq!(index.get(&1), Some(&vec![(0, 1)]));
    assert_eq!(index.get(&2), None);
}

#[test]
fn index_keeps_parallel_edges() {
    let map_graph = graph_of(&[1, 2], &[(0, 1), (0, 1), (1, 0)]);
    let index = create_neighbour_map(&map_graph);
    assert_eq!(index.get(&0), Some(&vec![(0, 1), (0, 1), (1, 0)]));
    assert_eq!(index.get(&1), Some(&vec![(0, 1), (0, 1), (1, 0)]));
}
