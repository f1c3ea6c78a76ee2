//! Procedural generation of a tile map of connected rooms from a connectivity graph.
//!
//! The graph's nodes stand for rooms and its edges for doors between them. A
//! generation places a start room in the centre of an empty map and walks the
//! graph from there: for each neighbour of a placed room it picks, at random, a
//! room template and one of the precomputed ways to lay it against the placed
//! room, and places the new room where it collides with nothing.
//!
//! - `common`: coordinates, tile codes and row-major indexing.
//! - `map::room_template_definitions`: the catalogue of room shapes.
//! - `map::room_templates`: templates, and for every two of them the ways to lay
//!   one against the other.
//! - `map::room`: placed rooms and their door connections.
//! - `map`: the tile grid, the placement check and the commit of a room.
//! - `map::invariants`: what it means for the grid and the rooms to agree.
//! - `graph`: the input graph and its neighbour index.
//! - `random`: the generator and the shuffle.
//! - `render`: the rows of a grid that a renderer prints.
//! - `crawler`: the placement engine; `crawler::invariants` says what holds of
//!   every map it builds, `crawler::laws` proves it.

use crate::crawler::laws::lemma_grows_from_itself;
use crate::crawler::laws::lemma_grows_on;
use crate::crawler::lemma_visited_kept;
use crate::crawler::seeded;
use crate::crawler::try_node_recursive;
use crate::crawler::visited;
use crate::graph::MapGraph;
use crate::graph::create_neighbour_map;
use crate::graph::edges_from;
use crate::graph::graph_weights;
use crate::graph::index_of_graph;
use crate::graph::index_view;
use crate::graph::neighbour_index;
use crate::map::MapView;
use crate::random::fresh_rng;
use crate::map::TileMap;
use crate::map::invariants::lemma_empty_consistent;
use crate::map::room_templates::RoomTemplates;
use crate::map::room_templates::catalogue;
use crate::map::room_templates::has_start;
use crate::map::room_templates::linked;
use rand::rngs::StdRng;
use vstd::prelude::*;

pub mod common;
pub mod crawler;
pub mod graph;
pub mod map;
pub mod random;
pub mod render;

verus! {

/// The size of the map to generate.
pub struct Config {
    pub width: i32,
    pub height: i32,
}

/// The empty map of `width` by `height` cells.
pub open spec fn empty_map(width: int, height: int) -> MapView {
    MapView {
        width,
        height,
        tiles: Seq::new((width * height) as nat, |i: int| 0u8),
        rooms: Map::empty(),
    }
}

/// The map on which a generation builds: the empty map of `width` by `height`
/// cells with, where it can be placed, the seed for the first of the graph's
/// nodes.
pub open spec fn first_map(map_graph: MapGraph, width: int, height: int) -> MapView {
    if map_graph.nodes@.len() > 0 {
        seeded(empty_map(width, height), linked(catalogue()), map_graph, map_graph.nodes@[0])
    } else {
        empty_map(width, height)
    }
}

/// What holds of every map that is generated for the graph on `width` by
/// `height` cells, whatever the generator gives: the map is sound, and its
/// connections are edges of the graph; it has grown from the first map, and is
/// empty where the seed could not be placed; it is the first map where the
/// graph has no edge; and nothing is left to do for any neighbour of a placed
/// room.
pub open spec fn generated(map: MapView, map_graph: MapGraph, width: int, height: int) -> bool {
    &&& map.sound(linked(catalogue()), graph_weights(map_graph.graph))
    &&& map.follows(map_graph.graph)
    &&& map.grows_from(first_map(map_graph, width, height))
    &&& first_map(map_graph, width, height) == empty_map(width, height) ==> map == empty_map(
        width,
        height,
    )
    &&& edges_from(map_graph.graph, map_graph.nodes@, map_graph.nodes@.len()).len() == 0 ==> map
        == first_map(map_graph, width, height)
    &&& forall|node: usize| #[trigger]
        map.rooms.contains_key(node) ==> visited(
            map,
            linked(catalogue()),
            map_graph,
            neighbour_index(edges_from(map_graph.graph, map_graph.nodes@, map_graph.nodes@.len())),
            node,
        )
}

/// Generates a map for the graph with a generator of its own, which the
/// operating system seeds: what `generate_map_with` does with that generator.
pub fn generate_map(map_graph: &MapGraph, config: Config) -> (map: TileMap)
    requires
        0 < config.width,
        0 < config.height,
        config.width * config.height <= i32::MAX,
    ensures
        generated(map@, *map_graph, config.width as int, config.height as int),
{
    let mut rng = fresh_rng();
    generate_map_with(map_graph, config, &mut rng)
}

/// Generates a map for the graph with the generator given: places the seed for
/// the first node in the centre of an empty map, and from there visits the
/// graph's nodes, placing for each neighbour of a placed room a room of its own
/// where one can be placed. Where the seed cannot be placed the map stays
/// empty. Whatever the generator gives, the map is sound, its connections are
/// edges of the graph, and nothing is left to do for any neighbour of a placed
/// room.
pub fn generate_map_with(map_graph: &MapGraph, config: Config, rng: &mut StdRng) -> (map: TileMap)
    requires
        0 < config.width,
        0 < config.height,
        config.width * config.height <= i32::MAX,
    ensures
        generated(map@, *map_graph, config.width as int, config.height as int),
{
    let mut map = TileMap::new(config.width, config.height);
    let templates = RoomTemplates::new();
    let neighbour_map = create_neighbour_map(map_graph);
    let ghost library = linked(catalogue());
    let ghost weights = graph_weights(map_graph.graph);
    let ghost empty = empty_map(config.width as int, config.height as int);
    let ghost first = first_map(*map_graph, config.width as int, config.height as int);
    let ghost index = index_view(neighbour_map);
    proof {
        lemma_empty_consistent(empty);
        lemma_grows_from_itself(empty);
        assert(empty.sound(library, weights));
        assert(empty.follows(map_graph.graph));
    }
    let mut i: usize = 0;
    while i < map_graph.nodes.len()
        invariant
            i <= map_graph.nodes.len(),
            library == linked(catalogue()),
            templates@ == library,
            templates.wf(),
            has_start(library),
            weights == graph_weights(map_graph.graph),
            empty == empty_map(config.width as int, config.height as int),
            first == first_map(*map_graph, config.width as int, config.height as int),
            index == index_view(neighbour_map),
            index_of_graph(index, map_graph.graph),
            map@.sound(library, weights),
            map@.follows(map_graph.graph),
            i == 0 ==> map@ == empty,
            i > 0 ==> map@.grows_from(first),
            first == empty ==> map@ == empty,
            index == neighbour_index(
                edges_from(map_graph.graph, map_graph.nodes@, map_graph.nodes@.len()),
            ),
            i > 0 && edges_from(map_graph.graph, map_graph.nodes@, map_graph.nodes@.len()).len()
                == 0 ==> map@ == first,
            forall|node: usize| #[trigger]
                map@.rooms.contains_key(node) ==> visited(map@, library, *map_graph, index, node),
        decreases map_graph.nodes.len() - i,
    {
        let node = map_graph.nodes[i];
        let ghost before = map@;
        try_node_recursive(node, map_graph, &neighbour_map, &mut map, &templates, rng);
        proof {
            if i > 0 {
                lemma_grows_on(first, before, map@);
            } else {
                assert(first == seeded(empty, library, *map_graph, node));
            }
            if first == empty {
                assert(seeded(empty, library, *map_graph, node) == empty);
                assert(!empty.rooms.contains_key(node));
            }
            if edges_from(map_graph.graph, map_graph.nodes@, map_graph.nodes@.len()).len() == 0 {
                assert(!index.contains_key(node));
                assert(seeded(before, library, *map_graph, node) == first);
            }
            assert forall|other: usize| #[trigger] map@.rooms.contains_key(other) implies visited(
                map@,
                library,
                *map_graph,
                index,
                other,
            ) by {
                if other != node && before.rooms.contains_key(other) {
                    lemma_visited_kept(before, map@, library, *map_graph, index, other);
                }
            }
        }
        i += 1;
    }
    map
}

} // verus!
