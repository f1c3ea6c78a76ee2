use map_generator::crawler::{
    candidate_templates, connect_rooms, seed_start_room, try_combinations, try_node_recursive,
};
use map_generator::graph::{create_neighbour_map, MapGraph};
use map_generator::map::room::{align_room_b, Room, RoomType};
use map_generator::map::room_templates::{connecting_door, get, RoomTemplates};
use map_generator::map::{add_or_update_room, can_place_room, TileMap};
use map_generator::{generate_map, generate_map_with, Config};
use petgraph::stable_graph::{NodeIndex, StableGraph};
use rand::rngs::StdRng;
use rand::SeedableRng;

fn graph_of(weights: &[usize], edges: &[(usize, usize)]) -> MapGraph {
    let mut graph = StableGraph::<usize, usize>::new();
    let mut nodes = Vec::new();
    for weight in weights {
        nodes.push(graph.add_node(*weight).index());
    }
    for (a, b) in edges {
        graph.add_edge(NodeIndex::new(*a), NodeIndex::new(*b), 0);
    }
    MapGraph { graph, nodes }
}

fn generate(map_graph: &MapGraph, width: i32, height: i32, seed: u64) -> TileMap {
    let mut rng = StdRng::seed_from_u64(seed);
    generate_map_with(map_graph, Config { width, height }, &mut rng)
}

fn step(door: u8) -> (i32, i32) {
    match door {
        2 => (0, -1),
        3 => (1, 0),
        4 => (0, 1),
        5 => (-1, 0),
        _ => (0, 0),
    }
}

/// The cells that the room covers, each with the tile that covers it.
fn footprint(room: &Room, width: i32) -> Vec<(i64, u8)> {
    let mut cells = Vec::new();
    for (k, tile) in room.tiles.iter().enumerate() {
        if *tile != 0 {
            let column = room.x as i64 + (k as i64 % room.template.w as i64);
            let row = room.y as i64 + (k as i64 / room.template.w as i64);
            cells.push((row * width as i64 + column, *tile));
        }
    }
    cells
}

/// Checks on a generated map what holds of every generated map.
fn check_map(map: &TileMap, weights: &[usize]) {
    let cells = map.tiles.len();
    assert_eq!(cells as i32, map.width * map.height);
    let mut covered = vec![0u32; cells];
    for (node, room) in map.rooms.iter() {
        assert_eq!(room.tiles.len(), room.template.tiles.len());
        for (k, tile) in room.tiles.iter().enumerate() {
            let authored = room.template.tiles[k];
            assert!(*tile == authored || (*tile == 7 && (2..=5).contains(&authored)));
        }
        for (k, tile) in room.tiles.iter().enumerate() {
            if *tile == 0 {
                continue;
            }
            let x = room.x + (k as i32 % room.template.w);
            let y = room.y + (k as i32 / room.template.w);
            assert!(0 <= x && x < map.width && 0 <= y && y < map.height);
            let cell = (y * map.width + x) as usize;
            assert_eq!(map.tiles[cell], *tile);
            covered[cell] += 1;
            if *tile == 8 {
                assert!(0 < x && x < map.width - 1 && 0 < y && y < map.height - 1);
            }
        }
        if room.template.room_type == RoomType::Boss {
            assert_eq!(weights[*node], *weights.last().unwrap());
        }
        for (k, tile) in room.tiles.iter().enumerate() {
            if *tile == 7 {
                let xy = (k as i32 % room.template.w + 1, k as i32 / room.template.w + 1);
                assert!(connections_of(room).iter().any(|connection| connection.3 == xy));
            }
        }
        for (door, connections) in room.door_connections.iter() {
            assert!((2..=5).contains(door));
            for connection in connections {
                assert_eq!(connection.node_a_idx, *node);
                let peer = map.rooms.get(&connection.node_b_idx).unwrap();
                let replies = peer.door_connections.get(&connecting_door(*door)).unwrap();
                let cell = (room.x + connection.xy.0 - 1, room.y + connection.xy.1 - 1);
                let wanted = (cell.0 + step(*door).0, cell.1 + step(*door).1);
                let found = replies.iter().any(|reply| {
                    reply.node_a_idx == connection.node_b_idx
                        && reply.node_b_idx == *node
                        && reply.direction != connection.direction
                        && (peer.x + reply.xy.0 - 1, peer.y + reply.xy.1 - 1) == wanted
                });
                assert!(found);
                let idx = ((connection.xy.1 - 1) * room.template.w + connection.xy.0 - 1) as usize;
                assert_eq!(room.tiles[idx], 7);
                assert_eq!(room.template.tiles[idx], *door);
            }
        }
    }
    for cell in 0..cells {
        assert!(map.tiles[cell] != 9);
        assert_eq!(covered[cell], if map.tiles[cell] != 0 { 1 } else { 0 });
    }
}

fn edges_of(map_graph: &MapGraph) -> Vec<(usize, usize)> {
    map_graph
        .graph
        .edge_indices()
        .map(|edge| {
            let (a, b) = map_graph.graph.edge_endpoints(edge).unwrap();
            (a.index(), b.index())
        })
        .collect()
}

/// Checks that every connection stands for an edge of the graph.
fn check_edges(map: &TileMap, map_graph: &MapGraph) {
    let edges = edges_of(map_graph);
    for (node, room) in map.rooms.iter() {
        for (_, _, peer, _, direction) in connections_of(room) {
            if direction {
                assert!(edges.contains(&(*node, peer)));
            } else {
                assert!(edges.contains(&(peer, *node)));
            }
        }
    }
}

/// Checks that no room can be placed for any neighbour without a room of any
/// placed room.
fn check_settled(map: &TileMap, map_graph: &MapGraph) {
    let templates = RoomTemplates::new();
    let edges = edges_of(map_graph);
    let weights: Vec<usize> = map_graph.graph.node_weights().cloned().collect();
    for (node, room_a) in map.rooms.iter() {
        for (a, b) in edges.iter() {
            let peer = if a == node {
                *b
            } else if b == node {
                *a
            } else {
                continue;
            };
            if peer >= weights.len() || map.rooms.contains_key(&peer) {
                continue;
            }
            let wanted = if weights[peer] == *weights.last().unwrap() {
                RoomType::Boss
            } else {
                RoomType::Normal
            };
            let doors = edges.iter().filter(|edge| edge.0 == peer).count() + 1;
            for id in 0..templates.rooms.len() {
                let template = &templates.rooms[id];
                if template.room_type != wanted || template.min_doors as usize > doors {
                    continue;
                }
                for combination in room_a.template.valid_combinations.get(&id).unwrap() {
                    let mut room_b = Room::new(get(&id, &templates));
                    let moved = align_room_b(room_a, &mut room_b, *combination);
                    assert!(!can_place_room(map, &moved, combination.3));
                }
            }
        }
    }
}

fn connections_of(room: &Room) -> Vec<(u8, usize, usize, (i32, i32), bool)> {
    let mut all = Vec::new();
    for door in 2u8..=5 {
        if let Some(connections) = room.door_connections.get(&door) {
            for c in connections {
                all.push((door, c.node_a_idx, c.node_b_idx, c.xy, c.direction));
            }
        }
    }
    all
}

fn peers_of(map: &TileMap, node: usize) -> Vec<usize> {
    let mut peers: Vec<usize> =
        connections_of(map.rooms.get(&node).unwrap()).iter().map(|c| c.2).collect();
    peers.sort();
    peers
}

fn same_maps(a: &TileMap, b: &TileMap) -> bool {
    if a.tiles != b.tiles || a.rooms.len() != b.rooms.len() {
        return false;
    }
    for (node, room) in a.rooms.iter() {
        match b.rooms.get(node) {
            Some(other) => {
                if (room.x, room.y) != (other.x, other.y)
                    || room.tiles != other.tiles
                    || room.template.tiles != other.template.tiles
                    || connections_of(room) != connections_of(other)
                {
                    return false;
                }
            }
            None => return false,
        }
    }
    true
}

#[test]
fn two_nodes_give_a_start_and_a_boss() {
    let map_graph = graph_of(&[1, 2], &[(0, 1)]);
    let map = generate(&map_graph, 40, 40, 0);
    check_map(&map, &[1, 2]);
    assert_eq!(map.rooms.len(), 2);
    let start = map.rooms.get(&0).unwrap();
    let boss = map.rooms.get(&1).unwrap();
    assert!(start.template.room_type == RoomType::Start);
    assert!(boss.template.room_type == RoomType::Boss);
    assert_eq!((start.x, start.y), (16, 18));
    let from_start = connections_of(start);
    let from_boss = connections_of(boss);
    assert_eq!(from_start.len(), 1);
    assert_eq!(from_boss.len(), 1);
    assert_eq!((from_start[0].1, from_start[0].2, from_start[0].4), (0, 1, true));
    assert_eq!((from_boss[0].1, from_boss[0].2, from_boss[0].4), (1, 0, false));
    assert_eq!(from_boss[0].0, connecting_door(from_start[0].0));
    assert_eq!(map.tiles.iter().filter(|t| **t == 7).count(), 2);
}

#[test]
fn chain_of_three_connects_neighbours_only() {
    let map_graph = graph_of(&[1, 1, 2], &[(0, 1), (1, 2)]);
    let map = generate(&map_graph, 40, 40, 0);
    check_map(&map, &[1, 1, 2]);
    assert_eq!(map.rooms.len(), 3);
    assert!(map.rooms.get(&0).unwrap().template.room_type == RoomType::Start);
    assert!(map.rooms.get(&1).unwrap().template.room_type == RoomType::Normal);
    assert!(map.rooms.get(&2).unwrap().template.room_type == RoomType::Boss);
    assert_eq!(peers_of(&map, 0), vec![1]);
    assert_eq!(peers_of(&map, 1), vec![0, 2]);
    assert_eq!(peers_of(&map, 2), vec![1]);
}

#[test]
fn complete_graph_of_five() {
    let mut edges = Vec::new();
    for a in 0..5 {
        for b in (a + 1)..5 {
            edges.push((a, b));
        }
    }
    let weights = [1, 1, 1, 1, 2];
    let map_graph = graph_of(&weights, &edges);
    let map = generate(&map_graph, 40, 40, 0);
    check_map(&map, &weights);
    check_edges(&map, &map_graph);
    check_settled(&map, &map_graph);
    assert!(map.rooms.len() <= 5);
    assert!(map.rooms.len() >= 1);
    assert!(map.rooms.get(&0).unwrap().template.room_type == RoomType::Start);
    if let Some(room) = map.rooms.get(&4) {
        assert!(room.template.room_type == RoomType::Boss);
    }
    for node in 1..4usize {
        if let Some(room) = map.rooms.get(&node) {
            assert!(room.template.room_type == RoomType::Normal);
        }
    }
    for (node, room) in map.rooms.iter() {
        for connection in connections_of(room) {
            let (a, b) = (*node.min(&connection.2), *node.max(&connection.2));
            assert!(edges.contains(&(a, b)));
        }
        if *node != 0 {
            assert!(!connections_of(room).is_empty());
        }
    }
}

#[test]
fn single_node_gives_the_start_room_alone() {
    let map_graph = graph_of(&[7], &[]);
    let map = generate(&map_graph, 40, 40, 0);
    check_map(&map, &[7]);
    assert_eq!(map.rooms.len(), 1);
    let start = map.rooms.get(&0).unwrap();
    assert!(start.template.room_type == RoomType::Start);
    assert_eq!((start.x, start.y), (16, 18));
    assert!(start.door_connections.is_empty());
    assert_eq!(start.tiles, start.template.tiles);
    assert_eq!(map.tiles.iter().filter(|t| **t != 0).count(), 41);
    assert_eq!(map.tiles[18 * 40 + 17], 1);
    assert_eq!(map.tiles[19 * 40 + 18], 8);
}

#[test]
fn map_too_small_for_the_start_room_stays_empty() {
    let map_graph = graph_of(&[1, 2], &[(0, 1)]);
    let map = generate(&map_graph, 5, 5, 0);
    assert!(map.rooms.is_empty());
    assert_eq!(map.tiles, vec![0u8; 25]);
    let again = generate(&map_graph, 5, 5, 0);
    assert!(again.rooms.is_empty());
    assert_eq!(again.tiles, vec![0u8; 25]);
}

#[test]
fn path_of_ten_is_the_same_for_the_same_seed() {
    let weights: Vec<usize> = (1..=10).collect();
    let edges: Vec<(usize, usize)> = (0..9).map(|i| (i, i + 1)).collect();
    let map_graph = graph_of(&weights, &edges);
    let first = generate(&map_graph, 40, 40, 0);
    let second = generate(&map_graph, 40, 40, 0);
    check_map(&first, &weights);
    assert!(same_maps(&first, &second));
    assert!(first.rooms.len() >= 2);
}

#[test]
fn same_seed_gives_the_same_map() {
    let weights = [1, 1, 1, 1, 1, 2];
    let map_graph = graph_of(&weights, &[(0, 1), (0, 2), (1, 3), (2, 4), (4, 5), (3, 5)]);
    for seed in [0u64, 1, 42, 1234567] {
        let first = generate(&map_graph, 60, 60, seed);
        let second = generate(&map_graph, 60, 60, seed);
        check_map(&first, &weights);
        assert!(same_maps(&first, &second));
    }
}

#[test]
fn other_seeds_give_other_maps() {
    let weights = [1, 1, 1, 2];
    let map_graph = graph_of(&weights, &[(0, 1), (1, 2), (2, 3)]);
    let first = generate(&map_graph, 60, 60, 0);
    let mut differs = false;
    for seed in 1u64..20 {
        let other = generate(&map_graph, 60, 60, seed);
        check_map(&other, &weights);
        if !same_maps(&first, &other) {
            differs = true;
        }
    }
    assert!(differs);
}

#[test]
fn empty_graph_gives_an_empty_map() {
    let map_graph = graph_of(&[], &[]);
    let map = generate(&map_graph, 20, 10, 3);
    assert!(map.rooms.is_empty());
    assert_eq!(map.tiles, vec![0u8; 200]);
    assert_eq!((map.width, map.height), (20, 10));
}

#[test]
fn first_node_of_the_last_weight_still_gets_the_start_room() {
    let map_graph = graph_of(&[5, 1, 5], &[(0, 1), (1, 2)]);
    for seed in 0u64..5 {
        let map = generate(&map_graph, 40, 40, seed);
        check_map(&map, &[5, 1, 5]);
        assert!(map.rooms.get(&0).unwrap().template.room_type == RoomType::Start);
        if let Some(room) = map.rooms.get(&1) {
            assert!(room.template.room_type == RoomType::Normal);
        }
        if let Some(room) = map.rooms.get(&2) {
            assert!(room.template.room_type == RoomType::Boss);
        }
    }
}

#[test]
fn every_node_of_the_last_weight_may_get_a_boss_room() {
    let map_graph = graph_of(&[1, 3, 3], &[(0, 1), (0, 2)]);
    let map = generate(&map_graph, 60, 60, 0);
    check_map(&map, &[1, 3, 3]);
    for node in [1usize, 2] {
        if let Some(room) = map.rooms.get(&node) {
            assert!(room.template.room_type == RoomType::Boss);
        }
    }
    assert!(map.rooms.len() >= 2);
}

#[test]
fn seed_follows_the_node_list_not_the_node_index() {
    let mut map_graph = graph_of(&[1, 1, 2], &[(1, 0), (1, 2)]);
    map_graph.nodes = vec![1, 0, 2];
    let map = generate(&map_graph, 40, 40, 0);
    check_map(&map, &[1, 1, 2]);
    let start = map.rooms.get(&1).unwrap();
    assert!(start.template.room_type == RoomType::Start);
    assert_eq!((start.x, start.y), (16, 18));
    assert!(map.rooms.get(&0).unwrap().template.room_type == RoomType::Normal);
    for connection in connections_of(start) {
        assert!(connection.4);
    }
}

#[test]
fn leaves_never_get_a_room_that_asks_for_two_doors() {
    let weights = [1, 1, 1, 9];
    let map_graph = graph_of(&weights, &[(0, 1), (0, 2)]);
    for seed in 0u64..40 {
        let map = generate(&map_graph, 60, 60, seed);
        for node in [1usize, 2] {
            if let Some(room) = map.rooms.get(&node) {
                assert_eq!(room.template.min_doors, 0);
            }
        }
    }
}

#[test]
fn nodes_with_an_edge_of_their_own_may_get_a_room_that_asks_for_two_doors() {
    let weights = [1, 1, 1, 9];
    let map_graph = graph_of(&weights, &[(0, 1), (1, 2)]);
    let mut seen = false;
    for seed in 0u64..200 {
        let map = generate(&map_graph, 60, 60, seed);
        if let Some(room) = map.rooms.get(&1) {
            if room.template.min_doors == 2 {
                seen = true;
            }
        }
    }
    assert!(seen);
}

#[test]
fn seed_is_placed_once() {
    let templates = RoomTemplates::new();
    let mut map = TileMap::new(40, 40);
    assert!(seed_start_room(&mut map, &templates, 4));
    assert_eq!(map.rooms.len(), 1);
    let start = map.rooms.get(&4).unwrap();
    assert_eq!((start.x, start.y), (16, 18));
    assert!(start.template.room_type == RoomType::Start);
    let tiles = map.tiles.clone();
    assert!(!seed_start_room(&mut map, &templates, 4));
    assert!(!seed_start_room(&mut map, &templates, 5));
    assert_eq!(map.rooms.len(), 1);
    assert_eq!(map.tiles, tiles);
}

#[test]
fn seed_is_not_placed_where_it_does_not_fit() {
    let templates = RoomTemplates::new();
    let mut small = TileMap::new(8, 8);
    assert!(!seed_start_room(&mut small, &templates, 0));
    assert!(small.rooms.is_empty());
    assert_eq!(small.tiles, vec![0u8; 64]);
    let mut exact = TileMap::new(9, 5);
    assert!(seed_start_room(&mut exact, &templates, 0));
    assert_eq!(exact.tiles, get(&13, &templates).tiles);
}

#[test]
fn candidates_are_the_templates_with_a_combination() {
    let templates = RoomTemplates::new();
    let all: Vec<usize> = (0..16).collect();
    assert_eq!(candidate_templates(&templates.rooms[13], 16), all);
    assert_eq!(candidate_templates(&templates.rooms[13], 4), vec![0, 1, 2, 3]);
    assert_eq!(candidate_templates(&templates.rooms[13], 0), Vec::<usize>::new());
    let mut pruned = get(&13, &templates);
    pruned.valid_combinations.insert(2, Vec::new());
    pruned.valid_combinations.remove(&7);
    assert_eq!(
        candidate_templates(&pruned, 20),
        vec![0, 1, 3, 4, 5, 6, 8, 9, 10, 11, 12, 13, 14, 15]
    );
}

#[test]
fn first_placeable_combination_is_taken() {
    let templates = RoomTemplates::new();
    let mut map = TileMap::new(40, 40);
    assert!(seed_start_room(&mut map, &templates, 0));
    let room_b = Room::new(get(&12, &templates));
    let combinations = templates.rooms[13].valid_combinations.get(&12).unwrap().clone();
    assert_eq!(combinations[0], ((-1, 4), 2, (3, 1), 4, (2, 5)));
    assert!(try_combinations(&mut map, 0, 1, true, &room_b, &combinations));
    check_map(&map, &[1, 1]);
    assert_eq!(map.rooms.len(), 2);
    let start = map.rooms.get(&0).unwrap();
    let placed = map.rooms.get(&1).unwrap();
    assert_eq!((placed.x, placed.y), (17, 13));
    assert_eq!(connections_of(start), vec![(2, 0, 1, (3, 1), true)]);
    assert_eq!(connections_of(placed), vec![(4, 1, 0, (2, 5), false)]);
    assert_eq!(start.tiles[2], 7);
    assert_eq!(placed.tiles[21], 7);
    assert_eq!(map.tiles[18 * 40 + 18], 7);
    assert_eq!(map.tiles[17 * 40 + 18], 7);
    assert_eq!(map.tiles[13 * 40 + 17], 1);
}

#[test]
fn combinations_that_cannot_be_placed_are_passed_over() {
    let templates = RoomTemplates::new();
    let mut map = TileMap::new(40, 40);
    assert!(seed_start_room(&mut map, &templates, 0));
    let mut blocker = Room::new(get(&12, &templates));
    blocker.x = 17;
    blocker.y = 13;
    add_or_update_room(&mut map, 9, blocker);
    let room_b = Room::new(get(&12, &templates));
    let combinations = vec![
        ((-1, 4), 2, (3, 1), 4, (2, 5)),
        ((0, 4), 2, (3, 1), 4, (3, 5)),
        ((1, -4), 4, (3, 5), 2, (4, 1)),
        ((-1, -4), 4, (3, 5), 2, (2, 1)),
    ];
    assert!(try_combinations(&mut map, 0, 1, false, &room_b, &combinations));
    let placed = map.rooms.get(&1).unwrap();
    assert_eq!((placed.x, placed.y), (15, 23));
    assert_eq!(connections_of(placed), vec![(2, 1, 0, (4, 1), true)]);
    assert_eq!(connections_of(map.rooms.get(&0).unwrap()), vec![(4, 0, 1, (3, 5), false)]);
    assert_eq!(map.rooms.len(), 3);
}

#[test]
fn no_combination_leaves_the_map_as_it_is() {
    let templates = RoomTemplates::new();
    let mut map = TileMap::new(9, 5);
    assert!(seed_start_room(&mut map, &templates, 0));
    let tiles = map.tiles.clone();
    let room_b = Room::new(get(&12, &templates));
    let combinations = templates.rooms[13].valid_combinations.get(&12).unwrap().clone();
    assert!(!try_combinations(&mut map, 0, 1, true, &room_b, &combinations));
    assert!(!try_combinations(&mut map, 0, 1, true, &room_b, &Vec::new()));
    assert_eq!(map.tiles, tiles);
    assert_eq!(map.rooms.len(), 1);
    assert!(map.rooms.get(&0).unwrap().door_connections.is_empty());
}

#[test]
fn connect_writes_both_rooms() {
    let templates = RoomTemplates::new();
    let mut map = TileMap::new(40, 40);
    assert!(seed_start_room(&mut map, &templates, 0));
    let mut room_b = Room::new(get(&3, &templates));
    room_b.x = 25;
    room_b.y = 19;
    connect_rooms(&mut map, 0, 6, room_b, ((-8, -1), 3, (9, 4), 5, (1, 3)), true);
    check_map(&map, &[1, 1, 1, 1, 1, 1, 1]);
    assert_eq!(map.rooms.len(), 2);
    assert_eq!(connections_of(map.rooms.get(&0).unwrap()), vec![(3, 0, 6, (9, 4), true)]);
    assert_eq!(connections_of(map.rooms.get(&6).unwrap()), vec![(5, 6, 0, (1, 3), false)]);
    assert_eq!(map.tiles[21 * 40 + 24], 7);
    assert_eq!(map.tiles[21 * 40 + 25], 7);
    assert_eq!(map.tiles[19 * 40 + 25], 0);
    assert_eq!(map.tiles[20 * 40 + 25], 1);
}

#[test]
fn visit_of_a_node_without_a_room_does_nothing() {
    let map_graph = graph_of(&[1, 1, 2], &[(0, 1), (1, 2)]);
    let index = create_neighbour_map(&map_graph);
    let templates = RoomTemplates::new();
    let mut map = TileMap::new(40, 40);
    let mut rng = StdRng::seed_from_u64(0);
    try_node_recursive(1, &map_graph, &index, &mut map, &templates, &mut rng);
    try_node_recursive(2, &map_graph, &index, &mut map, &templates, &mut rng);
    assert!(map.rooms.is_empty());
    assert_eq!(map.tiles, vec![0u8; 1600]);
    try_node_recursive(0, &map_graph, &index, &mut map, &templates, &mut rng);
    check_map(&map, &[1, 1, 2]);
    assert_eq!(map.rooms.len(), 3);
    let before = map.tiles.clone();
    try_node_recursive(0, &map_graph, &index, &mut map, &templates, &mut rng);
    try_node_recursive(1, &map_graph, &index, &mut map, &templates, &mut rng);
    assert_eq!(map.tiles, before);
    assert_eq!(map.rooms.len(), 3);
}

#[test]
fn crowded_map_stays_sound() {
    let mut edges = Vec::new();
    for a in 0..12usize {
        for b in (a + 1)..12 {
            if (a + b) % 3 != 0 {
                edges.push((a, b));
            }
        }
    }
    let weights: Vec<usize> = (1..=12).collect();
    let map_graph = graph_of(&weights, &edges);
    let mut crowded = false;
    for seed in 0u64..6 {
        let map = generate(&map_graph, 24, 24, seed);
        check_map(&map, &weights);
        check_edges(&map, &map_graph);
        check_settled(&map, &map_graph);
        assert!(map.rooms.len() >= 1);
        assert!(map.rooms.len() <= 12);
        if map.rooms.len() < 12 {
            crowded = true;
        }
    }
    assert!(crowded);
}

#[test]
fn nothing_is_left_to_place_on_a_narrow_map() {
    let weights = [1, 1, 1, 1, 5];
    let map_graph = graph_of(&weights, &[(0, 1), (0, 2), (0, 3), (3, 4), (2, 1)]);
    for seed in 0u64..10 {
        let map = generate(&map_graph, 30, 7, seed);
        check_map(&map, &weights);
        check_edges(&map, &map_graph);
        check_settled(&map, &map_graph);
        assert!(map.rooms.contains_key(&0));
    }
}

#[test]
fn connections_run_along_the_edges_of_the_graph() {
    let weights = [1, 1, 1, 1, 1, 2];
    let map_graph = graph_of(&weights, &[(1, 0), (0, 2), (3, 1), (2, 4), (5, 4), (3, 5)]);
    for seed in 0u64..10 {
        let map = generate(&map_graph, 60, 60, seed);
        check_map(&map, &weights);
        check_edges(&map, &map_graph);
        check_settled(&map, &map_graph);
    }
}

#[test]
fn generator_of_its_own_gives_a_sound_map() {
    let weights = [1, 1, 1, 1, 1, 2];
    let map_graph = graph_of(&weights, &[(0, 1), (0, 2), (1, 3), (2, 4), (4, 5), (3, 5)]);
    for _ in 0..5 {
        let map = generate_map(&map_graph, Config { width: 50, height: 50 });
        check_map(&map, &weights);
        check_edges(&map, &map_graph);
        check_settled(&map, &map_graph);
        let start = map.rooms.get(&0).unwrap();
        assert!(start.template.room_type == RoomType::Start);
        assert_eq!((start.x, start.y), (21, 23));
    }
}
