use map_generator::common::xy_idx;
use map_generator::map::room::{align_room_b, get_neighbours, Room};
use map_generator::map::room_template_definitions::{small_square, start_room};
use map_generator::map::room_templates::RoomTemplates;
use map_generator::map::{
    add_or_update_room, can_place_room, centre_coordinates, find_or_create_start_room,
    room_crosses_side_of_map, TileMap,
};
use map_generator::render::crop_rows;
use std::collections::HashMap;

fn square_at(x: i32, y: i32) -> Room {
    let mut room = Room::new(small_square());
    room.x = x;
    room.y = y;
    room
}

#[test]
fn xy_idx_is_row_major() {
    assert_eq!(xy_idx(0, 0, 10), 0);
    assert_eq!(xy_idx(3, 2, 10), 23);
    assert_eq!(xy_idx(9, 0, 10), 9);
    assert_eq!(xy_idx(0, 1, 10), 10);
    assert_eq!(xy_idx(99, 99, 100), 9999);
}

#[test]
fn new_map_is_empty() {
    let map = TileMap::new(4, 3);
    assert_eq!(map.width, 4);
    assert_eq!(map.height, 3);
    assert_eq!(map.tiles, vec![0u8; 12]);
    assert!(map.rooms.is_empty());
}

#[test]
fn edge_rule_by_cell_index() {
    let cases: [(usize, u8, u8, bool); 20] = [
        (4, 1, 3, true),
        (4, 1, 2, false),
        (4, 8, 0, true),
        (0, 1, 5, true),
        (0, 1, 2, true),
        (0, 1, 4, false),
        (0, 8, 0, true),
        (12, 8, 2, false),
        (12, 8, 0, false),
        (20, 1, 4, true),
        (20, 1, 5, true),
        (20, 1, 3, false),
        (3, 1, 2, true),
        (3, 1, 3, false),
        (24, 1, 3, true),
        (24, 1, 4, true),
        (24, 1, 2, false),
        (9, 1, 3, true),
        (5, 1, 5, true),
        (6, 8, 0, false),
    ];
    for (idx, tile, door, expected) in cases {
        assert_eq!(room_crosses_side_of_map(idx, tile, door, 5, 25), expected);
    }
}

#[test]
fn room_can_be_placed_on_free_cells() {
    let map = TileMap::new(40, 40);
    assert!(can_place_room(&map, &square_at(10, 10), 0));
    assert!(can_place_room(&map, &square_at(0, 0), 0));
    assert!(can_place_room(&map, &square_at(35, 35), 0));
    assert!(can_place_room(&map, &square_at(1, 1), 2));
    assert!(can_place_room(&map, &square_at(34, 10), 3));
}

#[test]
fn room_off_the_map_cannot_be_placed() {
    let map = TileMap::new(40, 40);
    assert!(!can_place_room(&map, &square_at(-1, 0), 0));
    assert!(!can_place_room(&map, &square_at(10, 36), 0));
    assert!(!can_place_room(&map, &square_at(38, 38), 0));
    assert!(!can_place_room(&map, &square_at(0, -1), 0));
    assert!(!can_place_room(&map, &square_at(0, 40), 0));
}

#[test]
fn room_across_the_side_cannot_be_placed() {
    let map = TileMap::new(40, 40);
    assert!(!can_place_room(&map, &square_at(-1, 5), 0));
    assert!(!can_place_room(&map, &square_at(36, 10), 0));
}

#[test]
fn door_on_its_edge_cannot_be_placed() {
    let map = TileMap::new(40, 40);
    assert!(!can_place_room(&map, &square_at(0, 0), 2));
    assert!(!can_place_room(&map, &square_at(0, 0), 5));
    assert!(!can_place_room(&map, &square_at(35, 35), 3));
    assert!(!can_place_room(&map, &square_at(35, 35), 4));
    assert!(can_place_room(&map, &square_at(35, 10), 0));
    assert!(!can_place_room(&map, &square_at(35, 10), 3));
}

#[test]
fn rooms_may_not_overlap() {
    let mut map = TileMap::new(40, 40);
    add_or_update_room(&mut map, 0, square_at(10, 10));
    assert!(!can_place_room(&map, &square_at(12, 12), 0));
    assert!(!can_place_room(&map, &square_at(14, 10), 0));
    assert!(!can_place_room(&map, &square_at(10, 14), 0));
    assert!(!can_place_room(&map, &square_at(6, 10), 0));
    assert!(!can_place_room(&map, &square_at(10, 10), 0));
    assert!(can_place_room(&map, &square_at(15, 10), 0));
    assert!(can_place_room(&map, &square_at(10, 15), 0));
    assert!(can_place_room(&map, &square_at(5, 10), 0));
}

#[test]
fn empty_tiles_may_lie_off_the_map() {
    let map = TileMap::new(9, 5);
    let room = Room::new(start_room());
    assert!(can_place_room(&map, &room, 0));
    let mut shifted = Room::new(start_room());
    shifted.y = 1;
    assert!(!can_place_room(&map, &shifted, 0));
}

#[test]
fn commit_writes_the_room_and_stores_it() {
    let mut map = TileMap::new(40, 40);
    add_or_update_room(&mut map, 7, square_at(10, 10));
    assert_eq!(map.rooms.len(), 1);
    let stored = map.rooms.get(&7).unwrap();
    assert_eq!((stored.x, stored.y), (10, 10));
    let template = small_square();
    for y in 0..40i32 {
        for x in 0..40i32 {
            let expected = if (10..15).contains(&x) && (10..15).contains(&y) {
                template.tiles[((y - 10) * 5 + (x - 10)) as usize]
            } else {
                0
            };
            assert_eq!(map.tiles[(y * 40 + x) as usize], expected);
        }
    }
}

#[test]
fn commit_of_a_new_room_marks_floor_it_lands_on() {
    let mut map = TileMap::new(40, 40);
    add_or_update_room(&mut map, 0, square_at(10, 10));
    add_or_update_room(&mut map, 1, square_at(12, 12));
    assert_eq!(map.rooms.len(), 2);
    let at = |x: usize, y: usize| map.tiles[y * 40 + x];
    assert_eq!(at(12, 12), 9);
    assert_eq!(at(13, 12), 9);
    assert_eq!(at(12, 13), 9);
    assert_eq!(at(13, 13), 9);
    assert_eq!(at(14, 12), 2);
    assert_eq!(at(14, 13), 8);
    assert_eq!(at(12, 14), 5);
    assert_eq!(at(13, 14), 8);
    assert_eq!(at(11, 11), 8);
    assert_eq!(at(11, 14), 4);
    assert_eq!(at(16, 16), 1);
    assert_eq!(at(10, 10), 1);
}

#[test]
fn commit_under_the_same_node_overwrites() {
    let mut map = TileMap::new(40, 40);
    add_or_update_room(&mut map, 0, square_at(10, 10));
    let mut again = square_at(10, 10);
    again.add_door(0, 1, 2, (2, 1), true);
    add_or_update_room(&mut map, 0, again);
    assert_eq!(map.rooms.len(), 1);
    assert_eq!(map.tiles[10 * 40 + 11], 7);
    assert_eq!(map.tiles[11 * 40 + 11], 8);
    assert_eq!(map.tiles[10 * 40 + 12], 2);
    assert_eq!(map.rooms.get(&0).unwrap().door_connections.get(&2).unwrap().len(), 1);
}

#[test]
fn commit_skips_tiles_off_the_map() {
    let mut map = TileMap::new(6, 6);
    add_or_update_room(&mut map, 0, square_at(3, 3));
    assert_eq!(map.tiles.len(), 36);
    assert_eq!(map.tiles[3 * 6 + 3], 1);
    assert_eq!(map.tiles[3 * 6 + 5], 2);
    assert_eq!(map.tiles[5 * 6 + 5], 8);
    assert_eq!(map.tiles[4 * 6], 2);
    assert_eq!(map.tiles[5 * 6], 8);
    assert_eq!(map.tiles[0], 0);
    assert_eq!(map.rooms.len(), 1);
}

#[test]
fn centre_uses_integer_division() {
    let map = TileMap::new(40, 40);
    assert_eq!(centre_coordinates(&Room::new(start_room()), &map), (16, 18));
    assert_eq!(centre_coordinates(&Room::new(small_square()), &map), (18, 18));
    let odd = TileMap::new(5, 5);
    assert_eq!(centre_coordinates(&Room::new(start_room()), &odd), (-2, 0));
    let wide = TileMap::new(101, 7);
    assert_eq!(centre_coordinates(&Room::new(start_room()), &wide), (46, 1));
}

#[test]
fn start_room_is_created_where_none_is_placed() {
    let map = TileMap::new(40, 40);
    let templates = RoomTemplates::new();
    let room = find_or_create_start_room(&map, &templates, &3);
    assert_eq!((room.x, room.y), (0, 0));
    assert_eq!(room.tiles, start_room().tiles);
    assert_eq!(room.template.tiles, start_room().tiles);
    assert!(room.door_connections.is_empty());
    assert_eq!(room.template.valid_combinations.len(), 16);
}

#[test]
fn placed_room_is_found() {
    let mut map = TileMap::new(40, 40);
    let templates = RoomTemplates::new();
    add_or_update_room(&mut map, 3, square_at(10, 12));
    let room = find_or_create_start_room(&map, &templates, &3);
    assert_eq!((room.x, room.y), (10, 12));
    assert_eq!(room.tiles, small_square().tiles);
}

#[test]
fn new_room_copies_its_template() {
    let room = Room::new(small_square());
    assert_eq!((room.x, room.y), (0, 0));
    assert_eq!(room.tiles, small_square().tiles);
    assert_eq!(room.template.w, 5);
    assert!(room.door_connections.is_empty());
}

#[test]
fn add_door_records_and_marks() {
    let mut room = Room::new(small_square());
    room.add_door(4, 9, 3, (5, 2), false);
    let doors = room.door_connections.get(&3).unwrap();
    assert_eq!(doors.len(), 1);
    assert_eq!(doors[0].node_a_idx, 4);
    assert_eq!(doors[0].node_b_idx, 9);
    assert_eq!(doors[0].xy, (5, 2));
    assert!(!doors[0].direction);
    assert_eq!(room.tiles[9], 7);
    assert_eq!(room.tiles.iter().filter(|t| **t == 7).count(), 1);
    assert_eq!(room.template.tiles[9], 3);
}

#[test]
fn add_door_appends_under_the_same_code() {
    let mut room = Room::new(small_square());
    room.add_door(4, 9, 2, (2, 1), true);
    room.add_door(4, 5, 2, (4, 1), false);
    room.add_door(4, 6, 4, (3, 5), true);
    let north = room.door_connections.get(&2).unwrap();
    assert_eq!(north.len(), 2);
    assert_eq!((north[0].node_b_idx, north[0].xy), (9, (2, 1)));
    assert_eq!((north[1].node_b_idx, north[1].xy), (5, (4, 1)));
    assert_eq!(room.door_connections.get(&4).unwrap().len(), 1);
    assert_eq!(room.door_connections.len(), 2);
    assert_eq!(room.tiles[1], 7);
    assert_eq!(room.tiles[3], 7);
    assert_eq!(room.tiles[22], 7);
    assert_eq!(room.tiles[2], 2);
}

#[test]
fn align_steps_one_cell_outward() {
    let room_a = square_at(10, 10);
    let cases = [
        (((0, 4), 2, (2, 1), 4, (2, 5)), (10, 5)),
        (((0, -4), 4, (2, 5), 2, (2, 1)), (10, 15)),
        (((4, 0), 5, (1, 2), 3, (5, 2)), (5, 10)),
        (((-4, 0), 3, (5, 2), 5, (1, 2)), (15, 10)),
        (((2, 3), 2, (2, 1), 0, (2, 5)), (8, 7)),
        (((-1, 5), 2, (3, 1), 4, (2, 6)), (11, 4)),
    ];
    for (combination, origin) in cases {
        let mut room_b = Room::new(small_square());
        let moved = align_room_b(&room_a, &mut room_b, combination);
        assert_eq!((room_b.x, room_b.y), origin);
        assert_eq!((moved.x, moved.y), origin);
        assert_eq!(moved.tiles, room_b.tiles);
    }
}

#[test]
fn neighbours_are_seen_from_the_node() {
    let mut index: HashMap<usize, Vec<(usize, usize)>> = HashMap::new();
    index.insert(1, vec![(0, 1), (1, 2), (3, 1)]);
    index.insert(0, vec![(0, 1)]);
    assert_eq!(get_neighbours(&1, &index), vec![(1, 0, false), (1, 2, true), (1, 3, false)]);
    assert_eq!(get_neighbours(&0, &index), vec![(0, 1, true)]);
    assert_eq!(get_neighbours(&5, &index), vec![]);
}

#[test]
fn neighbours_of_a_node_with_an_edge_to_itself() {
    let mut index: HashMap<usize, Vec<(usize, usize)>> = HashMap::new();
    index.insert(2, vec![(2, 2), (2, 2)]);
    assert_eq!(get_neighbours(&2, &index), vec![(2, 2, true), (2, 2, true)]);
}

#[test]
fn empty_rows_are_cropped() {
    let tiles = vec![0, 0, 0, 1, 0, 2, 0, 0, 0, 0, 8, 0, 5];
    assert_eq!(crop_rows(&tiles, 3), vec![1, 0, 2, 0, 8, 0]);
    assert_eq!(crop_rows(&tiles, 13), tiles);
    assert_eq!(crop_rows(&tiles, 14), Vec::<u8>::new());
    assert_eq!(crop_rows(&vec![0u8; 12], 4), Vec::<u8>::new());
    assert_eq!(crop_rows(&vec![8u8; 64], 32), vec![8u8; 64]);
    assert_eq!(crop_rows(&Vec::new(), 5), Vec::<u8>::new());
}

#[test]
fn cropped_map_holds_the_rows_of_its_rooms() {
    let mut map = TileMap::new(40, 40);
    add_or_update_room(&mut map, 0, square_at(10, 10));
    add_or_update_room(&mut map, 1, square_at(20, 30));
    let cropped = crop_rows(&map.tiles, map.width);
    assert_eq!(cropped.len(), 10 * 40);
    assert_eq!(cropped[10], 1);
    assert_eq!(cropped[5 * 40 + 20], 1);
    assert_eq!(cropped[6 * 40 + 21], 8);
}
