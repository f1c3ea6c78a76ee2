use map_generator::map::room::RoomType;
use map_generator::map::room_template_definitions::{
    bent_l, bent_r, big_square, boss_room, calculate_door_tiles, calculate_doors_xy, cross,
    in_range, jar, l_bottom_left_shape, l_bottom_right_shape, l_top_left_shape,
    l_top_right_shape, long_shape, rectangle, small_square, start_room, tall, wide,
};
use map_generator::map::room_templates::{
    calculate_combinations, can_place_room, canvas_with_room, combinations_between,
    connecting_door, get, RoomTemplate, RoomTemplates,
};

fn all_templates() -> Vec<RoomTemplate> {
    vec![
        bent_l(),
        bent_r(),
        big_square(),
        boss_room(),
        cross(),
        jar(),
        l_bottom_left_shape(),
        l_bottom_right_shape(),
        l_top_left_shape(),
        l_top_right_shape(),
        long_shape(),
        rectangle(),
        small_square(),
        start_room(),
        tall(),
        wide(),
    ]
}

#[test]
fn small_square_has_directed_doors() {
    let template = small_square();
    assert_eq!(template.w, 5);
    assert_eq!(template.h, 5);
    assert_eq!(template.min_doors, 0);
    assert!(template.room_type == RoomType::Normal);
    assert_eq!(
        template.tiles,
        vec![
            1, 2, 2, 2, 1, //
            5, 8, 8, 8, 3, //
            5, 8, 8, 8, 3, //
            5, 8, 8, 8, 3, //
            1, 4, 4, 4, 1,
        ]
    );
    assert!(template.valid_combinations.is_empty());
}

#[test]
fn small_square_doors_are_grouped_by_side() {
    let template = small_square();
    assert_eq!(template.possible_doors_xy.len(), 4);
    assert_eq!(template.possible_doors_xy.get(&2), Some(&vec![(2, 1), (3, 1), (4, 1)]));
    assert_eq!(template.possible_doors_xy.get(&3), Some(&vec![(5, 2), (5, 3), (5, 4)]));
    assert_eq!(template.possible_doors_xy.get(&4), Some(&vec![(2, 5), (3, 5), (4, 5)]));
    assert_eq!(template.possible_doors_xy.get(&5), Some(&vec![(1, 2), (1, 3), (1, 4)]));
}

#[test]
fn start_room_doors() {
    let template = start_room();
    assert!(template.room_type == RoomType::Start);
    assert_eq!(template.w, 9);
    assert_eq!(template.h, 5);
    assert_eq!(
        template.tiles,
        vec![
            0, 1, 2, 1, 2, 1, 2, 1, 0, //
            0, 5, 8, 8, 8, 8, 8, 3, 0, //
            1, 1, 1, 8, 8, 8, 1, 1, 1, //
            5, 8, 8, 8, 8, 8, 8, 8, 3, //
            1, 1, 4, 1, 1, 1, 4, 1, 1,
        ]
    );
    assert_eq!(template.possible_doors_xy.get(&2), Some(&vec![(3, 1), (5, 1), (7, 1)]));
    assert_eq!(template.possible_doors_xy.get(&3), Some(&vec![(8, 2), (9, 4)]));
    assert_eq!(template.possible_doors_xy.get(&4), Some(&vec![(3, 5), (7, 5)]));
    assert_eq!(template.possible_doors_xy.get(&5), Some(&vec![(2, 2), (1, 4)]));
}

#[test]
fn boss_room_shape() {
    let template = boss_room();
    assert!(template.room_type == RoomType::Boss);
    assert_eq!((template.w, template.h), (9, 6));
    assert_eq!(
        template.tiles,
        vec![
            0, 1, 2, 1, 2, 1, 2, 1, 0, //
            1, 1, 8, 1, 8, 1, 8, 1, 1, //
            5, 8, 8, 8, 8, 8, 8, 8, 3, //
            1, 1, 8, 8, 8, 8, 8, 1, 1, //
            5, 8, 8, 8, 8, 8, 8, 8, 3, //
            1, 4, 4, 1, 1, 1, 4, 4, 1,
        ]
    );
}

#[test]
fn cross_and_jar_ask_for_two_doors() {
    assert_eq!(cross().min_doors, 2);
    assert_eq!(jar().min_doors, 2);
    assert_eq!(
        cross().tiles,
        vec![
            0, 1, 2, 1, 0, //
            1, 1, 8, 1, 1, //
            5, 8, 8, 8, 3, //
            1, 1, 8, 1, 1, //
            0, 1, 4, 1, 0,
        ]
    );
    assert_eq!(jar().possible_doors_xy.get(&2), Some(&vec![(4, 1)]));
    assert_eq!(jar().possible_doors_xy.get(&3), Some(&vec![(7, 6)]));
    assert_eq!(jar().possible_doors_xy.get(&4), Some(&vec![(4, 11)]));
    assert_eq!(jar().possible_doors_xy.get(&5), Some(&vec![(1, 6)]));
}

#[test]
fn bent_l_doors_face_the_outside() {
    assert_eq!(
        bent_l().tiles,
        vec![
            1, 2, 2, 2, 1, 0, //
            5, 8, 8, 8, 3, 0, //
            5, 8, 8, 8, 3, 0, //
            1, 1, 8, 8, 1, 1, //
            0, 5, 8, 8, 8, 3, //
            0, 5, 8, 8, 8, 3, //
            0, 1, 4, 4, 4, 1,
        ]
    );
}

#[test]
fn l_top_left_shape_inner_doors() {
    assert_eq!(
        l_top_left_shape().tiles,
        vec![
            1, 2, 2, 2, 2, 2, 1, //
            5, 8, 8, 8, 8, 8, 3, //
            5, 8, 8, 8, 8, 8, 3, //
            1, 4, 4, 1, 8, 8, 3, //
            0, 0, 0, 5, 8, 8, 3, //
            0, 0, 0, 5, 8, 8, 3, //
            0, 0, 0, 1, 4, 4, 1,
        ]
    );
}

#[test]
fn every_template_fills_its_rectangle() {
    let sizes = [
        (6, 7),
        (6, 7),
        (5, 6),
        (9, 6),
        (5, 5),
        (7, 11),
        (7, 7),
        (7, 7),
        (7, 7),
        (7, 7),
        (9, 5),
        (6, 5),
        (5, 5),
        (9, 5),
        (5, 9),
        (11, 4),
    ];
    for (template, (w, h)) in all_templates().iter().zip(sizes.iter()) {
        assert_eq!(template.w, *w);
        assert_eq!(template.h, *h);
        assert_eq!(template.tiles.len() as i32, w * h);
        assert!(template.tiles.iter().all(|t| [0, 1, 2, 3, 4, 5, 8].contains(t)));
    }
}

#[test]
fn every_door_position_holds_a_door_of_its_code() {
    for template in all_templates() {
        let mut doors = 0;
        for (code, positions) in template.possible_doors_xy.iter() {
            for (x, y) in positions {
                let idx = ((y - 1) * template.w + (x - 1)) as usize;
                assert_eq!(template.tiles[idx], *code);
                doors += 1;
            }
        }
        let counted = template.tiles.iter().filter(|t| (2..=5).contains(*t)).count();
        assert_eq!(doors, counted);
    }
}

#[test]
fn door_counts_by_side() {
    let expected: [[usize; 4]; 16] = [
        [3, 4, 3, 4],
        [3, 4, 3, 4],
        [3, 4, 3, 4],
        [3, 2, 4, 2],
        [1, 1, 1, 1],
        [1, 1, 1, 1],
        [4, 5, 5, 4],
        [4, 4, 5, 5],
        [5, 5, 4, 4],
        [5, 4, 4, 5],
        [7, 3, 7, 3],
        [4, 3, 4, 3],
        [3, 3, 3, 3],
        [3, 2, 2, 2],
        [3, 7, 3, 7],
        [9, 2, 9, 2],
    ];
    for (template, counts) in all_templates().iter().zip(expected.iter()) {
        for (i, code) in [2u8, 3, 4, 5].iter().enumerate() {
            let found = template.possible_doors_xy.get(code).map(|d| d.len()).unwrap_or(0);
            assert_eq!(found, counts[i]);
        }
    }
}

#[test]
fn door_tiles_get_the_side_they_open_onto() {
    assert_eq!(calculate_door_tiles(vec![1, 1, 2, 1, 1, 1], 2), vec![1, 1, 5, 1, 1, 1]);
    assert_eq!(calculate_door_tiles(vec![1, 1, 1, 2, 1, 1], 2), vec![1, 1, 1, 3, 1, 1]);
    assert_eq!(calculate_door_tiles(vec![2, 1, 1, 1], 2), vec![2, 1, 1, 1]);
    assert_eq!(calculate_door_tiles(vec![1, 1, 2, 1], 2), vec![1, 1, 4, 1]);
    assert_eq!(
        calculate_door_tiles(vec![1, 0, 1, 1, 2, 1, 1, 1, 1], 3),
        vec![1, 0, 1, 1, 2, 1, 1, 1, 1]
    );
    assert_eq!(
        calculate_door_tiles(vec![1, 1, 1, 1, 2, 0, 1, 1, 1], 3),
        vec![1, 1, 1, 1, 3, 0, 1, 1, 1]
    );
}

#[test]
fn enclosed_door_tile_becomes_a_conflict_marker() {
    assert_eq!(
        calculate_door_tiles(vec![8, 8, 8, 8, 2, 8, 8, 8, 8], 3),
        vec![8, 8, 8, 8, 9, 8, 8, 8, 8]
    );
}

#[test]
fn doors_xy_counts_positions_from_one() {
    let doors = calculate_doors_xy(&vec![2, 0, 3, 0, 2, 0], 3);
    assert_eq!(doors.get(&2), Some(&vec![(1, 1), (2, 2)]));
    assert_eq!(doors.get(&3), Some(&vec![(3, 1)]));
    assert_eq!(doors.get(&4), None);
    assert_eq!(doors.get(&5), None);
    assert_eq!(doors.len(), 2);
}

#[test]
fn doors_xy_ignores_other_codes() {
    let doors = calculate_doors_xy(&vec![0, 1, 7, 8, 9, 6], 3);
    assert!(doors.is_empty());
}

#[test]
fn in_range_bounds() {
    let v = vec![1u8, 2, 3];
    assert!(in_range(&v, 0));
    assert!(in_range(&v, 2));
    assert!(!in_range(&v, 3));
    assert!(!in_range(&v, -1));
    let empty: Vec<u8> = Vec::new();
    assert!(!in_range(&empty, 0));
}

#[test]
fn connecting_door_pairs_opposite_sides() {
    assert_eq!(connecting_door(2), 4);
    assert_eq!(connecting_door(4), 2);
    assert_eq!(connecting_door(3), 5);
    assert_eq!(connecting_door(5), 3);
    assert_eq!(connecting_door(0), 2);
    assert_eq!(connecting_door(7), 2);
    assert_eq!(connecting_door(8), 2);
}

#[test]
fn canvas_holds_the_room_in_its_centre() {
    let template = small_square();
    let (tiles, x, y) = canvas_with_room(&template, 16, 16);
    assert_eq!((x, y), (6, 6));
    assert_eq!(tiles.len(), 256);
    for cy in 0..16i32 {
        for cx in 0..16i32 {
            let expected = if (6..11).contains(&cx) && (6..11).contains(&cy) {
                template.tiles[((cy - 6) * 5 + (cx - 6)) as usize]
            } else {
                0
            };
            assert_eq!(tiles[(cy * 16 + cx) as usize], expected);
        }
    }
}

#[test]
fn canvas_centre_rounds_down() {
    let template = start_room();
    let (tiles, x, y) = canvas_with_room(&template, 20, 15);
    assert_eq!((x, y), (10 - 4, 7 - 2));
    assert_eq!(tiles.len(), 300);
    assert_eq!(tiles[(5 * 20 + 6 + 1) as usize], 1);
    assert_eq!(tiles[(5 * 20 + 6) as usize], 0);
    assert_eq!(tiles.iter().filter(|t| **t != 0).count(), 41);
}

#[test]
fn pairwise_check_gives_the_offset_between_origins() {
    let a = small_square();
    let b = small_square();
    assert_eq!(can_place_room(&(2, 1), &(2, 5), &a, &b), Some((0, 4)));
    assert_eq!(can_place_room(&(2, 1), &(4, 5), &a, &b), Some((2, 4)));
    assert_eq!(can_place_room(&(5, 3), &(1, 2), &a, &b), Some((-4, -1)));
}

#[test]
fn pairwise_check_refuses_a_tile_on_interior_floor() {
    let a = small_square();
    let b = small_square();
    assert_eq!(can_place_room(&(2, 1), &(2, 1), &a, &b), None);
    assert_eq!(can_place_room(&(2, 1), &(1, 2), &a, &b), None);
}

#[test]
fn combinations_of_two_small_squares() {
    let a = small_square();
    let combos = combinations_between(&a, &a);
    assert_eq!(combos.len(), 36);
    assert_eq!(combos[0], ((0, 4), 2, (2, 1), 4, (2, 5)));
    assert_eq!(combos[1], ((1, 4), 2, (2, 1), 4, (3, 5)));
    assert_eq!(combos[2], ((2, 4), 2, (2, 1), 4, (4, 5)));
    assert_eq!(combos[35], ((4, 0), 5, (1, 4), 3, (5, 4)));
    for (offset, door_a, xy_a, door_b, xy_b) in combos {
        assert_eq!(door_b, connecting_door(door_a));
        assert_eq!(offset, (xy_b.0 - xy_a.0, xy_b.1 - xy_a.1));
    }
}

#[test]
fn combinations_of_cross_and_jar() {
    let combos = combinations_between(&cross(), &jar());
    assert_eq!(
        combos,
        vec![
            ((1, 10), 2, (3, 1), 4, (4, 11)),
            ((-4, 3), 3, (5, 3), 5, (1, 6)),
            ((1, -4), 4, (3, 5), 2, (4, 1)),
            ((6, 3), 5, (1, 3), 3, (7, 6)),
        ]
    );
}

#[test]
fn calculate_combinations_fills_every_table() {
    let mut templates = vec![cross(), jar()];
    calculate_combinations(&mut templates);
    assert_eq!(templates.len(), 2);
    assert_eq!(templates[0].valid_combinations.len(), 2);
    assert_eq!(templates[1].valid_combinations.len(), 2);
    assert_eq!(templates[0].valid_combinations.get(&1).unwrap().len(), 4);
    assert_eq!(templates[0].valid_combinations.get(&0).unwrap().len(), 4);
    assert_eq!(templates[1].valid_combinations.get(&0).unwrap().len(), 4);
    assert_eq!(templates[0].tiles, cross().tiles);
    assert_eq!(templates[1].min_doors, 2);
}

#[test]
fn library_holds_sixteen_templates_in_order() {
    let templates = RoomTemplates::new();
    assert_eq!(templates.rooms.len(), 16);
    for (held, authored) in templates.rooms.iter().zip(all_templates().iter()) {
        assert_eq!(held.tiles, authored.tiles);
        assert_eq!(held.w, authored.w);
        assert_eq!(held.h, authored.h);
        assert_eq!(held.min_doors, authored.min_doors);
        assert!(held.room_type == authored.room_type);
        assert_eq!(held.possible_doors_xy, authored.possible_doors_xy);
        assert_eq!(held.valid_combinations.len(), 16);
    }
}

#[test]
fn library_combination_counts() {
    let templates = RoomTemplates::new();
    let start_row: Vec<usize> =
        (0..16).map(|b| templates.rooms[13].valid_combinations.get(&b).unwrap().len()).collect();
    assert_eq!(start_row, vec![26, 26, 25, 24, 9, 9, 31, 31, 27, 27, 43, 28, 23, 18, 31, 51]);
    let square_row: Vec<usize> =
        (0..16).map(|b| templates.rooms[12].valid_combinations.get(&b).unwrap().len()).collect();
    assert_eq!(square_row, vec![36, 36, 42, 33, 12, 12, 48, 48, 48, 48, 60, 42, 36, 23, 60, 66]);
    let total: usize = templates
        .rooms
        .iter()
        .map(|t| t.valid_combinations.values().map(|c| c.len()).sum::<usize>())
        .sum();
    assert_eq!(total, 11652);
}

#[test]
fn library_table_is_the_pairwise_enumeration() {
    let templates = RoomTemplates::new();
    let authored = all_templates();
    for a in [0usize, 3, 5, 13] {
        for b in [1usize, 4, 13, 15] {
            assert_eq!(
                templates.rooms[a].valid_combinations.get(&b).unwrap(),
                &combinations_between(&authored[a], &authored[b])
            );
        }
    }
}

#[test]
fn library_is_the_same_every_time() {
    let first = RoomTemplates::new();
    let second = RoomTemplates::new();
    assert_eq!(first.rooms.len(), second.rooms.len());
    for (a, b) in first.rooms.iter().zip(second.rooms.iter()) {
        assert_eq!(a.tiles, b.tiles);
        assert_eq!(a.possible_doors_xy, b.possible_doors_xy);
        assert_eq!(a.valid_combinations, b.valid_combinations);
    }
}

#[test]
fn of_type_lists_ids_in_order() {
    let templates = RoomTemplates::new();
    assert_eq!(templates.of_type(RoomType::Start), vec![13]);
    assert_eq!(templates.of_type(RoomType::Boss), vec![3]);
    assert_eq!(
        templates.of_type(RoomType::Normal),
        vec![0, 1, 2, 4, 5, 6, 7, 8, 9, 10, 11, 12, 14, 15]
    );
}

#[test]
fn get_copies_a_template() {
    let templates = RoomTemplates::new();
    let jar_copy = get(&5, &templates);
    assert_eq!(jar_copy.tiles, jar().tiles);
    assert_eq!(jar_copy.min_doors, 2);
    assert_eq!(jar_copy.valid_combinations, templates.rooms[5].valid_combinations);
    assert!(get(&13, &templates).room_type == RoomType::Start);
}

#[test]
fn room_type_defaults_to_normal() {
    assert!(RoomType::default() == RoomType::Normal);
}

#[test]
fn remaining_shapes() {
    assert_eq!(rectangle().tiles[6], 5);
    assert_eq!(big_square().tiles.len(), 30);
    assert_eq!(bent_r().tiles[1], 1);
    assert_eq!(l_top_right_shape().tiles[3 * 7 + 4], 4);
    assert_eq!(l_bottom_right_shape().tiles[3 * 7 + 4], 2);
    assert_eq!(l_bottom_left_shape().tiles[3 * 7 + 1], 2);
    assert_eq!(long_shape().tiles[9], 5);
    assert_eq!(tall().tiles[44], 1);
    assert_eq!(wide().tiles[43], 1);
}

#[test]
fn random_template_is_never_the_first() {
    let templates = RoomTemplates::new();
    let mut seen = Vec::new();
    for _ in 0..200 {
        let picked = templates._random();
        let id = templates.rooms.iter().position(|t| t.tiles == picked.tiles).unwrap();
        assert!(id >= 1);
        assert_eq!(picked.valid_combinations, templates.rooms[id].valid_combinations);
        if !seen.contains(&id) {
            seen.push(id);
        }
    }
    assert!(seen.len() > 1);
}
