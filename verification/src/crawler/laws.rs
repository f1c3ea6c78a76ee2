//! Proofs that the steps of a generation keep a map sound.

use crate::common::XY;
use crate::common::lemma_cell_in_grid;
use crate::common::lemma_index_in_grid;
use crate::common::lemma_row_major;
use crate::crawler::invariants::answers;
use crate::crawler::invariants::graph_edge;
use crate::crawler::invariants::wanted_type;
use crate::crawler::seed_room;
use crate::map::room_templates::start_template;
use crate::map::MapView;
use crate::map::fresh_room;
use crate::map::invariants::lemma_place_agrees;
use crate::map::invariants::lemma_place_room;
use crate::map::invariants::lemma_update_agrees;
use crate::map::invariants::lemma_update_room;
use crate::map::room::DoorConnection;
use crate::map::room::RoomType;
use crate::map::room::RoomView;
use crate::map::room::aligned_origin;
use crate::map::room::door_step;
use crate::map::room_template_definitions::floor_beside;
use crate::map::room_template_definitions::floor_near;
use crate::map::room_template_definitions::is_door;
use crate::map::room_template_definitions::position_of;
use crate::map::room_templates::RoomCombination;
use crate::map::room_templates::TemplateView;
use crate::map::room_templates::combinations_of;
use crate::map::room_templates::lemma_combinations_valid;
use crate::map::room_templates::lemma_door_on_template;
use crate::map::room_templates::library_floored;
use crate::map::room_templates::library_wf;
use crate::map::room_templates::reciprocal;
use crate::map::room_templates::valid_combination;
use petgraph::stable_graph::StableGraph;
use vstd::prelude::*;

verus! {

/// The end of a connection that the room at `node` holds.
pub open spec fn connection_end(node: usize, peer: usize, xy: XY, direction: bool) -> DoorConnection {
    DoorConnection { node_a_idx: node, node_b_idx: peer, xy, direction }
}

/// A fresh room of `template` at the origin that `combination` gives it against
/// a room at `(ax, ay)`.
pub open spec fn aligned_room(template: TemplateView, ax: int, ay: int, combination: RoomCombination) -> RoomView {
    RoomView {
        x: aligned_origin(ax, ay, combination).0,
        y: aligned_origin(ax, ay, combination).1,
        ..fresh_room(template)
    }
}

/// The map after the room at `node_a` and the new room `room_b`, placed under
/// `node_b`, have been connected through the doors of `combination`: both hold
/// their end of the connection, and both have been written to the map, the new
/// room first.
pub open spec fn joined(
    map: MapView,
    node_a: usize,
    node_b: usize,
    room_b: RoomView,
    combination: RoomCombination,
    outbound: bool,
) -> MapView {
    map.committed(
        node_b,
        room_b.with_door(
            combination.3,
            connection_end(node_b, node_a, combination.4, !outbound),
        ),
    ).committed(
        node_a,
        map.rooms[node_a].with_door(
            combination.1,
            connection_end(node_a, node_b, combination.2, outbound),
        ),
    )
}

/// A map grows from itself.
pub proof fn lemma_grows_from_itself(map: MapView)
    ensures
        map.grows_from(map),
{
}

/// Growth carries over: a map that grows from a map that grows from a third
/// grows from the third.
pub proof fn lemma_grows_on(first: MapView, second: MapView, third: MapView)
    requires
        second.grows_from(first),
        third.grows_from(second),
    ensures
        third.grows_from(first),
{
    assert forall|node: usize| #[trigger] first.rooms.contains_key(node) implies third.rooms.contains_key(
        node,
    ) && third.rooms[node].extends(first.rooms[node]) by {
        assert(second.rooms.contains_key(node));
        let a = first.rooms[node];
        let b = second.rooms[node];
        let c = third.rooms[node];
        assert(b.extends(a));
        assert(c.extends(b));
        assert forall|k: int| 0 <= k < c.tiles.len() implies ((#[trigger] c.tiles[k] != 0) == (
        a.tiles[k] != 0)) && (c.tiles[k] == 8 ==> a.tiles[k] == 8) by {
            assert((b.tiles[k] != 0) == (a.tiles[k] != 0));
        }
        assert forall|door: u8| #[trigger]
            a.connections_of(door).is_prefix_of(c.connections_of(door)) by {
            assert(a.connections_of(door).is_prefix_of(b.connections_of(door)));
            assert(b.connections_of(door).is_prefix_of(c.connections_of(door)));
        }
    }
}

/// A connection that has its other end keeps it as the map grows.
pub proof fn lemma_paired_kept(earlier: MapView, later: MapView, node: usize, door: u8, i: int)
    requires
        later.grows_from(earlier),
        earlier.rooms.contains_key(node),
        0 <= i < earlier.rooms[node].connections_of(door).len(),
        earlier.paired(node, door, i),
    ensures
        later.paired(node, door, i),
{
    let room = earlier.rooms[node];
    let connection = room.connections_of(door)[i];
    let peer = connection.node_b_idx;
    assert(later.rooms[node].extends(room));
    assert(room.connections_of(door).is_prefix_of(later.rooms[node].connections_of(door)));
    assert(later.rooms[node].connections_of(door)[i] == connection);
    assert(later.rooms[peer].extends(earlier.rooms[peer]));
    assert(earlier.rooms[peer].connections_of(reciprocal(door)).is_prefix_of(
        later.rooms[peer].connections_of(reciprocal(door)),
    ));
    let j = choose|j: int|
        0 <= j < earlier.rooms[peer].connections_of(reciprocal(door)).len() && answers(
            room,
            connection,
            door,
            earlier.rooms[peer],
            #[trigger] earlier.rooms[peer].connections_of(reciprocal(door))[j],
        );
    assert(later.rooms[peer].connections_of(reciprocal(door))[j] == earlier.rooms[peer].connections_of(
        reciprocal(door),
    )[j]);
}

/// Marking a candidate door as connected keeps a room's footprint.
pub proof fn lemma_with_door(room: RoomView, door: u8, connection: DoorConnection)
    requires
        room.wf(),
        room.true_to_template(),
        room.template.holds(connection.xy),
        is_door(room.template.tile_at(connection.xy.0 - 1, connection.xy.1 - 1)),
    ensures
        room.with_door(door, connection).wf(),
        room.with_door(door, connection).true_to_template(),
        room.with_door(door, connection).extends(room),
        room.same_footprint(room.with_door(door, connection)),
        room.with_door(door, connection).connections_of(door) == room.connections_of(door).push(
            connection,
        ),
        room.doors_marked() && room.template.tile_at(connection.xy.0 - 1, connection.xy.1 - 1)
            == door ==> room.with_door(door, connection).doors_marked(),
{
    let after = room.with_door(door, connection);
    let idx = (connection.xy.1 - 1) * room.template.w + (connection.xy.0 - 1);
    lemma_cell_in_grid(
        connection.xy.1 - 1,
        connection.xy.0 - 1,
        room.template.w,
        room.template.h,
    );
    assert(room.tiles[idx] != 0 && room.tiles[idx] != 8);
    assert forall|k: int| 0 <= k < after.tiles.len() implies ((#[trigger] after.tiles[k] != 0) == (
    room.tiles[k] != 0)) && (after.tiles[k] == 8 ==> room.tiles[k] == 8) by {
    }
    assert forall|k: int| 0 <= k < room.tiles.len() implies ((#[trigger] room.tiles[k] != 0) == (
    after.tiles[k] != 0)) && (room.tiles[k] == 8 ==> after.tiles[k] == 8) by {
    }
    assert forall|k: int| 0 <= k < after.tiles.len() implies #[trigger] after.tiles[k]
        == after.template.tiles[k] || (after.tiles[k] == 7 && is_door(after.template.tiles[k])) by {
        assert(room.tiles[k] == room.template.tiles[k] || (room.tiles[k] == 7 && is_door(
            room.template.tiles[k],
        )));
    }
    assert forall|other: u8| #[trigger]
        room.connections_of(other).is_prefix_of(after.connections_of(other)) by {
    }
    if room.doors_marked() && room.template.tile_at(connection.xy.0 - 1, connection.xy.1 - 1)
        == door {
        lemma_with_door_marked(room, door, connection);
    }
}

/// Marking the door of a new connection as connected keeps the doors in use
/// and the marked doors the same.
proof fn lemma_with_door_marked(room: RoomView, door: u8, connection: DoorConnection)
    requires
        room.wf(),
        room.doors_marked(),
        room.template.holds(connection.xy),
        room.template.tile_at(connection.xy.0 - 1, connection.xy.1 - 1) == door,
    ensures
        room.with_door(door, connection).doors_marked(),
{
    let after = room.with_door(door, connection);
    let w = room.template.w;
    let idx = (connection.xy.1 - 1) * w + (connection.xy.0 - 1);
    lemma_cell_in_grid(connection.xy.1 - 1, connection.xy.0 - 1, w, room.template.h);
    lemma_row_major(connection.xy.1 - 1, connection.xy.0 - 1, w);
    let last = room.connections_of(door).len() as int;
    assert(after.connections_of(door) =~= room.connections_of(door).push(connection));
    assert forall|other: u8, i: int| 0 <= i < after.connections_of(other).len() implies {
        let xy = (#[trigger] after.connections_of(other)[i]).xy;
        let k = (xy.1 - 1) * w + (xy.0 - 1);
        after.template.holds(xy) && after.tiles[k] == 7 && after.template.tiles[k] == other
    } by {
        if other == door && i == last {
        } else {
            if other != door {
                assert(after.connections_of(other) =~= room.connections_of(other));
            }
            let xy = room.connections_of(other)[i].xy;
            assert(after.connections_of(other)[i] == room.connections_of(other)[i]);
            lemma_cell_in_grid(xy.1 - 1, xy.0 - 1, w, room.template.h);
        }
    }
    assert forall|k: int| 0 <= k < after.tiles.len() && #[trigger] after.tiles[k]
        == 7 implies after.uses_door_at(k) by {
        if k == idx {
            assert(after.connections_of(door)[last].xy == position_of(k, w));
        } else {
            assert(room.tiles[k] == 7);
            assert(room.uses_door_at(k));
            let (other, i) = choose|other: u8, i: int|
                0 <= i < room.connections_of(other).len() && (#[trigger] room.connections_of(
                    other,
                )[i]).xy == position_of(k, w);
            if other != door {
                assert(after.connections_of(other) =~= room.connections_of(other));
            }
            assert(after.connections_of(other)[i].xy == position_of(k, w));
        }
    }
}

/// A fresh room of a template with no door marked has no door in use and none
/// marked.
pub proof fn lemma_fresh_room_marked(room: RoomView)
    requires
        room.template.unmarked(),
        room.tiles == room.template.tiles,
        room.connections == Map::<u8, Seq<DoorConnection>>::empty(),
    ensures
        room.doors_marked(),
{
    assert forall|door: u8| #[trigger] room.connections_of(door).len() == 0 by {
    }
}

/// Whether a room can be placed depends on its footprint alone.
pub proof fn lemma_can_place_footprint(map: MapView, room: RoomView, other: RoomView, door_type: u8)
    requires
        room.same_footprint(other),
        other.same_footprint(room),
        map.can_place(room, door_type),
    ensures
        map.can_place(other, door_type),
{
    assert forall|k: int| 0 <= k < other.tiles.len() implies !#[trigger] map.conflict(
        other,
        door_type,
        k,
    ) by {
        assert(!map.conflict(room, door_type, k));
        assert((room.tiles[k] != 0) == (other.tiles[k] != 0));
        assert((other.tiles[k] != 0) == (room.tiles[k] != 0));
    }
}

/// Interior floor of a room that can be placed lies off the edges of the map.
proof fn lemma_floor_off_edge(map: MapView, room: RoomView, door_type: u8, c: int, r: int)
    requires
        map.wf(),
        room.wf(),
        room.true_to_template(),
        map.can_place(room, door_type),
        0 <= c < room.template.w,
        0 <= r < room.template.h,
        room.template.tiles[r * room.template.w + c] == 8,
    ensures
        ((room.y + r) * map.width + room.x + c + 1) % map.width != 0,
        map.width > 1 ==> ((room.y + r) * map.width + room.x + c + 1) % map.width != 1,
{
    let k = r * room.template.w + c;
    lemma_cell_in_grid(r, c, room.template.w, room.template.h);
    lemma_row_major(r, c, room.template.w);
    assert(room.tiles[k] == 8);
    assert(!map.conflict(room, door_type, k));
}

/// A room that can be placed, of a template with floor in one of any two
/// neighbouring columns, lies on the map column by column and row by row if one
/// of its columns does.
pub proof fn lemma_room_within(map: MapView, room: RoomView, door_type: u8, column: int)
    requires
        map.wf(),
        room.wf(),
        room.true_to_template(),
        room.template.floored(),
        map.can_place(room, door_type),
        0 <= column < room.template.w,
        0 <= room.x + column < map.width,
    ensures
        0 <= room.x,
        room.x + room.template.w <= map.width,
        room.within(map.width, map.height),
{
    let w = room.template.w;
    let h = room.template.h;
    let tiles = room.template.tiles;
    if room.x < 0 || room.x + w > map.width {
        let c = if room.x < 0 {
            -room.x - 1
        } else {
            map.width - 1 - room.x
        };
        assert(0 <= c < w - 1);
        assert(floor_near(tiles, w, h, c));
        let r = choose|r: int| #[trigger] floor_beside(tiles, w, h, c, r);
        let row = if room.x < 0 {
            room.y + r
        } else {
            room.y + r + 1
        };
        assert((room.y + r + 1) * map.width == (room.y + r) * map.width + map.width)
            by (nonlinear_arith);
        lemma_cell_in_grid(r, c, w, h);
        lemma_cell_in_grid(r, c + 1, w, h);
        if tiles[r * w + c] == 8 {
            lemma_floor_off_edge(map, room, door_type, c, r);
            lemma_row_major(row, 0, map.width);
            assert((room.y + r) * map.width + room.x + c + 1 == row * map.width + 0);
        } else {
            lemma_floor_off_edge(map, room, door_type, c + 1, r);
            assert((room.y + r) * map.width + room.x + c + 1 + 1 == row * map.width + 1);
            if map.width > 1 {
                lemma_row_major(row, 1, map.width);
            } else {
                assert((row * map.width + 1) % map.width == 0);
            }
        }
        assert(false);
    }
    assert forall|k: int| 0 <= k < room.tiles.len() && #[trigger] room.tiles[k] != 0 implies 0
        <= room.x + k % w < map.width && 0 <= room.y + k / w < map.height by {
        lemma_index_in_grid(k, w, h);
        assert(!map.conflict(room, door_type, k));
        let cell = room.cell(k, map.width);
        lemma_row_major(room.y + k / w, room.x + k % w, map.width);
        lemma_index_in_grid(cell, map.width, map.height);
    }
}

/// A room with the footprint of a room that lies on the map lies on the map.
pub proof fn lemma_within_footprint(room: RoomView, other: RoomView, width: int, height: int)
    requires
        room.same_footprint(other),
        other.within(width, height),
    ensures
        room.within(width, height),
{
    assert forall|k: int| 0 <= k < room.tiles.len() && #[trigger] room.tiles[k] != 0 implies 0
        <= room.x + k % room.template.w < width && 0 <= room.y + k / room.template.w
        < height by {
        assert(other.tiles[k] != 0);
    }
}

/// The door through which a room that can be placed is entered lies in a
/// column of the map, if the door that it connects to does.
proof fn lemma_door_on_map(map: MapView, room_b: RoomView, combination: RoomCombination, column_a: int)
    requires
        map.wf(),
        room_b.wf(),
        room_b.true_to_template(),
        room_b.template.floored(),
        room_b.tiles == room_b.template.tiles,
        map.can_place(room_b, combination.3),
        is_door(combination.3),
        room_b.template.holds(combination.4),
        room_b.template.tile_at(combination.4.0 - 1, combination.4.1 - 1) == combination.3,
        0 <= column_a < map.width,
        room_b.x + combination.4.0 - 1 == column_a - door_step(combination.3).0,
    ensures
        0 <= room_b.x + combination.4.0 - 1 < map.width,
{
    let w = room_b.template.w;
    let h = room_b.template.h;
    let c = combination.4.0 - 1;
    let r = combination.4.1 - 1;
    let k = r * w + c;
    let column = room_b.x + c;
    lemma_cell_in_grid(r, c, w, h);
    lemma_row_major(r, c, w);
    assert(room_b.tiles[k] == combination.3);
    assert(!map.conflict(room_b, combination.3, k));
    let cell = room_b.cell(k, map.width);
    assert(cell == (room_b.y + r) * map.width + column);
    if column == -1 {
        lemma_row_major(room_b.y + r, 0, map.width);
        assert(false);
    }
    if column == map.width {
        assert((room_b.y + r + 1) * map.width == (room_b.y + r) * map.width + map.width)
            by (nonlinear_arith);
        if map.width > 1 {
            lemma_row_major(room_b.y + r + 1, 1, map.width);
            assert(false);
        } else {
            assert(floor_near(room_b.template.tiles, w, h, 0));
            let at = choose|at: int| #[trigger] floor_beside(room_b.template.tiles, w, h, 0, at);
            if room_b.template.tiles[at * w] == 8 {
                lemma_floor_off_edge(map, room_b, combination.3, 0, at);
            } else {
                lemma_floor_off_edge(map, room_b, combination.3, 1, at);
            }
            assert(false);
        }
    }
}

/// A combination that a template of a sound library holds for the template of
/// id `id_b` joins a door on the one to a reciprocal door on the other.
pub proof fn lemma_library_combination(
    library: Seq<TemplateView>,
    template_a: TemplateView,
    id_b: usize,
    combination: RoomCombination,
)
    requires
        library_wf(library),
        exists|id: int| 0 <= id < library.len() && #[trigger] library[id] == template_a,
        id_b < library.len(),
        template_a.combinations.contains_key(id_b),
        template_a.combinations[id_b].contains(combination),
    ensures
        valid_combination(template_a.shape(), library[id_b as int].shape(), combination),
        is_door(combination.1),
        combination.3 == reciprocal(combination.1),
        template_a.holds(combination.2),
        template_a.tile_at(combination.2.0 - 1, combination.2.1 - 1) == combination.1,
        library[id_b as int].holds(combination.4),
        library[id_b as int].tile_at(combination.4.0 - 1, combination.4.1 - 1) == combination.3,
        combination.0.0 == combination.4.0 - combination.2.0,
        combination.0.1 == combination.4.1 - combination.2.1,
{
    let id_a = choose|id: int| 0 <= id < library.len() && #[trigger] library[id] == template_a;
    let a = template_a.shape();
    let b = library[id_b as int].shape();
    assert(library[id_a].wf() && library[id_b as int].wf());
    assert(a.wf() && b.wf());
    let combos = template_a.combinations[id_b];
    assert(combos == combinations_of_pair(library, id_a, id_b));
    let i = choose|i: int| 0 <= i < combos.len() && combos[i] == combination;
    lemma_combinations_valid(a, b, i);
    let ia = choose|ia: int|
        0 <= ia < a.doors_of(combination.1).len() && a.doors_of(combination.1)[ia] == combination.2;
    lemma_door_on_template(a, combination.1, ia);
    let ib = choose|ib: int|
        0 <= ib < b.doors_of(combination.3).len() && b.doors_of(combination.3)[ib] == combination.4;
    lemma_door_on_template(b, combination.3, ib);
}

/// The combinations that the template of id `a` of a library holds for the
/// template of id `b`.
pub open spec fn combinations_of_pair(library: Seq<TemplateView>, a: int, b: usize) -> Seq<
    RoomCombination,
> {
    combinations_of(library[a].shape(), library[b as int].shape())
}

/// Whether a room of the template of id `id_b` can be placed under `node_b`
/// against the room at `node_a` by `combination`, on a sound map.
pub open spec fn join_ready(
    map: MapView,
    library: Seq<TemplateView>,
    weights: Seq<usize>,
    node_a: usize,
    node_b: usize,
    id_b: usize,
    combination: RoomCombination,
) -> bool {
    &&& map.sound(library, weights)
    &&& library_wf(library)
    &&& library_floored(library)
    &&& map.rooms.contains_key(node_a)
    &&& !map.rooms.contains_key(node_b)
    &&& id_b < library.len()
    &&& map.rooms[node_a].template.combinations.contains_key(id_b)
    &&& map.rooms[node_a].template.combinations[id_b].contains(combination)
    &&& map.can_place(
        aligned_room(library[id_b as int], map.rooms[node_a].x, map.rooms[node_a].y, combination),
        combination.3,
    )
    &&& node_b < weights.len()
    &&& library[id_b as int].room_type == wanted_type(weights, node_b)
}

/// The map after a room of the template of id `id_b` has been placed under
/// `node_b` against the room at `node_a` by `combination`.
pub open spec fn joined_by(
    map: MapView,
    library: Seq<TemplateView>,
    node_a: usize,
    node_b: usize,
    id_b: usize,
    combination: RoomCombination,
    outbound: bool,
) -> MapView {
    joined(
        map,
        node_a,
        node_b,
        aligned_room(library[id_b as int], map.rooms[node_a].x, map.rooms[node_a].y, combination),
        combination,
        outbound,
    )
}

/// The room at `node_a` once it holds its end of the connection.
pub open spec fn joined_room_a(
    map: MapView,
    node_a: usize,
    node_b: usize,
    combination: RoomCombination,
    outbound: bool,
) -> RoomView {
    map.rooms[node_a].with_door(
        combination.1,
        connection_end(node_a, node_b, combination.2, outbound),
    )
}

/// The new room once it holds its end of the connection.
pub open spec fn joined_room_b(
    map: MapView,
    library: Seq<TemplateView>,
    node_a: usize,
    node_b: usize,
    id_b: usize,
    combination: RoomCombination,
    outbound: bool,
) -> RoomView {
    aligned_room(
        library[id_b as int],
        map.rooms[node_a].x,
        map.rooms[node_a].y,
        combination,
    ).with_door(combination.3, connection_end(node_b, node_a, combination.4, !outbound))
}

/// Placing the new room keeps the grid and the rooms in agreement, and lets
/// the map grow by that one room.
proof fn lemma_join_consistent(
    map: MapView,
    library: Seq<TemplateView>,
    weights: Seq<usize>,
    node_a: usize,
    node_b: usize,
    id_b: usize,
    combination: RoomCombination,
    outbound: bool,
)
    requires
        join_ready(map, library, weights, node_a, node_b, id_b, combination),
    ensures
        joined_by(map, library, node_a, node_b, id_b, combination, outbound).consistent(),
        joined_by(map, library, node_a, node_b, id_b, combination, outbound).grows_from(map),
        joined_by(map, library, node_a, node_b, id_b, combination, outbound).rooms
            == map.rooms.insert(
            node_b,
            joined_room_b(map, library, node_a, node_b, id_b, combination, outbound),
        ).insert(node_a, joined_room_a(map, node_a, node_b, combination, outbound)),
        joined_room_a(map, node_a, node_b, combination, outbound).true_to_template(),
        joined_room_a(map, node_a, node_b, combination, outbound).doors_marked(),
        joined_room_b(
            map,
            library,
            node_a,
            node_b,
            id_b,
            combination,
            outbound,
        ).true_to_template(),
        joined_room_b(map, library, node_a, node_b, id_b, combination, outbound).doors_marked(),
{
    let room_a = map.rooms[node_a];
    let template_b = library[id_b as int];
    let room_b = aligned_room(template_b, room_a.x, room_a.y, combination);
    let end_a = connection_end(node_a, node_b, combination.2, outbound);
    let end_b = connection_end(node_b, node_a, combination.4, !outbound);
    let door_a = combination.1;
    let door_b = combination.3;
    let with_a = room_a.with_door(door_a, end_a);
    let with_b = room_b.with_door(door_b, end_b);
    let between = map.committed(node_b, with_b);
    let after = joined_by(map, library, node_a, node_b, id_b, combination, outbound);
    assert(map.rooms.contains_key(node_a));
    assert(room_a.wf() && room_a.true_to_template());
    lemma_library_combination(library, room_a.template, id_b, combination);
    assert(template_b.wf() && template_b.unmarked());
    assert(room_b.wf() && room_b.true_to_template());
    assert(room_a.doors_marked());
    lemma_fresh_room_marked(room_b);
    lemma_with_door(room_b, door_b, end_b);
    lemma_with_door(room_a, door_a, end_a);
    lemma_can_place_footprint(map, room_b, with_b, door_b);
    lemma_place_room(map, node_b, with_b, door_b);
    assert(between.rooms[node_a] == room_a);
    lemma_update_room(between, node_a, with_a);
    assert(after == between.committed(node_a, with_a));
    assert(after.rooms =~= map.rooms.insert(node_b, with_b).insert(node_a, with_a));
    assert forall|node: usize| #[trigger] map.rooms.contains_key(node) implies after.rooms.contains_key(
        node,
    ) && after.rooms[node].extends(map.rooms[node]) by {
        if node != node_a {
            let room = map.rooms[node];
            assert(after.rooms[node] == room);
            assert forall|door: u8| #[trigger]
                room.connections_of(door).is_prefix_of(room.connections_of(door)) by {
            }
        }
    }
}

/// A connection has its other end if one of the connections of the room that
/// it names answers it.
proof fn lemma_paired_by(map: MapView, node: usize, door: u8, i: int, j: int)
    requires
        is_door(door),
        map.rooms.contains_key(node),
        0 <= i < map.rooms[node].connections_of(door).len(),
        map.rooms[node].connections_of(door)[i].node_a_idx == node,
        map.rooms.contains_key(map.rooms[node].connections_of(door)[i].node_b_idx),
        0 <= j < map.rooms[map.rooms[node].connections_of(door)[i].node_b_idx].connections_of(
            reciprocal(door),
        ).len(),
        answers(
            map.rooms[node],
            map.rooms[node].connections_of(door)[i],
            door,
            map.rooms[map.rooms[node].connections_of(door)[i].node_b_idx],
            map.rooms[map.rooms[node].connections_of(door)[i].node_b_idx].connections_of(
                reciprocal(door),
            )[j],
        ),
    ensures
        map.paired(node, door, i),
{
}

/// After the new room has been placed, every connection has its other end.
proof fn lemma_join_paired(
    map: MapView,
    library: Seq<TemplateView>,
    weights: Seq<usize>,
    node_a: usize,
    node_b: usize,
    id_b: usize,
    combination: RoomCombination,
    outbound: bool,
)
    requires
        join_ready(map, library, weights, node_a, node_b, id_b, combination),
    ensures
        joined_by(map, library, node_a, node_b, id_b, combination, outbound).all_paired(),
{
    let room_a = map.rooms[node_a];
    let template_b = library[id_b as int];
    let room_b = aligned_room(template_b, room_a.x, room_a.y, combination);
    let end_a = connection_end(node_a, node_b, combination.2, outbound);
    let end_b = connection_end(node_b, node_a, combination.4, !outbound);
    let door_a = combination.1;
    let door_b = combination.3;
    let with_a = joined_room_a(map, node_a, node_b, combination, outbound);
    let with_b = joined_room_b(map, library, node_a, node_b, id_b, combination, outbound);
    let after = joined_by(map, library, node_a, node_b, id_b, combination, outbound);
    lemma_join_consistent(map, library, weights, node_a, node_b, id_b, combination, outbound);
    lemma_library_combination(library, room_a.template, id_b, combination);
    assert(after.rooms[node_b] == with_b);
    assert(after.rooms[node_a] == with_a);
    assert(reciprocal(door_b) == door_a);
    assert(reciprocal(door_a) == door_b);
    assert(room_b.connections_of(door_b) =~= Seq::empty());
    assert(with_b.connections_of(door_b) =~= seq![end_b]);
    let last = room_a.connections_of(door_a).len() as int;
    assert(with_a.connections_of(door_a) =~= room_a.connections_of(door_a).push(end_a));
    assert(with_a.connections_of(door_a)[last] == end_a);
    assert(answers(with_b, end_b, door_b, with_a, end_a));
    assert(answers(with_a, end_a, door_a, with_b, end_b));
    assert forall|node: usize, door: u8, i: int|
        after.rooms.contains_key(node) && 0 <= i < after.rooms[node].connections_of(
            door,
        ).len() implies #[trigger] after.paired(node, door, i) by {
        if node == node_b {
            if door != door_b {
                assert(with_b.connections_of(door) =~= room_b.connections_of(door));
            }
            assert(door == door_b && i == 0);
            assert(is_door(door_b));
            assert(after.rooms[node].connections_of(door)[i] == end_b);
            assert(after.rooms[end_b.node_b_idx] == with_a);
            assert(with_a.connections_of(reciprocal(door_b))[last] == end_a);
            lemma_paired_by(after, node, door, i, last);
        } else if node == node_a && door == door_a && i == last {
            assert(after.rooms[node].connections_of(door)[i] == end_a);
            assert(after.rooms[end_a.node_b_idx] == with_b);
            assert(with_b.connections_of(reciprocal(door_a))[0] == end_b);
            lemma_paired_by(after, node, door, i, 0);
        } else {
            assert(map.rooms.contains_key(node));
            if node == node_a && door != door_a {
                assert(with_a.connections_of(door) =~= room_a.connections_of(door));
            }
            assert(0 <= i < map.rooms[node].connections_of(door).len());
            assert(map.paired(node, door, i));
            lemma_paired_kept(map, after, node, door, i);
        }
    }
}

/// After the new room has been placed, every room lies on the map column by
/// column and row by row.
proof fn lemma_join_within(
    map: MapView,
    library: Seq<TemplateView>,
    weights: Seq<usize>,
    node_a: usize,
    node_b: usize,
    id_b: usize,
    combination: RoomCombination,
    outbound: bool,
)
    requires
        join_ready(map, library, weights, node_a, node_b, id_b, combination),
    ensures
        joined_by(map, library, node_a, node_b, id_b, combination, outbound).rooms_within(),
{
    let room_a = map.rooms[node_a];
    let template_b = library[id_b as int];
    let room_b = aligned_room(template_b, room_a.x, room_a.y, combination);
    let with_a = joined_room_a(map, node_a, node_b, combination, outbound);
    let with_b = joined_room_b(map, library, node_a, node_b, id_b, combination, outbound);
    let after = joined_by(map, library, node_a, node_b, id_b, combination, outbound);
    lemma_join_consistent(map, library, weights, node_a, node_b, id_b, combination, outbound);
    lemma_library_combination(library, room_a.template, id_b, combination);
    assert(map.rooms.contains_key(node_a));
    assert(room_a.wf() && room_a.true_to_template());
    assert(template_b.wf() && template_b.floored());
    assert(room_b.wf() && room_b.true_to_template());
    lemma_with_door(
        room_b,
        combination.3,
        connection_end(node_b, node_a, combination.4, !outbound),
    );
    lemma_with_door(room_a, combination.1, connection_end(node_a, node_b, combination.2, outbound));
    let at_a = (combination.2.1 - 1) * room_a.template.w + (combination.2.0 - 1);
    lemma_cell_in_grid(
        combination.2.1 - 1,
        combination.2.0 - 1,
        room_a.template.w,
        room_a.template.h,
    );
    lemma_row_major(combination.2.1 - 1, combination.2.0 - 1, room_a.template.w);
    assert(room_a.within(map.width, map.height));
    assert(room_a.tiles[at_a] != 0);
    let column_a = room_a.x + combination.2.0 - 1;
    assert(0 <= column_a < map.width);
    lemma_door_on_map(map, room_b, combination, column_a);
    lemma_room_within(map, room_b, combination.3, combination.4.0 - 1);
    lemma_within_footprint(with_b, room_b, map.width, map.height);
    lemma_within_footprint(with_a, room_a, map.width, map.height);
    assert forall|node: usize| #[trigger] after.rooms.contains_key(node) implies after.rooms[node].within(
        after.width,
        after.height,
    ) by {
        if node != node_a && node != node_b {
            assert(map.rooms.contains_key(node));
        }
    }
}

/// No two tiles that are not empty of a room that lies on the map, column by
/// column and row by row, lie on one cell.
pub proof fn lemma_within_one_tile(room: RoomView, width: int, height: int)
    requires
        room.wf(),
        room.within(width, height),
    ensures
        room.one_tile_per_cell(width),
{
    let w = room.template.w;
    assert forall|k1: int, k2: int, cell: int|
        #[trigger] room.covers(k1, cell, width) && #[trigger] room.covers(
            k2,
            cell,
            width,
        ) implies k1 == k2 by {
        lemma_row_major(room.y + k1 / w, room.x + k1 % w, width);
        lemma_row_major(room.y + k2 / w, room.x + k2 % w, width);
        lemma_index_in_grid(k1, w, room.template.h);
        lemma_index_in_grid(k2, w, room.template.h);
    }
}

/// After the new room has been placed, every covered cell holds the code of the
/// tile that covers it.
proof fn lemma_join_agrees(
    map: MapView,
    library: Seq<TemplateView>,
    weights: Seq<usize>,
    node_a: usize,
    node_b: usize,
    id_b: usize,
    combination: RoomCombination,
    outbound: bool,
)
    requires
        join_ready(map, library, weights, node_a, node_b, id_b, combination),
    ensures
        joined_by(map, library, node_a, node_b, id_b, combination, outbound).tiles_agree(),
{
    let room_a = map.rooms[node_a];
    let template_b = library[id_b as int];
    let room_b = aligned_room(template_b, room_a.x, room_a.y, combination);
    let end_a = connection_end(node_a, node_b, combination.2, outbound);
    let end_b = connection_end(node_b, node_a, combination.4, !outbound);
    let with_a = joined_room_a(map, node_a, node_b, combination, outbound);
    let with_b = joined_room_b(map, library, node_a, node_b, id_b, combination, outbound);
    let between = map.committed(node_b, with_b);
    let after = joined_by(map, library, node_a, node_b, id_b, combination, outbound);
    lemma_join_within(map, library, weights, node_a, node_b, id_b, combination, outbound);
    lemma_join_consistent(map, library, weights, node_a, node_b, id_b, combination, outbound);
    lemma_library_combination(library, room_a.template, id_b, combination);
    assert(map.rooms.contains_key(node_a));
    assert(room_a.wf() && room_a.true_to_template());
    assert(template_b.wf());
    assert(room_b.wf() && room_b.true_to_template());
    lemma_with_door(room_b, combination.3, end_b);
    lemma_with_door(room_a, combination.1, end_a);
    assert(after.rooms.contains_key(node_a) && after.rooms.contains_key(node_b));
    assert(after.rooms[node_a] == with_a && after.rooms[node_b] == with_b);
    lemma_within_one_tile(with_a, map.width, map.height);
    lemma_within_one_tile(with_b, map.width, map.height);
    lemma_can_place_footprint(map, room_b, with_b, combination.3);
    lemma_place_room(map, node_b, with_b, combination.3);
    lemma_place_agrees(map, node_b, with_b, combination.3);
    assert(between.rooms[node_a] == room_a);
    lemma_update_agrees(between, node_a, with_a);
    assert(after == between.committed(node_a, with_a));
}

/// Placing a new room against a placed one through one of the combinations of
/// their templates, at a place where it can be placed, keeps the map sound and
/// lets it grow by that one room.
pub proof fn lemma_join_sound(
    map: MapView,
    library: Seq<TemplateView>,
    weights: Seq<usize>,
    node_a: usize,
    node_b: usize,
    id_b: usize,
    combination: RoomCombination,
    outbound: bool,
)
    requires
        join_ready(map, library, weights, node_a, node_b, id_b, combination),
    ensures
        joined_by(map, library, node_a, node_b, id_b, combination, outbound).sound(
            library,
            weights,
        ),
        joined_by(map, library, node_a, node_b, id_b, combination, outbound).grows_from(map),
        joined_by(map, library, node_a, node_b, id_b, combination, outbound).rooms.dom()
            == map.rooms.dom().insert(node_b),
{
    let after = joined_by(map, library, node_a, node_b, id_b, combination, outbound);
    lemma_join_consistent(map, library, weights, node_a, node_b, id_b, combination, outbound);
    lemma_join_paired(map, library, weights, node_a, node_b, id_b, combination, outbound);
    lemma_join_within(map, library, weights, node_a, node_b, id_b, combination, outbound);
    lemma_join_agrees(map, library, weights, node_a, node_b, id_b, combination, outbound);
    assert(after.rooms.dom() =~= map.rooms.dom().insert(node_b));
    assert(after.from_library(library)) by {
        assert forall|node: usize| #[trigger] after.rooms.contains_key(node) implies after.rooms[node].true_to_template()
            && after.rooms[node].doors_marked() && exists|id: int|
            0 <= id < library.len() && #[trigger] library[id] == after.rooms[node].template by {
            if node == node_a {
                assert(map.rooms.contains_key(node_a));
            } else if node == node_b {
                assert(library[id_b as int] == after.rooms[node].template);
            } else {
                assert(map.rooms.contains_key(node));
            }
        }
    }
    assert(after.rooms_ranked(weights)) by {
        assert forall|node: usize| #[trigger] after.rooms.contains_key(node) implies after.rooms[node].template.room_type
            == RoomType::Start || (node < weights.len() && after.rooms[node].template.room_type
            == wanted_type(weights, node)) by {
            if node != node_b {
                assert(map.rooms.contains_key(node));
            }
        }
    }
}

/// After the new room has been placed, every connection stands for an edge of
/// the graph, if the new one does.
pub proof fn lemma_join_follows(
    map: MapView,
    library: Seq<TemplateView>,
    graph: StableGraph<usize, usize>,
    node_a: usize,
    node_b: usize,
    id_b: usize,
    combination: RoomCombination,
    outbound: bool,
)
    requires
        map.follows(graph),
        map.rooms.contains_key(node_a),
        graph_edge(graph, node_a, node_b, outbound),
    ensures
        joined_by(map, library, node_a, node_b, id_b, combination, outbound).follows(graph),
{
    let room_a = map.rooms[node_a];
    let room_b = aligned_room(library[id_b as int], room_a.x, room_a.y, combination);
    let end_a = connection_end(node_a, node_b, combination.2, outbound);
    let end_b = connection_end(node_b, node_a, combination.4, !outbound);
    let with_a = joined_room_a(map, node_a, node_b, combination, outbound);
    let with_b = joined_room_b(map, library, node_a, node_b, id_b, combination, outbound);
    let after = joined_by(map, library, node_a, node_b, id_b, combination, outbound);
    assert(after.rooms =~= map.rooms.insert(node_b, with_b).insert(node_a, with_a));
    assert(graph_edge(graph, node_b, node_a, !outbound));
    assert forall|node: usize, door: u8, i: int|
        after.rooms.contains_key(node) && 0 <= i < after.rooms[node].connections_of(
            door,
        ).len() implies graph_edge(
        graph,
        node,
        (#[trigger] after.rooms[node].connections_of(door)[i]).node_b_idx,
        after.rooms[node].connections_of(door)[i].direction,
    ) by {
        if node == node_a {
            if door == combination.1 {
                assert(with_a.connections_of(door) =~= room_a.connections_of(door).push(end_a));
                if i < room_a.connections_of(door).len() {
                    assert(with_a.connections_of(door)[i] == room_a.connections_of(door)[i]);
                }
            } else {
                assert(with_a.connections_of(door) =~= room_a.connections_of(door));
                assert(with_a.connections_of(door)[i] == room_a.connections_of(door)[i]);
            }
        } else if node == node_b {
            if door == combination.3 {
                assert(room_b.connections_of(door) =~= Seq::empty());
                assert(with_b.connections_of(door) =~= seq![end_b]);
            } else {
                assert(with_b.connections_of(door) =~= Seq::empty());
            }
        } else {
            assert(map.rooms.contains_key(node));
            assert(after.rooms[node] == map.rooms[node]);
        }
    }
}

/// Placing a room with no door in use keeps every connection an edge of the graph.
pub proof fn lemma_seed_follows(
    map: MapView,
    graph: StableGraph<usize, usize>,
    node: usize,
    room: RoomView,
)
    requires
        map.follows(graph),
        room.connections == Map::<u8, Seq<DoorConnection>>::empty(),
    ensures
        map.committed(node, room).follows(graph),
{
    let after = map.committed(node, room);
    assert forall|other: usize, door: u8, i: int|
        after.rooms.contains_key(other) && 0 <= i < after.rooms[other].connections_of(
            door,
        ).len() implies graph_edge(
        graph,
        other,
        (#[trigger] after.rooms[other].connections_of(door)[i]).node_b_idx,
        after.rooms[other].connections_of(door)[i].direction,
    ) by {
        if other == node {
            assert(room.connections_of(door) =~= Seq::empty());
        } else {
            assert(map.rooms.contains_key(other));
        }
    }
}

/// Placing a room of a template of type `Start`, at a place where it
/// can be placed, keeps the map sound and lets it grow by that one room.
pub proof fn lemma_seed_sound(
    map: MapView,
    library: Seq<TemplateView>,
    weights: Seq<usize>,
    node: usize,
    id: usize,
    room: RoomView,
)
    requires
        map.sound(library, weights),
        library_wf(library),
        library_floored(library),
        !map.rooms.contains_key(node),
        id < library.len(),
        0 <= room.x + (if room.x < 0 {
            -room.x
        } else {
            0
        }) < map.width,
        -room.x < library[id as int].w,
        library[id as int].room_type == RoomType::Start,
        room == (RoomView { x: room.x, y: room.y, ..fresh_room(library[id as int]) }),
        map.can_place(room, 0),
    ensures
        map.committed(node, room).sound(library, weights),
        map.committed(node, room).grows_from(map),
        map.committed(node, room).rooms.dom() == map.rooms.dom().insert(node),
{
    let after = map.committed(node, room);
    assert(library[id as int].wf());
    assert(library[id as int].floored());
    lemma_place_room(map, node, room, 0);
    assert(after.rooms.dom() =~= map.rooms.dom().insert(node));
    assert(after.rooms_within()) by {
        lemma_room_within(
            map,
            room,
            0,
            if room.x < 0 {
                -room.x
            } else {
                0
            },
        );
        assert forall|other: usize| #[trigger] after.rooms.contains_key(other) implies after.rooms[other].within(
            after.width,
            after.height,
        ) by {
            if other != node {
                assert(map.rooms.contains_key(other));
            }
        }
    }
    assert(after.tiles_agree()) by {
        assert(after.rooms.contains_key(node) && after.rooms[node] == room);
        lemma_within_one_tile(room, map.width, map.height);
        lemma_place_agrees(map, node, room, 0);
    }
    assert(after.grows_from(map)) by {
        assert forall|other: usize| #[trigger] map.rooms.contains_key(other) implies after.rooms.contains_key(
            other,
        ) && after.rooms[other].extends(map.rooms[other]) by {
            let kept = map.rooms[other];
            assert(after.rooms[other] == kept);
            assert forall|door: u8| #[trigger]
                kept.connections_of(door).is_prefix_of(kept.connections_of(door)) by {
            }
        }
    }
    assert(after.from_library(library)) by {
        assert forall|other: usize| #[trigger] after.rooms.contains_key(other) implies after.rooms[other].true_to_template()
            && after.rooms[other].doors_marked() && exists|t: int|
            0 <= t < library.len() && #[trigger] library[t] == after.rooms[other].template by {
            if other == node {
                assert(library[id as int] == room.template);
                lemma_fresh_room_marked(room);
            } else {
                assert(map.rooms.contains_key(other));
            }
        }
    }
    assert(after.rooms_ranked(weights)) by {
        assert forall|other: usize| #[trigger] after.rooms.contains_key(other) implies after.rooms[other].template.room_type
            == RoomType::Start || (other < weights.len() && after.rooms[other].template.room_type
            == wanted_type(weights, other)) by {
            if other != node {
                assert(map.rooms.contains_key(other));
            }
        }
    }
    assert(after.all_paired()) by {
        assert forall|other: usize, door: u8, i: int|
            after.rooms.contains_key(other) && 0 <= i < after.rooms[other].connections_of(
                door,
            ).len() implies #[trigger] after.paired(other, door, i) by {
            if other == node {
                assert(room.connections_of(door) =~= Seq::empty());
            } else {
                assert(map.rooms.contains_key(other));
                assert(map.paired(other, door, i));
                lemma_paired_kept(map, after, other, door, i);
            }
        }
    }
}

/// On a sound map, a room of type `Boss` stands for a node whose weight is the
/// last of the weights.
pub proof fn lemma_boss_weight(
    map: MapView,
    library: Seq<TemplateView>,
    weights: Seq<usize>,
    node: usize,
)
    requires
        map.sound(library, weights),
        map.rooms.contains_key(node),
        map.rooms[node].template.room_type == RoomType::Boss,
    ensures
        node < weights.len(),
        weights[node as int] == weights.last(),
{
}

/// A map that has grown from a map on which the seed was placed holds the seed
/// where it was placed: a room of the start template, in the centre of the map.
pub proof fn lemma_seed_centred(
    map: MapView,
    empty: MapView,
    library: Seq<TemplateView>,
    node: usize,
)
    requires
        map.grows_from(empty.committed(node, seed_room(empty, library))),
    ensures
        map.rooms.contains_key(node),
        map.rooms[node].template == start_template(library),
        map.rooms[node].x == map.width / 2 - start_template(library).w / 2,
        map.rooms[node].y == map.height / 2 - start_template(library).h / 2,
{
    let seeded = empty.committed(node, seed_room(empty, library));
    assert(seeded.rooms.contains_key(node));
    assert(map.rooms[node].extends(seeded.rooms[node]));
}

/// On a sound map, the door of every connection and the door of its other end
/// lie on neighbouring cells of the map, the second on the side of the first
/// that the first opens onto.
pub proof fn lemma_doors_meet(
    map: MapView,
    library: Seq<TemplateView>,
    weights: Seq<usize>,
    node: usize,
    door: u8,
    i: int,
)
    requires
        map.sound(library, weights),
        map.rooms.contains_key(node),
        0 <= i < map.rooms[node].connections_of(door).len(),
    ensures
        map.rooms.contains_key(map.rooms[node].connections_of(door)[i].node_b_idx),
        exists|j: int|
            0 <= j < map.rooms[map.rooms[node].connections_of(door)[i].node_b_idx].connections_of(
                reciprocal(door),
            ).len() && answers(
                map.rooms[node],
                map.rooms[node].connections_of(door)[i],
                door,
                map.rooms[map.rooms[node].connections_of(door)[i].node_b_idx],
                #[trigger] map.rooms[map.rooms[node].connections_of(door)[i].node_b_idx].connections_of(
                    reciprocal(door),
                )[j],
            ),
{
    assert(map.paired(node, door, i));
}

} // verus!
