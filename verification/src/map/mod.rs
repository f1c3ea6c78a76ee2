//! The tile grid with the rooms placed on it: the placement check and the commit.

use crate::common::cell_index;
use crate::common::lemma_index_in_grid;
use crate::common::CONFLICT;
use crate::common::DOOR_EAST;
use crate::common::DOOR_NORTH;
use crate::common::DOOR_SOUTH;
use crate::common::DOOR_WEST;
use crate::common::FLOOR;
use crate::map::room::Room;
use crate::map::room::RoomType;
use crate::map::room::RoomView;
use crate::map::room_templates::RoomTemplates;
use crate::map::room_templates::TemplateView;
use crate::map::room_templates::get;
use crate::map::room_templates::has_start;
use crate::map::room_templates::start_template;
use crate::map::room_templates::lemma_ids_of_type;
use std::collections::HashMap;
use vstd::prelude::*;

pub mod invariants;
pub mod room;
pub mod room_template_definitions;
pub mod room_templates;

verus! {

broadcast use vstd::std_specs::hash::group_hash_axioms;

/// The level under construction: the tile grid, row by row, and the rooms placed
/// on it, each under the graph node that it stands for.
pub struct TileMap {
    pub tiles: Vec<u8>,
    pub rooms: HashMap<usize, Room>,
    pub width: i32,
    pub height: i32,
}

/// The mathematical content of a `TileMap`.
pub struct MapView {
    pub width: int,
    pub height: int,
    pub tiles: Seq<u8>,
    pub rooms: Map<usize, RoomView>,
}

impl View for TileMap {
    type V = MapView;

    open spec fn view(&self) -> MapView {
        MapView {
            width: self.width as int,
            height: self.height as int,
            tiles: self.tiles@,
            rooms: self.rooms@.map_values(|room: Room| room@),
        }
    }
}

impl RoomView {
    /// The index of the map cell that the room's tile of index `k` lies on, on a
    /// map `width` cells wide. The index is outside the map's range where the
    /// tile lies off the map.
    pub open spec fn cell(self, k: int, width: int) -> int {
        cell_index(self.x + k % self.template.w, self.y + k / self.template.w, width)
    }
}

/// Whether the cell of index `idx` counts as lying on the east edge of a map
/// `width` cells wide.
pub open spec fn on_east_edge(idx: int, width: int) -> bool {
    (idx + 1) % width == 0
}

/// Whether the cell of index `idx` counts as lying on the west edge.
pub open spec fn on_west_edge(idx: int, width: int) -> bool {
    (idx + 1) % width == 1
}

/// Whether the cell of index `idx` counts as lying on the north edge.
pub open spec fn on_north_edge(idx: int, width: int) -> bool {
    idx + 1 < width
}

/// Whether the cell of index `idx` counts as lying on the south edge of a map
/// of `len` cells.
pub open spec fn on_south_edge(idx: int, width: int, len: int) -> bool {
    idx + 1 > len - width
}

/// Whether the cell lies on any edge of the map.
pub open spec fn on_any_edge(idx: int, width: int, len: int) -> bool {
    on_east_edge(idx, width) || on_west_edge(idx, width) || on_north_edge(idx, width)
        || on_south_edge(idx, width, len)
}

/// Whether the cell lies on the edge that a door of code `door` opens onto.
pub open spec fn on_edge_of(idx: int, door: u8, width: int, len: int) -> bool {
    ||| door == DOOR_NORTH && on_north_edge(idx, width)
    ||| door == DOOR_EAST && on_east_edge(idx, width)
    ||| door == DOOR_SOUTH && on_south_edge(idx, width, len)
    ||| door == DOOR_WEST && on_west_edge(idx, width)
}

/// Whether a tile of code `tile` on the cell of index `idx` puts its room across
/// the side of the map: the cell lies on the edge that the room's door opens
/// onto, or the tile is interior floor on any edge.
pub open spec fn crosses_side(idx: int, tile: u8, door_type: u8, width: int, len: int) -> bool {
    on_edge_of(idx, door_type, width, len) || (tile == FLOOR && on_any_edge(idx, width, len))
}

/// Whether the door or the floor of a room crosses the side of the map at the
/// cell of index `idx`.
pub fn room_crosses_side_of_map(idx: usize, tile: u8, door_type: u8, width: usize, len: usize) -> (crosses:
    bool)
    requires
        0 < width <= len,
        idx < len,
    ensures
        crosses == crosses_side(idx as int, tile, door_type, width as int, len as int),
{
    // the edges are told from the cell's index, counted from 1
    let east = (idx + 1) % width == 0;
    let west = (idx + 1) % width == 1;
    let north = (idx + 1) < width;
    let south = (idx + 1) > len - width;
    let on_door_edge = (door_type == DOOR_NORTH && north) || (door_type == DOOR_EAST && east) || (
    door_type == DOOR_SOUTH && south) || (door_type == DOOR_WEST && west);
    on_door_edge || (tile == FLOOR && (east || west || north || south))
}

impl MapView {
    /// Whether the map is sound: its grid has its width times its height cells,
    /// and every room on it is sound.
    pub open spec fn wf(self) -> bool {
        &&& 0 < self.width
        &&& 0 < self.height
        &&& self.tiles.len() == self.width * self.height
        &&& self.tiles.len() <= i32::MAX
        &&& forall|node: usize| #[trigger] self.rooms.contains_key(node) ==> self.rooms[node].wf()
    }

    /// Whether `cell` is the index of a cell of the map.
    pub open spec fn in_range(self, cell: int) -> bool {
        0 <= cell < self.tiles.len()
    }

    /// Whether the room's tile of index `k` stands in the way of placing the room
    /// where it is: the tile is not empty and lies off the map or on a cell that
    /// is taken, or it puts the room across the side of the map.
    pub open spec fn conflict(self, room: RoomView, door_type: u8, k: int) -> bool {
        let cell = room.cell(k, self.width);
        let tile = room.tiles[k];
        if self.in_range(cell) {
            (tile != 0 && self.tiles[cell] != 0) || crosses_side(
                cell,
                tile,
                door_type,
                self.width,
                self.tiles.len() as int,
            )
        } else {
            tile != 0
        }
    }

    /// Whether the room can be placed where it is, entered through a door of
    /// code `door_type`: none of its tiles is in conflict.
    pub open spec fn can_place(self, room: RoomView, door_type: u8) -> bool {
        forall|k: int| 0 <= k < room.tiles.len() ==> !#[trigger] self.conflict(room, door_type, k)
    }
}

/// The grid after the first `n` tiles of `room` have been written to it. An
/// empty tile, or one that lies off the grid, writes nothing. A tile of a room
/// that is new to the map writes the conflict marker 9 where it finds interior
/// floor; any other tile writes its own code.
pub open spec fn painted(tiles: Seq<u8>, width: int, room: RoomView, is_new: bool, n: nat) -> Seq<u8>
    decreases n,
{
    if n == 0 {
        tiles
    } else {
        let before = painted(tiles, width, room, is_new, (n - 1) as nat);
        let cell = room.cell(n - 1, width);
        let tile = room.tiles[n - 1];
        if tile != 0 && 0 <= cell < tiles.len() {
            before.update(
                cell,
                if is_new && before[cell] == FLOOR {
                    CONFLICT
                } else {
                    tile
                },
            )
        } else {
            before
        }
    }
}

impl MapView {
    /// The map after `room` has been written to the grid and stored under `node`.
    pub open spec fn committed(self, node: usize, room: RoomView) -> MapView {
        MapView {
            tiles: painted(
                self.tiles,
                self.width,
                room,
                !self.rooms.contains_key(node),
                room.tiles.len(),
            ),
            rooms: self.rooms.insert(node, room),
            ..self
        }
    }
}

/// Painting keeps the number of cells.
pub proof fn lemma_painted_len(tiles: Seq<u8>, width: int, room: RoomView, is_new: bool, n: nat)
    ensures
        painted(tiles, width, room, is_new, n).len() == tiles.len(),
    decreases n,
{
    if n > 0 {
        lemma_painted_len(tiles, width, room, is_new, (n - 1) as nat);
    }
}

/// The index, as a wide integer, of the map cell under the room's tile of index `k`.
fn cell_of(room: &Room, k: usize, width: i32) -> (cell: i64)
    requires
        room@.wf(),
        k < room.tiles.len(),
        0 < width,
    ensures
        cell == room@.cell(k as int, width as int),
{
    let w: usize = room.template.w as usize;
    proof {
        lemma_index_in_grid(k as int, room.template.w as int, room.template.h as int);
    }
    let row: i32 = (k / w) as i32;
    let column: i32 = (k % w) as i32;
    let x: i64 = room.x as i64 + column as i64;
    let y: i64 = room.y as i64 + row as i64;
    assert(-0x7fff_ffff_0000_0000 <= y * (width as int) <= 0x7fff_ffff_0000_0000)
        by (nonlinear_arith)
        requires
            -0x8000_0000 <= y <= 0xffff_fffe,
            0 < width <= 0x7fff_ffff,
    ;
    y * (width as i64) + x
}

impl TileMap {
    /// An empty map of `width` by `height` cells.
    pub fn new(width: i32, height: i32) -> (map: TileMap)
        requires
            0 < width,
            0 < height,
            width * height <= i32::MAX,
        ensures
            map@ == (MapView {
                width: width as int,
                height: height as int,
                tiles: Seq::new((width * height) as nat, |i: int| 0u8),
                rooms: Map::empty(),
            }),
            map@.wf(),
    {
        assert(0 < width * height) by (nonlinear_arith)
            requires
                0 < width,
                0 < height,
        ;
        let tilecount: usize = (width * height) as usize;
        let map = TileMap {
            width,
            height,
            rooms: HashMap::new(),
            tiles: vec![0u8; tilecount],
        };
        assert(map@.tiles =~= Seq::new((width * height) as nat, |i: int| 0u8));
        assert(map@.rooms =~= Map::empty());
        map
    }
}

/// Writes the tiles of `room` to the grid and stores the room under the node
/// `node_idx`, in place of any room stored there before.
pub fn add_or_update_room(map: &mut TileMap, node_idx: usize, room: Room)
    requires
        old(map)@.wf(),
        room@.wf(),
    ensures
        final(map)@ == old(map)@.committed(node_idx, room@),
        final(map)@.wf(),
{
    let is_new_room = !map.rooms.contains_key(&node_idx);
    let ghost start = map@;
    let mut k: usize = 0;
    while k < room.tiles.len()
        invariant
            room@.wf(),
            start.wf(),
            k <= room.tiles.len(),
            is_new_room == !start.rooms.contains_key(node_idx),
            map@ == (MapView {
                tiles: painted(start.tiles, start.width, room@, is_new_room, k as nat),
                ..start
            }),
            map@.tiles.len() == start.tiles.len(),
        decreases room.tiles.len() - k,
    {
        let tile: u8 = room.tiles[k];
        let cell: i64 = cell_of(&room, k, map.width);
        // empty tiles write nothing, and nothing is written off the grid
        if tile != 0 && 0 <= cell && cell < map.tiles.len() as i64 {
            let idx: usize = cell as usize;
            if is_new_room && map.tiles[idx] == FLOOR {
                map.tiles.set(idx, CONFLICT);
            } else {
                map.tiles.set(idx, tile);
            }
        }
        k += 1;
    }
    map.rooms.insert(node_idx, room);
    assert(map@.rooms =~= start.rooms.insert(node_idx, room@));
}

/// Whether `room` can be placed on the map where it is, entered through a door
/// of code `door_type`.
pub fn can_place_room(map: &TileMap, room: &Room, door_type: u8) -> (can_place: bool)
    requires
        map@.wf(),
        room@.wf(),
    ensures
        can_place == map@.can_place(room@, door_type),
{
    let mut k: usize = 0;
    while k < room.tiles.len()
        invariant
            map@.wf(),
            room@.wf(),
            k <= room.tiles.len(),
            forall|j: int| 0 <= j < k ==> !#[trigger] map@.conflict(room@, door_type, j),
        decreases room.tiles.len() - k,
    {
        let tile: u8 = room.tiles[k];
        let cell: i64 = cell_of(room, k, map.width);
        let in_range = 0 <= cell && cell < map.tiles.len() as i64;
        let has_conflicts = if in_range {
            let idx: usize = cell as usize;
            assert(map.width <= map.tiles.len()) by (nonlinear_arith)
                requires
                    map.tiles.len() == map.width * map.height,
                    0 < map.width,
                    0 < map.height,
            ;
            (tile != 0 && map.tiles[idx] != 0) || room_crosses_side_of_map(
                idx,
                tile,
                door_type,
                map.width as usize,
                map.tiles.len(),
            )
        } else {
            tile != 0
        };
        if has_conflicts {
            assert(map@.conflict(room@, door_type, k as int));
            return false;
        }
        k += 1;
    }
    true
}

/// The origin at which `room` lies in the centre of the map.
pub open spec fn centre_of(map: MapView, room: RoomView) -> (int, int) {
    (map.width / 2 - room.template.w / 2, map.height / 2 - room.template.h / 2)
}

/// The origin at which `room` lies in the centre of the map.
pub fn centre_coordinates(room: &Room, map: &TileMap) -> (centre: (i32, i32))
    requires
        map@.wf(),
        room@.wf(),
    ensures
        centre.0 == centre_of(map@, room@).0,
        centre.1 == centre_of(map@, room@).1,
{
    (map.width / 2 - room.template.w / 2, map.height / 2 - room.template.h / 2)
}

/// The room that a fresh instance of `template` is.
pub open spec fn fresh_room(template: TemplateView) -> RoomView {
    RoomView { x: 0, y: 0, template, connections: Map::empty(), tiles: template.tiles }
}

/// A copy of the room placed under node `idx`; where there is none, a fresh room
/// of the first template of type `Start`.
pub fn find_or_create_start_room(map: &TileMap, templates: &RoomTemplates, idx: &usize) -> (room: Room)
    requires
        has_start(templates@),
    ensures
        room@ == if map@.rooms.contains_key(*idx) {
            map@.rooms[*idx]
        } else {
            fresh_room(start_template(templates@))
        },
{
    match map.rooms.get(idx) {
        Some(found_room) => found_room.clone(),
        None => {
            let start_room_templates = templates.of_type(RoomType::Start);
            let id: usize = start_room_templates[0];
            proof {
                assert(templates@.len() == templates.rooms.len());
                lemma_ids_of_type(
                    templates@,
                    RoomType::Start,
                    templates@.len(),
                    0,
                );
            }
            Room::new(get(&id, templates))
        },
    }
}

} // verus!
