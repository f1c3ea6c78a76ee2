//! Placed rooms and the connections between them.

use crate::common::XY;
use crate::common::lemma_cell_in_grid;
use crate::common::xy_idx;
use crate::common::DOOR_CONNECTED;
use crate::common::DOOR_EAST;
use crate::common::DOOR_NORTH;
use crate::common::DOOR_SOUTH;
use crate::common::DOOR_WEST;
use crate::graph::NeighbourMap;
use crate::graph::index_view;
use crate::map::room_templates::RoomCombination;
use crate::map::room_templates::RoomTemplate;
use crate::map::room_templates::TemplateView;
use std::collections::HashMap;
use vstd::prelude::*;

verus! {

broadcast use vstd::std_specs::hash::group_hash_axioms;

/// The role that a room plays in a level.
#[derive(Clone, Copy, Debug, PartialEq, Eq, Structural)]
pub enum RoomType {
    Start,
    Normal,
    Boss,
}

impl Default for RoomType {
    fn default() -> (room_type: RoomType)
        ensures
            room_type == RoomType::Normal,
    {
        RoomType::Normal
    }
}

/// For each door code, the positions at which a template has a door of that code.
pub type DoorsXY = HashMap<u8, Vec<XY>>;

/// What `DoorsXY` stands for: the positions under each door code that has any.
pub open spec fn doors_view(doors: DoorsXY) -> Map<u8, Seq<XY>> {
    doors@.map_values(|positions: Vec<XY>| positions@)
}

/// One end of a connection between two placed rooms through a pair of doors.
#[derive(Clone, Copy, Debug)]
pub struct DoorConnection {
    /// The node of the room that holds this end.
    pub node_a_idx: usize,
    /// The node of the room at the other end.
    pub node_b_idx: usize,
    /// The position of the door in this room, counted from 1.
    pub xy: XY,
    /// Whether the graph's edge leads from this room to the other.
    pub direction: bool,
}

/// For each door code, the connections made through doors of that code.
pub type DoorConnections = HashMap<u8, Vec<DoorConnection>>;

/// A template instance on the map.
pub struct Room {
    /// The column of the room's top left corner on the map.
    pub x: i32,
    /// The row of the room's top left corner on the map.
    pub y: i32,
    pub template: RoomTemplate,
    /// The doors in use.
    pub door_connections: DoorConnections,
    /// The room's own copy of its template's tiles, with the doors in use marked.
    pub tiles: Vec<u8>,
}

/// The mathematical content of a `Room`.
pub struct RoomView {
    pub x: int,
    pub y: int,
    pub template: TemplateView,
    pub connections: Map<u8, Seq<DoorConnection>>,
    pub tiles: Seq<u8>,
}

impl View for Room {
    type V = RoomView;

    open spec fn view(&self) -> RoomView {
        RoomView {
            x: self.x as int,
            y: self.y as int,
            template: self.template@,
            connections: self.door_connections@.map_values(|c: Vec<DoorConnection>| c@),
            tiles: self.tiles@,
        }
    }
}

impl Clone for Room {
    fn clone(&self) -> (copy: Room)
        ensures
            copy@ == self@,
    {
        Room {
            x: self.x,
            y: self.y,
            template: self.template.clone(),
            door_connections: self.door_connections.clone(),
            tiles: self.tiles.clone(),
        }
    }
}

impl RoomView {
    /// Whether the room is sound: its template is, and its tiles fill the
    /// template's rectangle.
    pub open spec fn wf(self) -> bool {
        &&& self.template.wf()
        &&& self.tiles.len() == self.template.tiles.len()
    }

    /// The connections through doors of code `door`, oldest first.
    pub open spec fn connections_of(self, door: u8) -> Seq<DoorConnection> {
        if self.connections.contains_key(door) {
            self.connections[door]
        } else {
            Seq::empty()
        }
    }

    /// The room after a connection has been made through its door of code `door`.
    pub open spec fn with_door(self, door: u8, connection: DoorConnection) -> RoomView {
        RoomView {
            connections: self.connections.insert(
                door,
                self.connections_of(door).push(connection),
            ),
            tiles: self.tiles.update(
                (connection.xy.1 - 1) * self.template.w + (connection.xy.0 - 1),
                DOOR_CONNECTED,
            ),
            ..self
        }
    }
}

impl Room {
    /// A room of the given template at the origin of the map, with no door in use.
    pub fn new(template: RoomTemplate) -> (room: Room)
        ensures
            room@ == (RoomView {
                x: 0,
                y: 0,
                template: template@,
                connections: Map::empty(),
                tiles: template@.tiles,
            }),
    {
        let room = Room {
            x: 0,
            y: 0,
            tiles: template.tiles.clone(),
            template,
            door_connections: HashMap::new(),
        };
        assert(room@.connections =~= Map::empty());
        room
    }

    /// Records a connection from node `node_a_idx` to node `node_b_idx` through the
    /// door of code `door_type` at `xy`, and marks that door as connected.
    pub fn add_door(
        &mut self,
        node_a_idx: usize,
        node_b_idx: usize,
        door_type: u8,
        xy: XY,
        dir: bool,
    )
        requires
            old(self)@.wf(),
            old(self)@.template.holds(xy),
        ensures
            final(self)@ == old(self)@.with_door(
                door_type,
                DoorConnection { node_a_idx, node_b_idx, xy, direction: dir },
            ),
            final(self)@.wf(),
    {
        let connection = DoorConnection { node_a_idx, node_b_idx, xy, direction: dir };
        let ghost before = self@;
        // the connections under the door's code are taken out, extended and put back
        let mut doors: Vec<DoorConnection> = match self.door_connections.remove(&door_type) {
            Some(doors) => doors,
            None => Vec::new(),
        };
        assert(doors@ == before.connections_of(door_type));
        doors.push(connection);
        self.door_connections.insert(door_type, doors);
        proof {
            lemma_cell_in_grid(
                (xy.1 - 1) as int,
                (xy.0 - 1) as int,
                self.template.w as int,
                self.template.h as int,
            );
        }
        let idx = xy_idx(xy.0 - 1, xy.1 - 1, self.template.w);
        self.tiles.set(idx, DOOR_CONNECTED);
        assert(self@.connections =~= before.with_door(door_type, connection).connections);
    }
}

/// The step from a door of code `door` to the cell that it opens onto.
pub open spec fn door_step(door: u8) -> (int, int) {
    if door == DOOR_NORTH {
        (0, -1)
    } else if door == DOOR_EAST {
        (1, 0)
    } else if door == DOOR_SOUTH {
        (0, 1)
    } else if door == DOOR_WEST {
        (-1, 0)
    } else {
        (0, 0)
    }
}

/// Where room B's origin comes to lie when it is laid against a room at
/// `(ax, ay)` by `combination`: the combination's offset away, and one cell
/// further so that the two doors are neighbours and do not share a cell.
pub open spec fn aligned_origin(ax: int, ay: int, combination: RoomCombination) -> (int, int) {
    (
        ax - (combination.0.0 + door_step(combination.3).0),
        ay - (combination.0.1 + door_step(combination.3).1),
    )
}

/// Moves `room_b` to where `combination` puts it against `room_a`. Returns a copy
/// of the moved room.
pub fn align_room_b(room_a: &Room, room_b: &mut Room, combination: RoomCombination) -> (moved: Room)
    requires
        i32::MIN <= aligned_origin(room_a.x as int, room_a.y as int, combination).0 <= i32::MAX,
        i32::MIN <= aligned_origin(room_a.x as int, room_a.y as int, combination).1 <= i32::MAX,
    ensures
        final(room_b)@ == (RoomView {
            x: aligned_origin(room_a.x as int, room_a.y as int, combination).0,
            y: aligned_origin(room_a.x as int, room_a.y as int, combination).1,
            ..old(room_b)@
        }),
        moved@ == final(room_b)@,
{
    let ((room_b_x, room_b_y), _, _, door_b_type, _) = combination;
    let (x_offset, y_offset): (i64, i64) = match door_b_type {
        2 => (0, -1),
        3 => (1, 0),
        4 => (0, 1),
        5 => (-1, 0),
        _ => (0, 0),
    };
    room_b.x = (room_a.x as i64 - (room_b_x as i64 + x_offset)) as i32;
    room_b.y = (room_a.y as i64 - (room_b_y as i64 + y_offset)) as i32;
    room_b.clone()
}

/// An edge as seen from `node`: the node itself, the node at the other end, and
/// whether the edge leads away from `node`.
pub open spec fn seen_from(node: usize, edge: (usize, usize)) -> (usize, usize, bool) {
    if edge.0 == node {
        (edge.0, edge.1, true)
    } else {
        (edge.1, edge.0, false)
    }
}

/// The edges at `node` that the index records, oldest first; none where it
/// records none.
pub open spec fn edges_at(neighbour_map: Map<usize, Seq<(usize, usize)>>, node: usize) -> Seq<
    (usize, usize),
> {
    if neighbour_map.contains_key(node) {
        neighbour_map[node]
    } else {
        Seq::empty()
    }
}

/// The edges at node `node_idx`, each as seen from that node.
pub fn get_neighbours(node_idx: &usize, neighbour_map: &NeighbourMap) -> (neighbours: Vec<
    (usize, usize, bool),
>)
    ensures
        neighbours@ == edges_at(index_view(*neighbour_map), *node_idx).map_values(
            |edge: (usize, usize)| seen_from(*node_idx, edge),
        ),
{
    let mut neighbours: Vec<(usize, usize, bool)> = Vec::new();
    let ghost edges = edges_at(index_view(*neighbour_map), *node_idx);
    if let Some(found) = neighbour_map.get(node_idx) {
        let mut i: usize = 0;
        while i < found.len()
            invariant
                found@ == edges,
                i <= found.len(),
                neighbours@ == edges.take(i as int).map_values(
                    |edge: (usize, usize)| seen_from(*node_idx, edge),
                ),
            decreases found.len() - i,
        {
            let (n1, n2) = found[i];
            let outbound = n1 == *node_idx;
            if outbound {
                neighbours.push((n1, n2, outbound));
            } else {
                neighbours.push((n2, n1, outbound));
            }
            i += 1;
            assert(neighbours@ =~= edges.take(i as int).map_values(
                |edge: (usize, usize)| seen_from(*node_idx, edge),
            ));
        }
        assert(edges.take(found.len() as int) =~= edges);
    } else {
        assert(neighbours@ =~= edges.map_values(
            |edge: (usize, usize)| seen_from(*node_idx, edge),
        ));
    }
    neighbours
}

} // verus!
