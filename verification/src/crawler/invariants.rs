//! What holds of a map at every step of a generation.

use crate::graph::graph_neighbours;
use crate::map::MapView;
use crate::map::room::DoorConnection;
use crate::map::room::RoomType;
use crate::map::room::RoomView;
use crate::map::room::door_step;
use crate::map::room_template_definitions::is_door;
use crate::map::room_template_definitions::position_of;
use crate::map::room_templates::TemplateView;
use crate::map::room_templates::reciprocal;
use petgraph::stable_graph::StableGraph;
use vstd::prelude::*;

verus! {

/// The type of room that the node asks for: a boss room where its weight is the
/// last of the weights, a normal room otherwise.
pub open spec fn wanted_type(weights: Seq<usize>, node: usize) -> RoomType {
    if weights[node as int] == weights.last() {
        RoomType::Boss
    } else {
        RoomType::Normal
    }
}

/// Whether the graph has the edge between `node` and `peer` that a connection
/// held by `node` stands for: from `node` to `peer` where the connection runs
/// outward, from `peer` to `node` where it does not.
pub open spec fn graph_edge(
    graph: StableGraph<usize, usize>,
    node: usize,
    peer: usize,
    outbound: bool,
) -> bool {
    if outbound {
        graph_neighbours(graph, node).contains(peer)
    } else {
        graph_neighbours(graph, peer).contains(node)
    }
}

/// The column and row of the map cell on which the door of a connection lies.
pub open spec fn door_cell(room: RoomView, connection: DoorConnection) -> (int, int) {
    (room.x + connection.xy.0 - 1, room.y + connection.xy.1 - 1)
}

/// Whether `reply`, held by `peer`, is the other end of `connection`, held by
/// `room` under the door code `door`: it names the two nodes the other way
/// round, runs the other way, and its door lies on the cell next to the door of
/// `connection`, on the side that a door of code `door` opens onto.
pub open spec fn answers(
    room: RoomView,
    connection: DoorConnection,
    door: u8,
    peer: RoomView,
    reply: DoorConnection,
) -> bool {
    &&& reply.node_a_idx == connection.node_b_idx
    &&& reply.node_b_idx == connection.node_a_idx
    &&& reply.direction == !connection.direction
    &&& door_cell(peer, reply).0 == door_cell(room, connection).0 + door_step(door).0
    &&& door_cell(peer, reply).1 == door_cell(room, connection).1 + door_step(door).1
}

impl RoomView {
    /// Whether the room's tiles are those of its template, but for doors marked
    /// as connected.
    pub open spec fn true_to_template(self) -> bool {
        forall|k: int|
            0 <= k < self.tiles.len() ==> #[trigger] self.tiles[k] == self.template.tiles[k] || (
            self.tiles[k] == 7 && is_door(self.template.tiles[k]))
    }

    /// Whether the door of the tile of index `k` is in use: one of the room's
    /// connections runs through it.
    pub open spec fn uses_door_at(self, k: int) -> bool {
        exists|door: u8, i: int|
            0 <= i < self.connections_of(door).len() && (#[trigger] self.connections_of(
                door,
            )[i]).xy == position_of(k, self.template.w)
    }

    /// Whether the doors in use are the doors marked as connected: each
    /// connection runs through a candidate door of the code that it is held
    /// under, which is marked, and each marked door has a connection.
    pub open spec fn doors_marked(self) -> bool {
        &&& forall|door: u8, i: int|
            0 <= i < self.connections_of(door).len() ==> {
                let xy = (#[trigger] self.connections_of(door)[i]).xy;
                let k = (xy.1 - 1) * self.template.w + (xy.0 - 1);
                self.template.holds(xy) && self.tiles[k] == 7 && self.template.tiles[k] == door
            }
        &&& forall|k: int|
            0 <= k < self.tiles.len() && #[trigger] self.tiles[k] == 7 ==> self.uses_door_at(k)
    }

    /// Whether every tile of the room that is not empty lies, by its column and
    /// its row, on a map of `width` by `height` cells.
    pub open spec fn within(self, width: int, height: int) -> bool {
        forall|k: int|
            0 <= k < self.tiles.len() && #[trigger] self.tiles[k] != 0 ==> 0 <= self.x + k
                % self.template.w < width && 0 <= self.y + k / self.template.w < height
    }

    /// Whether the room is `earlier` with, at most, more doors in use: it lies
    /// where `earlier` lies, has its template and its footprint, and holds the
    /// connections of `earlier`, each where it was, before any further ones.
    pub open spec fn extends(self, earlier: RoomView) -> bool {
        &&& self.template == earlier.template
        &&& self.same_footprint(earlier)
        &&& forall|door: u8| #[trigger]
            earlier.connections_of(door).is_prefix_of(self.connections_of(door))
    }
}

impl MapView {
    /// Whether the connection of index `i` under the door code `door` of the room
    /// at `node` has its other end in the room that it names.
    pub open spec fn paired(self, node: usize, door: u8, i: int) -> bool {
        let room = self.rooms[node];
        let connection = room.connections_of(door)[i];
        &&& is_door(door)
        &&& connection.node_a_idx == node
        &&& self.rooms.contains_key(connection.node_b_idx)
        &&& exists|j: int|
            0 <= j < self.rooms[connection.node_b_idx].connections_of(reciprocal(door)).len()
                && answers(
                room,
                connection,
                door,
                self.rooms[connection.node_b_idx],
                #[trigger] self.rooms[connection.node_b_idx].connections_of(reciprocal(door))[j],
            )
    }

    /// Every connection of every placed room has its other end in the room that
    /// it names.
    pub open spec fn all_paired(self) -> bool {
        forall|node: usize, door: u8, i: int|
            self.rooms.contains_key(node) && 0 <= i < self.rooms[node].connections_of(door).len()
                ==> #[trigger] self.paired(node, door, i)
    }

    /// Every connection stands for an edge of the graph.
    pub open spec fn follows(self, graph: StableGraph<usize, usize>) -> bool {
        forall|node: usize, door: u8, i: int|
            self.rooms.contains_key(node) && 0 <= i < self.rooms[node].connections_of(door).len()
                ==> graph_edge(
                graph,
                node,
                (#[trigger] self.rooms[node].connections_of(door)[i]).node_b_idx,
                self.rooms[node].connections_of(door)[i].direction,
            )
    }

    /// Every placed room is an instance of a template of the library, with the
    /// doors in use marked as connected.
    pub open spec fn from_library(self, library: Seq<TemplateView>) -> bool {
        forall|node: usize| #[trigger]
            self.rooms.contains_key(node) ==> self.rooms[node].true_to_template()
                && self.rooms[node].doors_marked() && exists|id: int|
                0 <= id < library.len() && #[trigger] library[id] == self.rooms[node].template
    }

    /// Every placed room is of type `Start`, or stands for one of the weighted
    /// nodes and is of the type that the node asks for.
    pub open spec fn rooms_ranked(self, weights: Seq<usize>) -> bool {
        forall|node: usize| #[trigger]
            self.rooms.contains_key(node) ==> self.rooms[node].template.room_type
                == RoomType::Start || (node < weights.len()
                && self.rooms[node].template.room_type == wanted_type(weights, node))
    }

    /// Every placed room lies on the map, column by column and row by row.
    pub open spec fn rooms_within(self) -> bool {
        forall|node: usize| #[trigger]
            self.rooms.contains_key(node) ==> self.rooms[node].within(self.width, self.height)
    }

    /// What holds of a map at every step of a generation.
    pub open spec fn sound(self, library: Seq<TemplateView>, weights: Seq<usize>) -> bool {
        &&& self.consistent()
        &&& self.tiles_agree()
        &&& self.rooms_within()
        &&& self.from_library(library)
        &&& self.all_paired()
        &&& self.rooms_ranked(weights)
    }

    /// Whether the map is `earlier` with, at most, more rooms placed and more
    /// doors in use: every room of `earlier` is still on it, where it was.
    pub open spec fn grows_from(self, earlier: MapView) -> bool {
        &&& self.width == earlier.width
        &&& self.height == earlier.height
        &&& forall|node: usize| #[trigger]
            earlier.rooms.contains_key(node) ==> self.rooms.contains_key(node)
                && self.rooms[node].extends(earlier.rooms[node])
    }
}

} // verus!
