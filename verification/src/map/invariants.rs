//! Agreement of the tile grid with the rooms placed on it.

use crate::map::MapView;
use crate::map::lemma_painted_len;
use crate::map::on_any_edge;
use crate::map::painted;
use crate::map::room::RoomView;
use vstd::prelude::*;

verus! {

impl RoomView {
    /// Whether the room's tile of index `k` is not empty and lies on the cell of
    /// index `cell`, on a map `width` cells wide.
    pub open spec fn covers(self, k: int, cell: int, width: int) -> bool {
        0 <= k < self.tiles.len() && self.tiles[k] != 0 && self.cell(k, width) == cell
    }

    /// Whether the room lies where `other` lies and covers the cells that `other`
    /// covers, with floor only where `other` has floor.
    pub open spec fn same_footprint(self, other: RoomView) -> bool {
        &&& self.x == other.x
        &&& self.y == other.y
        &&& self.template.w == other.template.w
        &&& self.tiles.len() == other.tiles.len()
        &&& forall|k: int|
            0 <= k < self.tiles.len() ==> ((#[trigger] self.tiles[k] != 0) == (other.tiles[k] != 0))
                && (self.tiles[k] == 8 ==> other.tiles[k] == 8)
    }
}

impl RoomView {
    /// Whether no two tiles of the room that are not empty lie on one cell of a
    /// map `width` cells wide.
    pub open spec fn one_tile_per_cell(self, width: int) -> bool {
        forall|k1: int, k2: int, cell: int|
            #[trigger] self.covers(k1, cell, width) && #[trigger] self.covers(k2, cell, width)
                ==> k1 == k2
    }
}

impl MapView {
    /// Every cell that a placed room covers holds the code of the tile that
    /// covers it.
    pub open spec fn tiles_agree(self) -> bool {
        forall|node: usize, k: int, cell: int|
            self.rooms.contains_key(node) && #[trigger] self.rooms[node].covers(
                k,
                cell,
                self.width,
            ) ==> self.tiles[cell] == self.rooms[node].tiles[k]
    }

    /// Every tile of a placed room that is not empty lies on a cell of the map,
    /// and that cell is not empty.
    pub open spec fn rooms_on_map(self) -> bool {
        forall|node: usize, k: int, cell: int|
            self.rooms.contains_key(node) && #[trigger] self.rooms[node].covers(
                k,
                cell,
                self.width,
            ) ==> self.in_range(cell) && self.tiles[cell] != 0
    }

    /// No cell is covered by two placed rooms.
    pub open spec fn rooms_apart(self) -> bool {
        forall|n1: usize, n2: usize, k1: int, k2: int, cell: int|
            self.rooms.contains_key(n1) && self.rooms.contains_key(n2)
                && #[trigger] self.rooms[n1].covers(k1, cell, self.width)
                && #[trigger] self.rooms[n2].covers(k2, cell, self.width) ==> n1 == n2
    }

    /// Whether some placed room covers the cell.
    pub open spec fn covered(self, cell: int) -> bool {
        exists|node: usize, k: int|
            self.rooms.contains_key(node) && #[trigger] self.rooms[node].covers(
                k,
                cell,
                self.width,
            )
    }

    /// Every cell of the map that is not empty is covered by a placed room.
    pub open spec fn tiles_covered(self) -> bool {
        forall|cell: int|
            self.in_range(cell) && #[trigger] self.tiles[cell] != 0 ==> self.covered(cell)
    }

    /// No interior floor of a placed room lies on an edge of the map.
    pub open spec fn floors_off_edges(self) -> bool {
        forall|node: usize, k: int, cell: int|
            self.rooms.contains_key(node) && #[trigger] self.rooms[node].covers(
                k,
                cell,
                self.width,
            ) && self.rooms[node].tiles[k] == 8 ==> !on_any_edge(
                cell,
                self.width,
                self.tiles.len() as int,
            )
    }

    /// Whether the grid and the placed rooms agree: the rooms lie on the map,
    /// apart from each other and with their floors off its edges, and the grid
    /// is empty wherever no room lies.
    pub open spec fn consistent(self) -> bool {
        &&& self.wf()
        &&& self.rooms_on_map()
        &&& self.rooms_apart()
        &&& self.tiles_covered()
        &&& self.floors_off_edges()
    }
}

/// After painting, a cell is not empty exactly where it was not empty before or
/// one of the painted tiles covers it; a cell that none of them covers is kept.
pub proof fn lemma_painted(
    tiles: Seq<u8>,
    width: int,
    room: RoomView,
    is_new: bool,
    n: nat,
    cell: int,
)
    requires
        0 <= cell < tiles.len(),
        n <= room.tiles.len(),
    ensures
        painted(tiles, width, room, is_new, n)[cell] != 0 <==> tiles[cell] != 0 || exists|k: int|
            0 <= k < n && #[trigger] room.covers(k, cell, width),
        (forall|k: int| 0 <= k < n ==> !#[trigger] room.covers(k, cell, width)) ==> painted(
            tiles,
            width,
            room,
            is_new,
            n,
        )[cell] == tiles[cell],
    decreases n,
{
    if n > 0 {
        let before = painted(tiles, width, room, is_new, (n - 1) as nat);
        lemma_painted(tiles, width, room, is_new, (n - 1) as nat, cell);
        lemma_painted_len(tiles, width, room, is_new, (n - 1) as nat);
        if room.covers(n - 1, cell, width) {
        } else {
            if exists|k: int| 0 <= k < n && #[trigger] room.covers(k, cell, width) {
                let k = choose|k: int| 0 <= k < n && #[trigger] room.covers(k, cell, width);
                assert(0 <= k < n - 1 && room.covers(k, cell, width));
            }
        }
    }
}

/// An empty map is consistent.
pub proof fn lemma_empty_consistent(map: MapView)
    requires
        map.wf(),
        map.rooms == Map::<usize, RoomView>::empty(),
        forall|cell: int| 0 <= cell < map.tiles.len() ==> map.tiles[cell] == 0,
    ensures
        map.consistent(),
{
}

/// Placing a room that can be placed keeps the map consistent.
pub proof fn lemma_place_room(map: MapView, node: usize, room: RoomView, door_type: u8)
    requires
        map.consistent(),
        !map.rooms.contains_key(node),
        room.wf(),
        map.can_place(room, door_type),
    ensures
        map.committed(node, room).consistent(),
{
    let after = map.committed(node, room);
    let n = room.tiles.len();
    lemma_painted_len(map.tiles, map.width, room, true, n);
    assert forall|cell: int| map.in_range(cell) implies (after.tiles[cell] != 0 <==> map.tiles[cell]
        != 0 || exists|k: int| 0 <= k < n && #[trigger] room.covers(k, cell, map.width)) by {
        lemma_painted(map.tiles, map.width, room, true, n, cell);
    }
    assert forall|k: int, cell: int| #[trigger] room.covers(k, cell, map.width) implies map.in_range(
        cell,
    ) && map.tiles[cell] == 0 && (room.tiles[k] == 8 ==> !on_any_edge(
        cell,
        map.width,
        map.tiles.len() as int,
    )) by {
        assert(!map.conflict(room, door_type, k));
    }
    assert(after.rooms_on_map()) by {
        assert forall|other: usize, k: int, cell: int|
            after.rooms.contains_key(other) && #[trigger] after.rooms[other].covers(
                k,
                cell,
                after.width,
            ) implies after.in_range(cell) && after.tiles[cell] != 0 by {
            if other != node {
                assert(map.rooms[other].covers(k, cell, map.width));
            }
        }
    }
    assert(after.rooms_apart()) by {
        assert forall|n1: usize, n2: usize, k1: int, k2: int, cell: int|
            after.rooms.contains_key(n1) && after.rooms.contains_key(n2)
                && #[trigger] after.rooms[n1].covers(k1, cell, after.width)
                && #[trigger] after.rooms[n2].covers(k2, cell, after.width) implies n1 == n2 by {
            if n1 != node && n2 != node {
                assert(map.rooms[n1].covers(k1, cell, map.width));
                assert(map.rooms[n2].covers(k2, cell, map.width));
            } else if n1 != node {
                assert(map.rooms[n1].covers(k1, cell, map.width));
                assert(room.covers(k2, cell, map.width));
            } else if n2 != node {
                assert(map.rooms[n2].covers(k2, cell, map.width));
                assert(room.covers(k1, cell, map.width));
            }
        }
    }
    assert(after.tiles_covered()) by {
        assert forall|cell: int| after.in_range(cell) && #[trigger] after.tiles[cell]
            != 0 implies after.covered(cell) by {
            if map.tiles[cell] != 0 {
                assert(map.covered(cell));
                let (other, k) = choose|other: usize, k: int|
                    map.rooms.contains_key(other) && #[trigger] map.rooms[other].covers(
                        k,
                        cell,
                        map.width,
                    );
                assert(after.rooms.contains_key(other) && after.rooms[other].covers(
                    k,
                    cell,
                    after.width,
                ));
            } else {
                lemma_painted(map.tiles, map.width, room, true, n, cell);
                let k = choose|k: int| 0 <= k < n && #[trigger] room.covers(k, cell, map.width);
                assert(after.rooms.contains_key(node) && after.rooms[node].covers(
                    k,
                    cell,
                    after.width,
                ));
            }
        }
    }
    assert(after.floors_off_edges()) by {
        assert forall|other: usize, k: int, cell: int|
            after.rooms.contains_key(other) && #[trigger] after.rooms[other].covers(
                k,
                cell,
                after.width,
            ) && after.rooms[other].tiles[k] == 8 implies !on_any_edge(
            cell,
            after.width,
            after.tiles.len() as int,
        ) by {
            if other != node {
                assert(map.rooms[other].covers(k, cell, map.width));
            } else {
                assert(room.covers(k, cell, map.width));
            }
        }
    }
}

/// Storing a room anew with the footprint that it had keeps the map consistent.
pub proof fn lemma_update_room(map: MapView, node: usize, room: RoomView)
    requires
        map.consistent(),
        map.rooms.contains_key(node),
        room.wf(),
        room.same_footprint(map.rooms[node]),
    ensures
        map.committed(node, room).consistent(),
{
    let after = map.committed(node, room);
    let n = room.tiles.len();
    let was = map.rooms[node];
    lemma_painted_len(map.tiles, map.width, room, false, n);
    assert forall|k: int, cell: int| #[trigger]
        room.covers(k, cell, map.width) == was.covers(k, cell, map.width) by {
        if 0 <= k < room.tiles.len() {
            assert((room.tiles[k] != 0) == (was.tiles[k] != 0));
        }
    }
    assert forall|cell: int| map.in_range(cell) implies (#[trigger] after.tiles[cell] != 0)
        == (map.tiles[cell] != 0) by {
        lemma_painted(map.tiles, map.width, room, false, n, cell);
        if exists|k: int| 0 <= k < n && #[trigger] room.covers(k, cell, map.width) {
            let k = choose|k: int| 0 <= k < n && #[trigger] room.covers(k, cell, map.width);
            assert(was.covers(k, cell, map.width));
        }
    }
    assert(after.rooms_on_map()) by {
        assert forall|other: usize, k: int, cell: int|
            after.rooms.contains_key(other) && #[trigger] after.rooms[other].covers(
                k,
                cell,
                after.width,
            ) implies after.in_range(cell) && after.tiles[cell] != 0 by {
            if other != node {
                assert(map.rooms[other].covers(k, cell, map.width));
            } else {
                assert(was.covers(k, cell, map.width));
            }
        }
    }
    assert(after.rooms_apart()) by {
        assert forall|n1: usize, n2: usize, k1: int, k2: int, cell: int|
            after.rooms.contains_key(n1) && after.rooms.contains_key(n2)
                && #[trigger] after.rooms[n1].covers(k1, cell, after.width)
                && #[trigger] after.rooms[n2].covers(k2, cell, after.width) implies n1 == n2 by {
            assert(map.rooms[n1].covers(k1, cell, map.width));
            assert(map.rooms[n2].covers(k2, cell, map.width));
        }
    }
    assert(after.tiles_covered()) by {
        assert forall|cell: int| after.in_range(cell) && #[trigger] after.tiles[cell]
            != 0 implies after.covered(cell) by {
            assert(map.tiles[cell] != 0);
            assert(map.covered(cell));
            let (other, k) = choose|other: usize, k: int|
                map.rooms.contains_key(other) && #[trigger] map.rooms[other].covers(
                    k,
                    cell,
                    map.width,
                );
            assert(after.rooms.contains_key(other) && after.rooms[other].covers(
                k,
                cell,
                after.width,
            ));
        }
    }
    assert(after.floors_off_edges()) by {
        assert forall|other: usize, k: int, cell: int|
            after.rooms.contains_key(other) && #[trigger] after.rooms[other].covers(
                k,
                cell,
                after.width,
            ) && after.rooms[other].tiles[k] == 8 implies !on_any_edge(
            cell,
            after.width,
            after.tiles.len() as int,
        ) by {
            assert(map.rooms[other].covers(k, cell, map.width));
            if other == node {
                assert(was.tiles[k] == 8);
            }
        }
    }
}

/// On a consistent map, every cell that is not empty is covered by exactly one
/// placed room.
pub proof fn lemma_one_room_per_cell(map: MapView, cell: int)
    requires
        map.consistent(),
        map.in_range(cell),
        map.tiles[cell] != 0,
    ensures
        exists|node: usize|
            #![trigger map.rooms[node]]
            map.rooms.contains_key(node) && (exists|k: int|
                #[trigger] map.rooms[node].covers(k, cell, map.width)) && (forall|other: usize, k: int|
                map.rooms.contains_key(other) && #[trigger] map.rooms[other].covers(
                    k,
                    cell,
                    map.width,
                ) ==> other == node),
{
    assert(map.covered(cell));
    let (node, k) = choose|node: usize, k: int|
        map.rooms.contains_key(node) && #[trigger] map.rooms[node].covers(k, cell, map.width);
    assert(map.rooms.contains_key(node) && map.rooms[node].covers(k, cell, map.width));
}

/// After painting, a cell that one tile of the room covers, and no other, holds
/// the code of that tile, unless the room is new and the cell held interior
/// floor.
pub proof fn lemma_painted_value(
    tiles: Seq<u8>,
    width: int,
    room: RoomView,
    is_new: bool,
    n: nat,
    k: int,
)
    requires
        0 <= k < n <= room.tiles.len(),
        room.tiles[k] != 0,
        0 <= room.cell(k, width) < tiles.len(),
        room.one_tile_per_cell(width),
        is_new ==> tiles[room.cell(k, width)] != 8,
    ensures
        painted(tiles, width, room, is_new, n)[room.cell(k, width)] == room.tiles[k],
    decreases n,
{
    let cell = room.cell(k, width);
    let before = painted(tiles, width, room, is_new, (n - 1) as nat);
    lemma_painted_len(tiles, width, room, is_new, (n - 1) as nat);
    assert(room.covers(k, cell, width));
    if n - 1 == k {
        assert forall|j: int| 0 <= j < k implies !#[trigger] room.covers(j, cell, width) by {
        }
        lemma_painted(tiles, width, room, is_new, k as nat, cell);
    } else {
        lemma_painted_value(tiles, width, room, is_new, (n - 1) as nat, k);
        if room.covers(n - 1, cell, width) {
            assert(false);
        }
    }
}

/// Placing a room that can be placed, no two tiles of which lie on one cell,
/// keeps every covered cell in agreement with the tile that covers it.
pub proof fn lemma_place_agrees(map: MapView, node: usize, room: RoomView, door_type: u8)
    requires
        map.consistent(),
        map.tiles_agree(),
        !map.rooms.contains_key(node),
        room.wf(),
        map.can_place(room, door_type),
        room.one_tile_per_cell(map.width),
    ensures
        map.committed(node, room).tiles_agree(),
{
    let after = map.committed(node, room);
    let n = room.tiles.len();
    assert forall|other: usize, k: int, cell: int|
        after.rooms.contains_key(other) && #[trigger] after.rooms[other].covers(
            k,
            cell,
            after.width,
        ) implies after.tiles[cell] == after.rooms[other].tiles[k] by {
        if other == node {
            assert(!map.conflict(room, door_type, k));
            lemma_painted_value(map.tiles, map.width, room, true, n, k);
        } else {
            assert(map.rooms[other].covers(k, cell, map.width));
            assert forall|j: int| 0 <= j < n implies !#[trigger] room.covers(
                j,
                cell,
                map.width,
            ) by {
                if room.covers(j, cell, map.width) {
                    assert(!map.conflict(room, door_type, j));
                }
            }
            lemma_painted(map.tiles, map.width, room, true, n, cell);
        }
    }
}

/// Storing a room anew with the footprint that it had, no two tiles of which lie
/// on one cell, keeps every covered cell in agreement with the tile that covers
/// it.
pub proof fn lemma_update_agrees(map: MapView, node: usize, room: RoomView)
    requires
        map.consistent(),
        map.tiles_agree(),
        map.rooms.contains_key(node),
        room.wf(),
        room.same_footprint(map.rooms[node]),
        room.one_tile_per_cell(map.width),
    ensures
        map.committed(node, room).tiles_agree(),
{
    let after = map.committed(node, room);
    let n = room.tiles.len();
    let was = map.rooms[node];
    assert forall|k: int, cell: int| #[trigger]
        room.covers(k, cell, map.width) == was.covers(k, cell, map.width) by {
        if 0 <= k < room.tiles.len() {
            assert((room.tiles[k] != 0) == (was.tiles[k] != 0));
        }
    }
    assert forall|other: usize, k: int, cell: int|
        after.rooms.contains_key(other) && #[trigger] after.rooms[other].covers(
            k,
            cell,
            after.width,
        ) implies after.tiles[cell] == after.rooms[other].tiles[k] by {
        if other == node {
            assert(was.covers(k, cell, map.width));
            lemma_painted_value(map.tiles, map.width, room, false, n, k);
        } else {
            assert(map.rooms[other].covers(k, cell, map.width));
            assert forall|j: int| 0 <= j < n implies !#[trigger] room.covers(
                j,
                cell,
                map.width,
            ) by {
                if room.covers(j, cell, map.width) {
                    assert(was.covers(j, cell, map.width));
                }
            }
            lemma_painted(map.tiles, map.width, room, false, n, cell);
        }
    }
}

} // verus!
