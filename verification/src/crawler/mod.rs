//! The placement engine: a depth-first walk of the graph that places a room for
//! each node it can.

use crate::crawler::invariants::graph_edge;
use crate::crawler::invariants::wanted_type;
use crate::crawler::laws::aligned_room;
use crate::crawler::laws::joined;
use crate::crawler::laws::lemma_grows_from_itself;
use crate::crawler::laws::lemma_grows_on;
use crate::crawler::laws::lemma_join_follows;
use crate::crawler::laws::lemma_join_sound;
use crate::crawler::laws::lemma_library_combination;
use crate::crawler::laws::lemma_seed_follows;
use crate::crawler::laws::lemma_seed_sound;
use crate::graph::MapGraph;
use crate::graph::NeighbourMap;
use crate::graph::edge_count;
use crate::graph::graph_neighbours;
use crate::graph::graph_weights;
use crate::graph::index_of_graph;
use crate::graph::index_view;
use crate::graph::node_weights;
use crate::map::MapView;
use crate::map::TileMap;
use crate::map::add_or_update_room;
use crate::map::can_place_room;
use crate::map::centre_coordinates;
use crate::map::centre_of;
use crate::map::find_or_create_start_room;
use crate::map::fresh_room;
use crate::map::room::Room;
use crate::map::room::RoomType;
use crate::map::room::RoomView;
use crate::map::room::align_room_b;
use crate::map::room::aligned_origin;
use crate::map::room::edges_at;
use crate::map::room::get_neighbours;
use crate::map::room::seen_from;
use crate::map::room_templates::RoomCombination;
use crate::map::room_templates::RoomTemplate;
use crate::map::room_templates::RoomTemplates;
use crate::map::room_templates::TemplateView;
use crate::map::room_templates::get;
use crate::map::room_templates::has_start;
use crate::map::room_templates::start_template;
use crate::map::room_templates::ids_of_type;
use crate::map::room_templates::lemma_ids_of_type;
use crate::random::lemma_shuffled;
use crate::random::shuffle;
use rand::rngs::StdRng;
use vstd::prelude::*;

pub mod invariants;
pub mod laws;

verus! {

broadcast use vstd::std_specs::hash::group_hash_axioms;

/// The seed: a fresh room of the start template in the centre of the map.
pub open spec fn seed_room(map: MapView, library: Seq<TemplateView>) -> RoomView {
    let room = fresh_room(start_template(library));
    RoomView { x: centre_of(map, room).0, y: centre_of(map, room).1, ..room }
}

/// Places the seed under `node`, in the centre of the map, unless the node has a
/// room already or the seed cannot be placed there. Says whether it placed it.
pub fn seed_start_room(map: &mut TileMap, templates: &RoomTemplates, node: usize) -> (seeded: bool)
    requires
        old(map)@.wf(),
        templates.wf(),
        has_start(templates@),
    ensures
        seeded == (!old(map)@.rooms.contains_key(node) && old(map)@.can_place(
            seed_room(old(map)@, templates@),
            0,
        )),
        final(map)@ == if seeded {
            old(map)@.committed(node, seed_room(old(map)@, templates@))
        } else {
            old(map)@
        },
{
    if map.rooms.contains_key(&node) {
        return false;
    }
    let mut room_a = find_or_create_start_room(map, templates, &node);
    proof {
        assert(templates@.len() == templates.rooms.len());
        lemma_ids_of_type(templates@, RoomType::Start, templates@.len(), 0);
        assert(start_template(templates@).wf());
    }
    let (centre_x, centre_y) = centre_coordinates(&room_a, map);
    room_a.x = centre_x;
    room_a.y = centre_y;
    assert(room_a@ == seed_room(map@, templates@));
    if can_place_room(map, &room_a, 0) {
        add_or_update_room(map, node, room_a);
        true
    } else {
        false
    }
}

/// Connects the room at `node_a` and the new room `room_b` through the doors of
/// `combination`, and writes both to the map, `room_b` under `node_b`.
pub fn connect_rooms(
    map: &mut TileMap,
    node_a: usize,
    node_b: usize,
    room_b: Room,
    combination: RoomCombination,
    outbound: bool,
)
    requires
        old(map)@.wf(),
        old(map)@.rooms.contains_key(node_a),
        old(map)@.rooms[node_a].template.holds(combination.2),
        room_b@.wf(),
        room_b@.template.holds(combination.4),
    ensures
        final(map)@ == joined(old(map)@, node_a, node_b, room_b@, combination, outbound),
        final(map)@.wf(),
{
    let (_, door_a_type, door_a_xy, door_b_type, door_b_xy) = combination;
    let mut room_a = room_at(map, node_a);
    let mut room_b = room_b;
    room_a.add_door(node_a, node_b, door_a_type, door_a_xy, outbound);
    room_b.add_door(node_b, node_a, door_b_type, door_b_xy, !outbound);
    add_or_update_room(map, node_b, room_b);
    // the placed room is written again, so that the grid shows its door as connected
    add_or_update_room(map, node_a, room_a);
}

/// A copy of the room placed under `node`.
fn room_at(map: &TileMap, node: usize) -> (room: Room)
    requires
        map@.rooms.contains_key(node),
    ensures
        room@ == map@.rooms[node],
{
    let found = map.rooms.get(&node);
    found.unwrap().clone()
}

/// `room` at another origin.
pub open spec fn moved(room: RoomView, origin: (int, int)) -> RoomView {
    RoomView { x: origin.0, y: origin.1, ..room }
}

/// Whether `room_b` can be placed against the room at `node_a` by
/// `combination`: the place that the combination gives it has coordinates that
/// can be held, and the room can be placed there.
pub open spec fn placeable(
    map: MapView,
    node_a: usize,
    room_b: RoomView,
    combination: RoomCombination,
) -> bool {
    let origin = aligned_origin(map.rooms[node_a].x, map.rooms[node_a].y, combination);
    &&& i32::MIN <= origin.0 <= i32::MAX
    &&& i32::MIN <= origin.1 <= i32::MAX
    &&& map.can_place(moved(room_b, origin), combination.3)
}

/// The index of the first of the combinations from index `from` on by which
/// `room_b` can be placed; none where there is no such combination.
pub open spec fn first_placeable(
    map: MapView,
    node_a: usize,
    room_b: RoomView,
    combinations: Seq<RoomCombination>,
    from: int,
) -> Option<int>
    decreases combinations.len() - from,
{
    if from < 0 || from >= combinations.len() {
        None
    } else if placeable(map, node_a, room_b, combinations[from]) {
        Some(from)
    } else {
        first_placeable(map, node_a, room_b, combinations, from + 1)
    }
}

/// Whether the aligned origin can be held in the room's coordinates.
fn origin_in_reach(room_a: &Room, combination: RoomCombination) -> (in_reach: bool)
    ensures
        in_reach == {
            let origin = aligned_origin(room_a.x as int, room_a.y as int, combination);
            &&& i32::MIN <= origin.0 <= i32::MAX
            &&& i32::MIN <= origin.1 <= i32::MAX
        },
{
    let ((room_b_x, room_b_y), _, _, door_b_type, _) = combination;
    let (x_offset, y_offset): (i64, i64) = match door_b_type {
        2 => (0, -1),
        3 => (1, 0),
        4 => (0, 1),
        5 => (-1, 0),
        _ => (0, 0),
    };
    let x: i64 = room_a.x as i64 - (room_b_x as i64 + x_offset);
    let y: i64 = room_a.y as i64 - (room_b_y as i64 + y_offset);
    -0x8000_0000 <= x && x <= 0x7fff_ffff && -0x8000_0000 <= y && y <= 0x7fff_ffff
}

/// Tries the combinations in the order given, and places `room_b` under
/// `node_b` by the first by which it can be placed against the room at
/// `node_a`. Says whether it placed the room.
pub fn try_combinations(
    map: &mut TileMap,
    node_a: usize,
    node_b: usize,
    outbound: bool,
    room_b: &Room,
    combinations: &Vec<RoomCombination>,
) -> (placed: bool)
    requires
        old(map)@.wf(),
        old(map)@.rooms.contains_key(node_a),
        room_b@.wf(),
        forall|i: int|
            0 <= i < combinations.len() ==> old(map)@.rooms[node_a].template.holds(
                (#[trigger] combinations[i]).2,
            ) && room_b@.template.holds(combinations[i].4),
    ensures
        placed == first_placeable(old(map)@, node_a, room_b@, combinations@, 0).is_some(),
        final(map)@ == match first_placeable(old(map)@, node_a, room_b@, combinations@, 0) {
            Some(i) => joined(
                old(map)@,
                node_a,
                node_b,
                moved(
                    room_b@,
                    aligned_origin(
                        old(map)@.rooms[node_a].x,
                        old(map)@.rooms[node_a].y,
                        combinations[i],
                    ),
                ),
                combinations[i],
                outbound,
            ),
            None => old(map)@,
        },
        final(map)@.wf(),
{
    let room_a = room_at(map, node_a);
    let mut candidate = room_b.clone();
    let ghost start = map@;
    let ghost fresh = room_b@;
    let mut i: usize = 0;
    while i < combinations.len()
        invariant
            map@ == start,
            start == old(map)@,
            start.wf(),
            start.rooms.contains_key(node_a),
            room_a@ == start.rooms[node_a],
            moved(candidate@, (fresh.x, fresh.y)) == fresh,
            fresh == room_b@,
            fresh.wf(),
            i <= combinations.len(),
            forall|j: int|
                0 <= j < combinations.len() ==> start.rooms[node_a].template.holds(
                    (#[trigger] combinations[j]).2,
                ) && fresh.template.holds(combinations[j].4),
            first_placeable(start, node_a, fresh, combinations@, 0) == first_placeable(
                start,
                node_a,
                fresh,
                combinations@,
                i as int,
            ),
        decreases combinations.len() - i,
    {
        let combination = combinations[i];
        // a room whose origin cannot be held is passed over: it cannot be aligned
        if origin_in_reach(&room_a, combination) {
            let aligned = align_room_b(&room_a, &mut candidate, combination);
            assert(aligned@ == moved(
                fresh,
                aligned_origin(start.rooms[node_a].x, start.rooms[node_a].y, combination),
            ));
            if can_place_room(map, &aligned, combination.3) {
                assert(placeable(start, node_a, fresh, combination));
                assert(first_placeable(start, node_a, fresh, combinations@, i as int) == Some(
                    i as int,
                ));
                connect_rooms(map, node_a, node_b, aligned, combination, outbound);
                return true;
            }
        }
        i += 1;
    }
    false
}

/// What `first_placeable` finds is the first combination by which the room can
/// be placed.
pub proof fn lemma_first_placeable(
    map: MapView,
    node_a: usize,
    room_b: RoomView,
    combinations: Seq<RoomCombination>,
    from: int,
)
    requires
        0 <= from,
    ensures
        match first_placeable(map, node_a, room_b, combinations, from) {
            Some(i) => from <= i < combinations.len() && placeable(
                map,
                node_a,
                room_b,
                combinations[i],
            ) && forall|j: int| from <= j < i ==> !placeable(map, node_a, room_b, #[trigger] combinations[j]),
            None => forall|j: int|
                from <= j < combinations.len() ==> !placeable(
                    map,
                    node_a,
                    room_b,
                    #[trigger] combinations[j],
                ),
        },
    decreases combinations.len() - from,
{
    if from < combinations.len() && !placeable(map, node_a, room_b, combinations[from]) {
        lemma_first_placeable(map, node_a, room_b, combinations, from + 1);
    }
}

impl TemplateView {
    /// The combinations with the template of id `id`; none where none are held.
    pub open spec fn combinations_with(self, id: usize) -> Seq<RoomCombination> {
        if self.combinations.contains_key(id) {
            self.combinations[id]
        } else {
            Seq::empty()
        }
    }
}

/// The ids below `n` of the templates with which `template` has a combination,
/// in increasing order.
pub open spec fn candidates(template: TemplateView, n: nat) -> Seq<usize>
    decreases n,
{
    if n == 0 {
        Seq::empty()
    } else {
        let before = candidates(template, (n - 1) as nat);
        if template.combinations_with((n - 1) as usize).len() > 0 {
            before.push((n - 1) as usize)
        } else {
            before
        }
    }
}

/// Every candidate is an id below `n`.
pub proof fn lemma_candidates(template: TemplateView, n: nat, i: int)
    requires
        n <= usize::MAX,
        0 <= i < candidates(template, n).len(),
    ensures
        candidates(template, n)[i] < n,
        template.combinations_with(candidates(template, n)[i]).len() > 0,
    decreases n,
{
    if n > 0 {
        let before = candidates(template, (n - 1) as nat);
        if i < before.len() {
            lemma_candidates(template, (n - 1) as nat, i);
        }
    }
}

/// The ids below `count` of the templates with which `template` has a
/// combination, in increasing order.
pub fn candidate_templates(template: &RoomTemplate, count: usize) -> (ids: Vec<usize>)
    ensures
        ids@ == candidates(template@, count as nat),
{
    let mut ids: Vec<usize> = Vec::new();
    let mut id: usize = 0;
    while id < count
        invariant
            id <= count,
            ids@ == candidates(template@, id as nat),
        decreases count - id,
    {
        let found = match template.valid_combinations.get(&id) {
            Some(combinations) => combinations.len() > 0,
            None => false,
        };
        if found {
            ids.push(id);
        }
        id += 1;
    }
    ids
}

/// A copy of the combinations that the room at `node_a` has with the template
/// of id `id`.
fn combinations_at(map: &TileMap, node_a: usize, id: usize) -> (combinations: Vec<RoomCombination>)
    requires
        map@.rooms.contains_key(node_a),
    ensures
        combinations@ == map@.rooms[node_a].template.combinations_with(id),
{
    let mut combinations: Vec<RoomCombination> = Vec::new();
    let found = map.rooms.get(&node_a);
    let room_a = found.unwrap();
    if let Some(held) = room_a.template.valid_combinations.get(&id) {
        let mut i: usize = 0;
        while i < held.len()
            invariant
                i <= held.len(),
                combinations@ == held@.take(i as int),
            decreases held.len() - i,
        {
            combinations.push(held[i]);
            i += 1;
            assert(combinations@ =~= held@.take(i as int));
        }
        assert(held@.take(held.len() as int) =~= held@);
    }
    combinations
}

/// Whether a room of `template` may stand for a node with `edges` outgoing
/// edges that asks for a room of type `room_type`: it is of that type, and it
/// asks for no more doors than the node has edges, and one.
pub open spec fn suits(template: TemplateView, room_type: RoomType, edges: nat) -> bool {
    template.room_type == room_type && template.min_doors <= edges + 1
}

/// Whether a room of the template of id `id` can be placed against the room at
/// `node_a` for a node with `edges` outgoing edges that asks for a room of type
/// `room_type`: the template suits the node, and by one of the combinations
/// that the room's template has with it, a room of it can be placed.
pub open spec fn can_join(
    map: MapView,
    library: Seq<TemplateView>,
    node_a: usize,
    id: usize,
    room_type: RoomType,
    edges: nat,
) -> bool {
    &&& id < library.len()
    &&& suits(library[id as int], room_type, edges)
    &&& exists|i: int|
        0 <= i < map.rooms[node_a].template.combinations_with(id).len() && placeable(
            map,
            node_a,
            fresh_room(library[id as int]),
            #[trigger] map.rooms[node_a].template.combinations_with(id)[i],
        )
}

/// Tries to place a room of the template of id `template_b_idx` under `node_b`,
/// against the room at `node_a`: if the template suits the node, by the first
/// of its combinations, taken in random order, by which a room can be placed.
/// Whether a room is placed does not depend on that order.
pub fn try_template(
    map: &mut TileMap,
    node_a: usize,
    node_b: usize,
    outbound: bool,
    template_b_idx: usize,
    room_b_type: RoomType,
    map_graph: &MapGraph,
    templates: &RoomTemplates,
    rng: &mut StdRng,
) -> (placed: bool)
    requires
        old(map)@.sound(templates@, graph_weights(map_graph.graph)),
        templates.wf(),
        old(map)@.rooms.contains_key(node_a),
        !old(map)@.rooms.contains_key(node_b),
        template_b_idx < templates@.len(),
        node_b < graph_weights(map_graph.graph).len(),
        room_b_type == wanted_type(graph_weights(map_graph.graph), node_b),
        old(map)@.follows(map_graph.graph),
        graph_edge(map_graph.graph, node_a, node_b, outbound),
    ensures
        final(map)@.follows(map_graph.graph),
        placed == can_join(
            old(map)@,
            templates@,
            node_a,
            template_b_idx,
            room_b_type,
            graph_neighbours(map_graph.graph, node_b).len(),
        ),
        final(map)@.sound(templates@, graph_weights(map_graph.graph)),
        final(map)@.grows_from(old(map)@),
        placed ==> final(map)@.rooms.dom() == old(map)@.rooms.dom().insert(node_b)
            && final(map)@.rooms[node_b].template == templates@[template_b_idx as int],
        !placed ==> final(map)@ == old(map)@,
{
    let ghost start = map@;
    let ghost library = templates@;
    let ghost weights = graph_weights(map_graph.graph);
    let room_b = Room::new(get(&template_b_idx, templates));
    // rooms that ask for more doors than the node has edges, and one, are left out
    let edges = edge_count(&map_graph.graph, node_b);
    let has_min_doors = room_b.template.min_doors == 0 || (room_b.template.min_doors - 1) as usize
        <= edges;
    let room_is_correct_type = room_b.template.room_type == room_b_type;
    // a template that does not suit the node is tried with no combination at all
    let mut room_combinations = if room_is_correct_type && has_min_doors {
        combinations_at(map, node_a, template_b_idx)
    } else {
        Vec::new()
    };
    let ghost held = room_combinations@;
    shuffle(&mut room_combinations, rng);
    proof {
        assert(library[template_b_idx as int].wf());
        assert(start.rooms.contains_key(node_a));
        assert forall|i: int| 0 <= i < room_combinations.len() implies start.rooms[node_a].template.holds(
            (#[trigger] room_combinations[i]).2,
        ) && room_b@.template.holds(room_combinations[i].4) by {
            lemma_shuffled(held, room_combinations@, i);
            lemma_library_combination(
                library,
                start.rooms[node_a].template,
                template_b_idx,
                room_combinations[i],
            );
        }
        lemma_grows_from_itself(start);
        lemma_first_placeable(start, node_a, room_b@, room_combinations@, 0);
        match first_placeable(start, node_a, room_b@, room_combinations@, 0) {
            Some(i) => {
                lemma_shuffled(held, room_combinations@, i);
                lemma_join_sound(
                    start,
                    library,
                    weights,
                    node_a,
                    node_b,
                    template_b_idx,
                    room_combinations[i],
                    outbound,
                );
                lemma_join_follows(
                    start,
                    library,
                    map_graph.graph,
                    node_a,
                    node_b,
                    template_b_idx,
                    room_combinations[i],
                    outbound,
                );
                assert(moved(
                    room_b@,
                    aligned_origin(
                        start.rooms[node_a].x,
                        start.rooms[node_a].y,
                        room_combinations[i],
                    ),
                ) == aligned_room(
                    library[template_b_idx as int],
                    start.rooms[node_a].x,
                    start.rooms[node_a].y,
                    room_combinations[i],
                ));
                let at = choose|at: int| 0 <= at < held.len() && held[at] == room_combinations[i];
                assert(placeable(start, node_a, room_b@, held[at]));
            },
            None => {
                assert forall|at: int| 0 <= at < held.len() implies !placeable(
                    start,
                    node_a,
                    room_b@,
                    #[trigger] held[at],
                ) by {
                    lemma_shuffled(room_combinations@, held, at);
                    let j = choose|j: int|
                        0 <= j < room_combinations.len() && room_combinations[j] == held[at];
                    assert(!placeable(start, node_a, room_b@, room_combinations[j]));
                }
            },
        }
    }
    let placed = try_combinations(map, node_a, node_b, outbound, &room_b, &room_combinations);
    proof {
        if placed {
            assert(map@.rooms.dom().contains(node_b));
            assert(map@.rooms[node_b].template == library[template_b_idx as int]);
        }
    }
    placed
}

/// Every template with which `template` has a combination is a candidate.
pub proof fn lemma_candidates_hold(template: TemplateView, n: nat, id: usize)
    requires
        id < n,
        template.combinations_with(id).len() > 0,
    ensures
        candidates(template, n).contains(id),
    decreases n,
{
    let before = candidates(template, (n - 1) as nat);
    if id == n - 1 {
        assert(candidates(template, n).last() == id);
    } else {
        lemma_candidates_hold(template, (n - 1) as nat, id);
        let at = choose|at: int| 0 <= at < before.len() && before[at] == id;
        assert(candidates(template, n)[at] == id);
    }
}

/// Tries to place a room under `node_b` against the room at `node_a`: goes
/// through the templates with which the room's template has a combination, in
/// random order, until a room of one of them has been placed. A room is placed
/// exactly if a room of some template can be.
pub fn place_neighbour(
    map: &mut TileMap,
    node_a: usize,
    node_b: usize,
    outbound: bool,
    room_b_type: RoomType,
    map_graph: &MapGraph,
    templates: &RoomTemplates,
    rng: &mut StdRng,
) -> (placed: bool)
    requires
        old(map)@.sound(templates@, graph_weights(map_graph.graph)),
        templates.wf(),
        old(map)@.rooms.contains_key(node_a),
        !old(map)@.rooms.contains_key(node_b),
        node_b < graph_weights(map_graph.graph).len(),
        room_b_type == wanted_type(graph_weights(map_graph.graph), node_b),
        old(map)@.follows(map_graph.graph),
        graph_edge(map_graph.graph, node_a, node_b, outbound),
    ensures
        final(map)@.follows(map_graph.graph),
        placed == exists|id: usize| #[trigger]
            can_join(
                old(map)@,
                templates@,
                node_a,
                id,
                room_b_type,
                graph_neighbours(map_graph.graph, node_b).len(),
            ),
        final(map)@.sound(templates@, graph_weights(map_graph.graph)),
        final(map)@.grows_from(old(map)@),
        placed ==> final(map)@.rooms.dom() == old(map)@.rooms.dom().insert(node_b),
        !placed ==> final(map)@ == old(map)@,
{
    let ghost start = map@;
    let ghost library = templates@;
    let ghost edges = graph_neighbours(map_graph.graph, node_b).len();
    let room_a = room_at(map, node_a);
    let count = templates.rooms.len();
    let mut template_idxs = candidate_templates(&room_a.template, count);
    let ghost sorted = template_idxs@;
    shuffle(&mut template_idxs, rng);
    let ghost pool = template_idxs@;
    proof {
        assert(templates@.len() == count);
        assert forall|i: int| 0 <= i < template_idxs.len() implies #[trigger] template_idxs[i]
            < count by {
            lemma_shuffled(sorted, template_idxs@, i);
            let at = choose|at: int| 0 <= at < sorted.len() && sorted[at] == template_idxs[i];
            lemma_candidates(room_a@.template, count as nat, at);
        }
        lemma_grows_from_itself(start);
    }
    let mut room_added = false;
    while template_idxs.len() > 0 && !room_added
        invariant
            start == old(map)@,
            library == templates@,
            edges == graph_neighbours(map_graph.graph, node_b).len(),
            start.sound(library, graph_weights(map_graph.graph)),
            templates.wf(),
            start.rooms.contains_key(node_a),
            !start.rooms.contains_key(node_b),
            node_b < graph_weights(map_graph.graph).len(),
            room_b_type == wanted_type(graph_weights(map_graph.graph), node_b),
            template_idxs.len() <= pool.len(),
            template_idxs@ == pool.take(template_idxs.len() as int),
            forall|i: int| 0 <= i < pool.len() ==> #[trigger] pool[i] < library.len(),
            graph_edge(map_graph.graph, node_a, node_b, outbound),
            map@.follows(map_graph.graph),
            forall|i: int|
                template_idxs.len() + (if room_added {
                    1int
                } else {
                    0int
                }) <= i < pool.len() ==> !can_join(
                    start,
                    library,
                    node_a,
                    #[trigger] pool[i],
                    room_b_type,
                    edges,
                ),
            map@.sound(library, graph_weights(map_graph.graph)),
            map@.grows_from(start),
            room_added ==> map@.rooms.dom() == start.rooms.dom().insert(node_b) && can_join(
                start,
                library,
                node_a,
                pool[template_idxs.len() as int],
                room_b_type,
                edges,
            ),
            !room_added ==> map@ == start,
        decreases template_idxs.len(),
    {
        // the templates are taken from the end of the shuffled list
        let last = template_idxs.pop();
        let template_b_idx = last.unwrap();
        assert(template_b_idx == pool[template_idxs.len() as int]);
        room_added =
        try_template(
            map,
            node_a,
            node_b,
            outbound,
            template_b_idx,
            room_b_type,
            map_graph,
            templates,
            rng,
        );
    }
    proof {
        if !room_added {
            assert forall|id: usize| !#[trigger] can_join(
                start,
                library,
                node_a,
                id,
                room_b_type,
                edges,
            ) by {
                if id < count && start.rooms[node_a].template.combinations_with(id).len() > 0 {
                    lemma_candidates_hold(room_a@.template, count as nat, id);
                    let at = choose|at: int| 0 <= at < sorted.len() && sorted[at] == id;
                    lemma_shuffled(pool, sorted, at);
                    let j = choose|j: int| 0 <= j < pool.len() && pool[j] == id;
                    assert(!can_join(start, library, node_a, pool[j], room_b_type, edges));
                }
            }
        }
    }
    room_added
}

/// How many of the nodes below `n` have no room yet.
pub open spec fn unplaced(placed: Set<usize>, n: nat) -> nat
    decreases n,
{
    if n == 0 {
        0
    } else {
        unplaced(placed, (n - 1) as nat) + if placed.contains((n - 1) as usize) {
            0nat
        } else {
            1nat
        }
    }
}

/// Placing rooms never raises the number of nodes without a room.
pub proof fn lemma_unplaced_falls(earlier: Set<usize>, later: Set<usize>, n: nat)
    requires
        earlier.subset_of(later),
    ensures
        unplaced(later, n) <= unplaced(earlier, n),
    decreases n,
{
    if n > 0 {
        lemma_unplaced_falls(earlier, later, (n - 1) as nat);
    }
}

/// Placing a room under a node below `n` that had none lowers the number of
/// nodes without a room.
pub proof fn lemma_unplaced_drops(placed: Set<usize>, node: usize, n: nat)
    requires
        n <= usize::MAX + 1,
        node < n,
        !placed.contains(node),
    ensures
        unplaced(placed.insert(node), n) < unplaced(placed, n),
    decreases n,
{
    if node == n - 1 {
        lemma_unplaced_falls(placed, placed.insert(node), (n - 1) as nat);
    } else {
        lemma_unplaced_drops(placed, node, (n - 1) as nat);
    }
}

/// Whether `node` is the first of the graph's nodes.
pub open spec fn is_seed(map_graph: MapGraph, node: usize) -> bool {
    map_graph.nodes@.len() > 0 && map_graph.nodes@[0] == node
}

/// The map once a visit of `node` has placed the seed, where it is to place it:
/// the node is the first of the graph's nodes, it has no room, and the seed can
/// be placed.
pub open spec fn seeded(
    map: MapView,
    library: Seq<TemplateView>,
    map_graph: MapGraph,
    node: usize,
) -> MapView {
    if is_seed(map_graph, node) && !map.rooms.contains_key(node) && map.can_place(
        seed_room(map, library),
        0,
    ) {
        map.committed(node, seed_room(map, library))
    } else {
        map
    }
}

/// Whether nothing is left to do for `node_b` as a neighbour of the room at
/// `node_a`: it is none of the weighted nodes, or it has a room, or no room of
/// any template can be placed for it against the room at `node_a`.
pub open spec fn settled(
    map: MapView,
    library: Seq<TemplateView>,
    map_graph: MapGraph,
    node_a: usize,
    node_b: usize,
) -> bool {
    ||| node_b >= graph_weights(map_graph.graph).len()
    ||| map.rooms.contains_key(node_b)
    ||| forall|id: usize|
        !#[trigger] can_join(
            map,
            library,
            node_a,
            id,
            wanted_type(graph_weights(map_graph.graph), node_b),
            graph_neighbours(map_graph.graph, node_b).len(),
        )
}

/// Whether nothing is left to do for any neighbour of the room at `node`: for
/// each edge that the index records at the node, the node at its other end is
/// settled.
pub open spec fn visited(
    map: MapView,
    library: Seq<TemplateView>,
    map_graph: MapGraph,
    index: Map<usize, Seq<(usize, usize)>>,
    node: usize,
) -> bool {
    forall|j: int|
        0 <= j < edges_at(index, node).len() ==> settled(
            map,
            library,
            map_graph,
            node,
            seen_from(node, #[trigger] edges_at(index, node)[j]).1,
        )
}

/// Visits the node `node_a`. If it is the first of the graph's nodes and has no
/// room, the seed is placed for it, where it can be. If the node then has a
/// room, a room is tried for each of its neighbours that has none, in the order
/// of the neighbour index, and each neighbour that got one is visited in turn.
/// A neighbour that is none of the weighted nodes is passed over. A visit of a
/// node without a room changes nothing.
///
/// Which rooms are placed depends on the generator. Whatever it gives, the map
/// stays sound and grows, its connections are edges of the graph, and when the
/// visit ends nothing is left to do for any neighbour of the node, nor of any
/// node that got its room during the visit.
pub fn try_node_recursive(
    node_a: usize,
    map_graph: &MapGraph,
    neighbour_map: &NeighbourMap,
    map: &mut TileMap,
    templates: &RoomTemplates,
    rng: &mut StdRng,
)
    requires
        old(map)@.sound(templates@, graph_weights(map_graph.graph)),
        old(map)@.follows(map_graph.graph),
        index_of_graph(index_view(*neighbour_map), map_graph.graph),
        templates.wf(),
        has_start(templates@),
    ensures
        final(map)@.sound(templates@, graph_weights(map_graph.graph)),
        final(map)@.follows(map_graph.graph),
        final(map)@.grows_from(old(map)@),
        final(map)@.grows_from(seeded(old(map)@, templates@, *map_graph, node_a)),
        !seeded(old(map)@, templates@, *map_graph, node_a).rooms.contains_key(node_a) || edges_at(
            index_view(*neighbour_map),
            node_a,
        ).len() == 0 ==> final(map)@ == seeded(old(map)@, templates@, *map_graph, node_a),
        forall|node: usize| #[trigger]
            final(map)@.rooms.contains_key(node) && (node == node_a || !old(
                map,
            )@.rooms.contains_key(node)) ==> visited(
                final(map)@,
                templates@,
                *map_graph,
                index_view(*neighbour_map),
                node,
            ),
    decreases unplaced(old(map)@.rooms.dom(), graph_weights(map_graph.graph).len()),
{
    let ghost start = map@;
    let ghost library = templates@;
    let ghost all_weights = graph_weights(map_graph.graph);
    let ghost index = index_view(*neighbour_map);
    let ghost edges = edges_at(index, node_a);
    proof {
        lemma_grows_from_itself(start);
    }
    if map_graph.nodes.len() > 0 && map_graph.nodes[0] == node_a {
        proof {
            assert(templates@.len() == templates.rooms.len());
            lemma_ids_of_type(templates@, RoomType::Start, templates@.len(), 0);
            if !start.rooms.contains_key(node_a) && start.can_place(seed_room(start, library), 0) {
                lemma_seed_sound(
                    start,
                    library,
                    all_weights,
                    node_a,
                    ids_of_type(library, RoomType::Start, library.len())[0],
                    seed_room(start, library),
                );
                lemma_seed_follows(start, map_graph.graph, node_a, seed_room(start, library));
            }
        }
        seed_start_room(map, templates, node_a);
    }
    assert(map@ == seeded(start, library, *map_graph, node_a));
    // only a placed room can have rooms placed against it
    if !map.rooms.contains_key(&node_a) {
        return ;
    }
    let ghost first = map@;
    let weights = node_weights(&map_graph.graph);
    let neighbours = get_neighbours(&node_a, neighbour_map);
    proof {
        lemma_grows_from_itself(first);
    }
    let mut i: usize = 0;
    while i < neighbours.len()
        invariant
            start == old(map)@,
            library == templates@,
            all_weights == graph_weights(map_graph.graph),
            weights@ == all_weights,
            templates.wf(),
            has_start(library),
            index == index_view(*neighbour_map),
            index_of_graph(index, map_graph.graph),
            map@.follows(map_graph.graph),
            edges == edges_at(index, node_a),
            neighbours@ == edges.map_values(|edge: (usize, usize)| seen_from(node_a, edge)),
            i <= neighbours.len(),
            first == seeded(start, library, *map_graph, node_a),
            first.grows_from(start),
            first.rooms.contains_key(node_a),
            map@.sound(library, all_weights),
            map@.grows_from(first),
            map@.rooms.contains_key(node_a),
            neighbours.len() == 0 ==> map@ == first,
            forall|node: usize| #[trigger]
                map@.rooms.contains_key(node) && !first.rooms.contains_key(node) ==> visited(
                    map@,
                    library,
                    *map_graph,
                    index,
                    node,
                ),
            forall|j: int|
                0 <= j < i ==> settled(
                    map@,
                    library,
                    *map_graph,
                    node_a,
                    (#[trigger] neighbours[j]).1,
                ),
        decreases neighbours.len() - i,
    {
        let (_, node_b, outbound) = neighbours[i];
        // a neighbour that has a room is never tried again
        if node_b < weights.len() && !map.rooms.contains_key(&node_b) {
            let room_b_type = if weights[node_b] == weights[weights.len() - 1] {
                RoomType::Boss
            } else {
                RoomType::Normal
            };
            let ghost before = map@;
            proof {
                let edge = edges[i as int];
                assert(neighbours[i as int] == seen_from(node_a, edge));
                assert(index.contains_key(node_a) && index[node_a][i as int] == edge);
            }
            let room_added = place_neighbour(
                map,
                node_a,
                node_b,
                outbound,
                room_b_type,
                map_graph,
                templates,
                rng,
            );
            proof {
                lemma_grows_on(first, before, map@);
                assert forall|j: int| 0 <= j < i implies settled(
                    map@,
                    library,
                    *map_graph,
                    node_a,
                    (#[trigger] neighbours[j]).1,
                ) by {
                    lemma_settled_kept(before, map@, library, *map_graph, node_a, neighbours[j].1);
                }
            }
            if room_added {
                let ghost placed = map@;
                proof {
                    lemma_grows_on(start, first, before);
                    assert(start.rooms.dom().subset_of(before.rooms.dom())) by {
                        assert forall|node: usize| start.rooms.dom().contains(node) implies before.rooms.dom().contains(node) by {
                            assert(start.rooms.contains_key(node));
                        }
                    }
                    lemma_unplaced_falls(start.rooms.dom(), before.rooms.dom(), all_weights.len());
                    lemma_unplaced_drops(before.rooms.dom(), node_b, all_weights.len());
                }
                try_node_recursive(node_b, map_graph, neighbour_map, map, templates, rng);
                proof {
                    lemma_grows_on(first, placed, map@);
                    assert(placed.rooms.contains_key(node_b));
                    assert(map@.rooms.contains_key(node_b));
                    lemma_grows_on(before, placed, map@);
                    assert forall|node: usize| #[trigger]
                        map@.rooms.contains_key(node) && !first.rooms.contains_key(
                            node,
                        ) implies visited(map@, library, *map_graph, index, node) by {
                        if before.rooms.contains_key(node) {
                            lemma_visited_kept(before, map@, library, *map_graph, index, node);
                        } else if node != node_b {
                            assert(!placed.rooms.contains_key(node));
                        }
                    }
                    assert forall|j: int| 0 <= j < i implies settled(
                        map@,
                        library,
                        *map_graph,
                        node_a,
                        (#[trigger] neighbours[j]).1,
                    ) by {
                        lemma_settled_kept(
                            placed,
                            map@,
                            library,
                            *map_graph,
                            node_a,
                            neighbours[j].1,
                        );
                    }
                }
            }
        }
        i += 1;
    }
    proof {
        lemma_grows_on(start, first, map@);
        assert forall|j: int| 0 <= j < edges.len() implies settled(
            map@,
            library,
            *map_graph,
            node_a,
            seen_from(node_a, #[trigger] edges[j]).1,
        ) by {
            assert(neighbours[j] == seen_from(node_a, edges[j]));
        }
        assert(visited(map@, library, *map_graph, index, node_a));
        assert forall|node: usize| #[trigger]
            map@.rooms.contains_key(node) && (node == node_a || !start.rooms.contains_key(
                node,
            )) implies visited(map@, library, *map_graph, index, node) by {
            if node != node_a {
                assert(!first.rooms.contains_key(node));
            }
        }
    }
}

/// Where nothing is left to do for any neighbour of a room, nothing is left to
/// do for them once the map has grown.
pub proof fn lemma_visited_kept(
    earlier: MapView,
    later: MapView,
    library: Seq<TemplateView>,
    map_graph: MapGraph,
    index: Map<usize, Seq<(usize, usize)>>,
    node: usize,
)
    requires
        earlier.consistent(),
        later.consistent(),
        later.grows_from(earlier),
        earlier.rooms.contains_key(node),
        visited(earlier, library, map_graph, index, node),
    ensures
        visited(later, library, map_graph, index, node),
{
    assert forall|j: int| 0 <= j < edges_at(index, node).len() implies settled(
        later,
        library,
        map_graph,
        node,
        seen_from(node, #[trigger] edges_at(index, node)[j]).1,
    ) by {
        lemma_settled_kept(
            earlier,
            later,
            library,
            map_graph,
            node,
            seen_from(node, edges_at(index, node)[j]).1,
        );
    }
}

/// A room that can be placed on a map could be placed on every map that the map
/// has grown from.
pub proof fn lemma_can_place_fades(earlier: MapView, later: MapView, room: RoomView, door_type: u8)
    requires
        earlier.consistent(),
        later.consistent(),
        later.grows_from(earlier),
        later.can_place(room, door_type),
    ensures
        earlier.can_place(room, door_type),
{
    assert forall|k: int| 0 <= k < room.tiles.len() implies !#[trigger] earlier.conflict(
        room,
        door_type,
        k,
    ) by {
        assert(!later.conflict(room, door_type, k));
        let cell = room.cell(k, earlier.width);
        if earlier.in_range(cell) && earlier.tiles[cell] != 0 {
            assert(earlier.covered(cell));
            let (node, at) = choose|node: usize, at: int|
                earlier.rooms.contains_key(node) && #[trigger] earlier.rooms[node].covers(
                    at,
                    cell,
                    earlier.width,
                );
            assert(later.rooms[node].extends(earlier.rooms[node]));
            assert((later.rooms[node].tiles[at] != 0) == (earlier.rooms[node].tiles[at] != 0));
            assert(later.rooms[node].covers(at, cell, later.width));
        }
    }
}

/// Where nothing is left to do for a neighbour of a room, nothing is left to do
/// for it once the map has grown.
pub proof fn lemma_settled_kept(
    earlier: MapView,
    later: MapView,
    library: Seq<TemplateView>,
    map_graph: MapGraph,
    node_a: usize,
    node_b: usize,
)
    requires
        earlier.consistent(),
        later.consistent(),
        later.grows_from(earlier),
        earlier.rooms.contains_key(node_a),
        settled(earlier, library, map_graph, node_a, node_b),
    ensures
        settled(later, library, map_graph, node_a, node_b),
{
    let room_type = wanted_type(graph_weights(map_graph.graph), node_b);
    let edges = graph_neighbours(map_graph.graph, node_b).len();
    if node_b < graph_weights(map_graph.graph).len() && !later.rooms.contains_key(node_b) {
        assert(!earlier.rooms.contains_key(node_b));
        assert(later.rooms[node_a].extends(earlier.rooms[node_a]));
        assert forall|id: usize| !#[trigger] can_join(
            later,
            library,
            node_a,
            id,
            room_type,
            edges,
        ) by {
            if can_join(later, library, node_a, id, room_type, edges) {
                let combinations = later.rooms[node_a].template.combinations_with(id);
                let i = choose|i: int|
                    0 <= i < combinations.len() && placeable(
                        later,
                        node_a,
                        fresh_room(library[id as int]),
                        #[trigger] combinations[i],
                    );
                let origin = aligned_origin(
                    later.rooms[node_a].x,
                    later.rooms[node_a].y,
                    combinations[i],
                );
                lemma_can_place_fades(
                    earlier,
                    later,
                    moved(fresh_room(library[id as int]), origin),
                    combinations[i].3,
                );
                assert(placeable(
                    earlier,
                    node_a,
                    fresh_room(library[id as int]),
                    earlier.rooms[node_a].template.combinations_with(id)[i],
                ));
                assert(can_join(earlier, library, node_a, id, room_type, edges));
            }
        }
    }
}

} // verus!
