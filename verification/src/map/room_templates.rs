//! Room templates, and for every two of them the ways to lay one against the other.

use crate::common::XY;
use crate::common::lemma_cell_in_grid;
use crate::common::lemma_index_in_grid;
use crate::common::lemma_index_split;
use crate::common::lemma_row_major;
use crate::common::DOOR_EAST;
use crate::common::DOOR_NORTH;
use crate::common::DOOR_SOUTH;
use crate::common::DOOR_WEST;
use crate::common::EMPTY;
use crate::common::FLOOR;
use crate::map::room::DoorsXY;
use crate::map::room::RoomType;
use crate::map::room::doors_view;
use crate::map::room_template_definitions as definitions;
use crate::map::room_template_definitions::blank_template;
use crate::map::room_template_definitions::is_door;
use crate::map::room_template_definitions::lemma_door_positions;
use crate::map::room_template_definitions::position_of;
use crate::random::fresh_rng;
use crate::random::pick;
use std::collections::HashMap;
use vstd::prelude::*;

verus! {

broadcast use vstd::std_specs::hash::group_hash_axioms;

/// One way to lay a template B against a template A so that a door of A meets the
/// reciprocal door of B: the offset to take from A's origin to reach B's origin,
/// the code and position of A's door, the code and position of B's door.
pub type RoomCombination = (XY, u8, XY, u8, XY);

/// The shape of a room: its footprint, its candidate doors, and the ways in which
/// every template of the library can be laid against it.
pub struct RoomTemplate {
    pub h: i32,
    pub w: i32,
    pub min_doors: u32,
    /// The positions of each candidate door, counted from 1.
    pub possible_doors_xy: DoorsXY,
    pub room_type: RoomType,
    pub tiles: Vec<u8>,
    /// For the id of each template of the library, the combinations with it.
    pub valid_combinations: HashMap<usize, Vec<RoomCombination>>,
}

/// The mathematical content of a `RoomTemplate`.
pub struct TemplateView {
    pub h: int,
    pub w: int,
    pub min_doors: int,
    pub doors: Map<u8, Seq<XY>>,
    pub room_type: RoomType,
    pub tiles: Seq<u8>,
    pub combinations: Map<usize, Seq<RoomCombination>>,
}

impl View for RoomTemplate {
    type V = TemplateView;

    open spec fn view(&self) -> TemplateView {
        TemplateView {
            h: self.h as int,
            w: self.w as int,
            min_doors: self.min_doors as int,
            doors: doors_view(self.possible_doors_xy),
            room_type: self.room_type,
            tiles: self.tiles@,
            combinations: self.valid_combinations@.map_values(|c: Vec<RoomCombination>| c@),
        }
    }
}

impl Clone for RoomTemplate {
    fn clone(&self) -> (copy: RoomTemplate)
        ensures
            copy@ == self@,
    {
        RoomTemplate {
            h: self.h,
            w: self.w,
            min_doors: self.min_doors,
            possible_doors_xy: self.possible_doors_xy.clone(),
            room_type: self.room_type,
            tiles: self.tiles.clone(),
            valid_combinations: self.valid_combinations.clone(),
        }
    }
}

impl TemplateView {
    /// The tile in column `cx` and row `cy`, both counted from 0; 0 outside the
    /// template's rectangle.
    pub open spec fn tile_at(self, cx: int, cy: int) -> u8 {
        if 0 <= cx < self.w && 0 <= cy < self.h {
            self.tiles[cy * self.w + cx]
        } else {
            0
        }
    }

    /// The candidate doors of code `door`, in reading order; none where the
    /// template has no such door.
    pub open spec fn doors_of(self, door: u8) -> Seq<XY> {
        if self.doors.contains_key(door) {
            self.doors[door]
        } else {
            Seq::empty()
        }
    }

    /// Whether `xy`, counted from 1, is a position on the template.
    pub open spec fn holds(self, xy: XY) -> bool {
        1 <= xy.0 <= self.w && 1 <= xy.1 <= self.h
    }
}

/// A candidate door of a sound template lies on the template, on a tile of the
/// door's code.
pub proof fn lemma_door_on_template(t: TemplateView, door: u8, i: int)
    requires
        t.wf(),
        0 <= i < t.doors_of(door).len(),
    ensures
        is_door(door),
        t.holds(t.doors_of(door)[i]),
        t.tile_at(t.doors_of(door)[i].0 - 1, t.doors_of(door)[i].1 - 1) == door,
{
    lemma_door_positions(t.tiles, t.w, door, t.tiles.len(), i);
    let k = choose|k: int|
        0 <= k < t.tiles.len() && t.tiles[k] == door && #[trigger] position_of(k, t.w)
            == t.doors_of(door)[i];
    lemma_index_in_grid(k, t.w, t.h);
}

/// The door that a door of code `door` connects to: north and south pair up, and
/// so do east and west. Any other code is answered with north.
pub open spec fn reciprocal(door: u8) -> u8 {
    if door == DOOR_NORTH {
        DOOR_SOUTH
    } else if door == DOOR_SOUTH {
        DOOR_NORTH
    } else if door == DOOR_EAST {
        DOOR_WEST
    } else if door == DOOR_WEST {
        DOOR_EAST
    } else {
        DOOR_NORTH
    }
}

/// The door that a door of code `tile` connects to.
pub fn connecting_door(tile: u8) -> (door: u8)
    ensures
        door == reciprocal(tile),
{
    match tile {
        2 => 4,
        4 => 2,
        3 => 5,
        5 => 3,
        _ => 2,
    }
}

/// A scratch canvas of `cw` by `ch` cells that holds `room` in its centre and
/// nothing else.
pub open spec fn canvas_of(room: TemplateView, cw: int, ch: int) -> Seq<u8> {
    Seq::new(
        (cw * ch) as nat,
        |i: int| room.tile_at(i % cw - (cw / 2 - room.w / 2), i / cw - (ch / 2 - room.h / 2)),
    )
}

/// The canvas while `room` is being laid down: only its first `k` tiles are on it.
spec fn canvas_so_far(room: TemplateView, cw: int, ch: int, k: int, i: int) -> u8 {
    let cx = i % cw - (cw / 2 - room.w / 2);
    let cy = i / cw - (ch / 2 - room.h / 2);
    if 0 <= cx < room.w && 0 <= cy < room.h && cy * room.w + cx < k {
        room.tiles[cy * room.w + cx]
    } else {
        0
    }
}

/// Lays `room` into the centre of an empty canvas. Returns the canvas and the
/// column and row of the room's top left corner on it.
pub fn canvas_with_room(room: &RoomTemplate, canvas_w: i32, canvas_h: i32) -> (canvas: (
    Vec<u8>,
    i32,
    i32,
))
    requires
        room@.wf(),
        room.w <= canvas_w,
        room.h <= canvas_h,
        canvas_w * canvas_h <= i32::MAX,
    ensures
        canvas.0@ == canvas_of(room@, canvas_w as int, canvas_h as int),
        canvas.1 == canvas_w / 2 - room.w / 2,
        canvas.2 == canvas_h / 2 - room.h / 2,
{
    let ghost cw = canvas_w as int;
    let ghost ch = canvas_h as int;
    assert(0 < cw * ch) by (nonlinear_arith)
        requires
            0 < cw,
            0 < ch,
    ;
    let cells: usize = (canvas_w * canvas_h) as usize;
    let mut tiles: Vec<u8> = vec![0u8; cells];
    let x: i32 = (canvas_w / 2) - (room.w / 2);
    let y: i32 = (canvas_h / 2) - (room.h / 2);
    let w: usize = room.w as usize;
    let mut k: usize = 0;
    while k < room.tiles.len()
        invariant
            room@.wf(),
            room.w <= canvas_w,
            room.h <= canvas_h,
            cw == canvas_w,
            ch == canvas_h,
            cw * ch <= i32::MAX,
            cells == cw * ch,
            w == room.w,
            x == canvas_w / 2 - room.w / 2,
            y == canvas_h / 2 - room.h / 2,
            k <= room.tiles.len(),
            tiles.len() == cells,
            forall|i: int|
                0 <= i < cells ==> tiles@[i] == #[trigger] canvas_so_far(room@, cw, ch, k as int, i),
        decreases room.tiles.len() - k,
    {
        let r: i32 = (k / w) as i32;
        let c: i32 = (k % w) as i32;
        proof {
            lemma_index_in_grid(k as int, room.w as int, room.h as int);
            lemma_cell_in_grid((y + r) as int, (x + c) as int, cw, ch);
            lemma_row_major((y + r) as int, (x + c) as int, cw);
        }
        let idx: usize = ((y + r) * canvas_w + x + c) as usize;
        let ghost before = tiles@;
        tiles.set(idx, room.tiles[k]);
        proof {
            assert forall|i: int| 0 <= i < cells implies tiles@[i] == #[trigger] canvas_so_far(
                room@,
                cw,
                ch,
                k + 1,
                i,
            ) by {
                let cx = i % cw - x;
                let cy = i / cw - y;
                lemma_index_split(i, cw);
                if 0 <= cx < room.w && 0 <= cy < room.h {
                    lemma_row_major(cy, cx, room.w as int);
                }
                assert(before[i] == canvas_so_far(room@, cw, ch, k as int, i));
            }
        }
        k += 1;
    }
    proof {
        assert forall|i: int| 0 <= i < cells implies tiles@[i] == #[trigger] canvas_of(
            room@,
            cw,
            ch,
        )[i] by {
            let cx = i % cw - x;
            let cy = i / cw - y;
            assert(tiles@[i] == canvas_so_far(room@, cw, ch, k as int, i));
            if 0 <= cx < room.w && 0 <= cy < room.h {
                lemma_cell_in_grid(cy, cx, room.w as int, room.h as int);
            }
        }
        assert(tiles@ =~= canvas_of(room@, cw, ch));
    }
    (tiles, x, y)
}

/// Whether template B can be laid against template A with B's door at `xy_b` on
/// the very cell of A's door at `xy_a`: no tile of B but an empty one may land on
/// an interior tile of A.
pub open spec fn fits(a: TemplateView, b: TemplateView, xy_a: XY, xy_b: XY) -> bool {
    forall|k: int|
        0 <= k < b.tiles.len() && #[trigger] b.tiles[k] != 0 ==> a.tile_at(
            xy_a.0 - xy_b.0 + k % b.w,
            xy_a.1 - xy_b.1 + k / b.w,
        ) != FLOOR
}

/// What to take from A's origin to reach B's origin once the two doors share a cell.
pub open spec fn relative_offset(xy_a: XY, xy_b: XY) -> XY {
    ((xy_b.0 - xy_a.0) as i32, (xy_b.1 - xy_a.1) as i32)
}

/// Whether the scratch canvas for laying B against A can be allocated.
pub open spec fn canvas_in_reach(a: TemplateView, b: TemplateView) -> bool {
    (a.w + 2 * b.w + 1) * (a.h + 2 * b.h + 1) <= i32::MAX
}

/// Tries template B against template A on a scratch canvas, B's door at `xy_b` on
/// the cell of A's door at `xy_a`. Returns the offset between the two origins if
/// B fits there.
pub fn can_place_room(
    xy_a: &XY,
    xy_b: &XY,
    template_a: &RoomTemplate,
    template_b: &RoomTemplate,
) -> (offset: Option<XY>)
    requires
        template_a@.wf(),
        template_b@.wf(),
        template_a@.holds(*xy_a),
        template_b@.holds(*xy_b),
        canvas_in_reach(template_a@, template_b@),
    ensures
        offset == if fits(template_a@, template_b@, *xy_a, *xy_b) {
            Some(relative_offset(*xy_a, *xy_b))
        } else {
            None
        },
{
    let ghost a = template_a@;
    let ghost b = template_b@;
    let ghost cw = a.w + 2 * b.w + 1;
    let ghost ch = a.h + 2 * b.h + 1;
    assert(cw <= i32::MAX && ch <= i32::MAX) by (nonlinear_arith)
        requires
            cw * ch <= i32::MAX,
            cw > 0,
            ch > 0,
    ;
    let canvas_width: i32 = template_a.w + (template_b.w * 2) + 1;
    let canvas_height: i32 = template_a.h + (template_b.h * 2) + 1;
    let (canvas_tiles, room_x, room_y) = canvas_with_room(template_a, canvas_width, canvas_height);
    let mut can_place = true;

    // where door a lies on the canvas
    let door_a_x: i32 = room_x + xy_a.0;
    let door_a_y: i32 = room_y + xy_a.1;
    // where room b lies on the canvas with its door on door a
    let new_room_canvas_x: i32 = door_a_x - xy_b.0;
    let new_room_canvas_y: i32 = door_a_y - xy_b.1;
    // where room b lies, seen from room a
    let new_room_relative_x: i32 = room_x - new_room_canvas_x;
    let new_room_relative_y: i32 = room_y - new_room_canvas_y;

    let w: usize = template_b.w as usize;
    let mut k: usize = 0;
    while k < template_b.tiles.len()
        invariant
            a == template_a@,
            b == template_b@,
            a.wf(),
            b.wf(),
            a.holds(*xy_a),
            b.holds(*xy_b),
            cw == a.w + 2 * b.w + 1,
            ch == a.h + 2 * b.h + 1,
            cw == canvas_width,
            ch == canvas_height,
            cw * ch <= i32::MAX,
            canvas_tiles@ == canvas_of(a, cw, ch),
            room_x == cw / 2 - a.w / 2,
            room_y == ch / 2 - a.h / 2,
            new_room_canvas_x == room_x + xy_a.0 - xy_b.0,
            new_room_canvas_y == room_y + xy_a.1 - xy_b.1,
            w == b.w,
            k <= template_b.tiles.len(),
            can_place <==> forall|j: int|
                0 <= j < k && #[trigger] b.tiles[j] != 0 ==> a.tile_at(
                    xy_a.0 - xy_b.0 + j % b.w,
                    xy_a.1 - xy_b.1 + j / b.w,
                ) != 8,
        decreases template_b.tiles.len() - k,
    {
        let r: i32 = (k / w) as i32;
        let c: i32 = (k % w) as i32;
        proof {
            lemma_index_in_grid(k as int, b.w, b.h);
            lemma_cell_in_grid(
                (new_room_canvas_y + r) as int,
                (new_room_canvas_x + c) as int,
                cw,
                ch,
            );
            lemma_row_major((new_room_canvas_y + r) as int, (new_room_canvas_x + c) as int, cw);
        }
        let idx: usize = ((new_room_canvas_y + r) * canvas_width + new_room_canvas_x + c) as usize;
        let tile: u8 = template_b.tiles[k];
        if tile != EMPTY && canvas_tiles[idx] == FLOOR {
            can_place = false;
        }
        k += 1;
    }
    if can_place {
        Some((new_room_relative_x, new_room_relative_y))
    } else {
        None
    }
}

/// The combination that lays B's door at `xy_b` on A's door of code `door_a` at `xy_a`.
pub open spec fn combination(door_a: u8, xy_a: XY, xy_b: XY) -> RoomCombination {
    (relative_offset(xy_a, xy_b), door_a, xy_a, reciprocal(door_a), xy_b)
}

/// The combinations of A's door of code `door_a` at `xy_a` with the first `n`
/// doors of B that can connect to it, in B's order.
pub open spec fn door_combinations(
    a: TemplateView,
    b: TemplateView,
    door_a: u8,
    xy_a: XY,
    n: nat,
) -> Seq<RoomCombination>
    decreases n,
{
    if n == 0 {
        Seq::empty()
    } else {
        let before = door_combinations(a, b, door_a, xy_a, (n - 1) as nat);
        let xy_b = b.doors_of(reciprocal(door_a))[n - 1];
        if fits(a, b, xy_a, xy_b) {
            before.push(combination(door_a, xy_a, xy_b))
        } else {
            before
        }
    }
}

/// The combinations of the first `m` doors of code `door_a` of A with B.
pub open spec fn side_combinations(a: TemplateView, b: TemplateView, door_a: u8, m: nat) -> Seq<
    RoomCombination,
>
    decreases m,
{
    if m == 0 {
        Seq::empty()
    } else {
        side_combinations(a, b, door_a, (m - 1) as nat) + door_combinations(
            a,
            b,
            door_a,
            a.doors_of(door_a)[m - 1],
            b.doors_of(reciprocal(door_a)).len(),
        )
    }
}

/// The combinations of A's doors of the codes from 2 up to, not including, `door` with B.
pub open spec fn combinations_below(a: TemplateView, b: TemplateView, door: u8) -> Seq<
    RoomCombination,
>
    decreases door,
{
    if door <= 2 {
        Seq::empty()
    } else {
        let code = (door - 1) as u8;
        combinations_below(a, b, code) + side_combinations(
            a,
            b,
            code,
            a.doors_of(code).len(),
        )
    }
}

/// Every way to lay template B against template A: for each door of A, by door
/// code and then in reading order, and each door of B that can connect to it, in
/// reading order, the combination of the two if B fits there.
pub open spec fn combinations_of(a: TemplateView, b: TemplateView) -> Seq<RoomCombination> {
    combinations_below(a, b, 6)
}

/// What holds of each combination of B with A: it joins a candidate door of A
/// to a candidate door of B of the reciprocal code, B fits there, and its offset
/// is the one that lets the two doors share a cell.
pub open spec fn valid_combination(a: TemplateView, b: TemplateView, c: RoomCombination) -> bool {
    &&& is_door(c.1)
    &&& c.3 == reciprocal(c.1)
    &&& a.doors_of(c.1).contains(c.2)
    &&& b.doors_of(c.3).contains(c.4)
    &&& c.0 == relative_offset(c.2, c.4)
    &&& fits(a, b, c.2, c.4)
}

proof fn lemma_door_combinations_valid(
    a: TemplateView,
    b: TemplateView,
    door_a: u8,
    xy_a: XY,
    n: nat,
    i: int,
)
    requires
        is_door(door_a),
        a.doors_of(door_a).contains(xy_a),
        n <= b.doors_of(reciprocal(door_a)).len(),
        0 <= i < door_combinations(a, b, door_a, xy_a, n).len(),
    ensures
        valid_combination(a, b, door_combinations(a, b, door_a, xy_a, n)[i]),
    decreases n,
{
    if n > 0 {
        let before = door_combinations(a, b, door_a, xy_a, (n - 1) as nat);
        if i < before.len() {
            lemma_door_combinations_valid(a, b, door_a, xy_a, (n - 1) as nat, i);
        } else {
            let doors_b = b.doors_of(reciprocal(door_a));
            assert(doors_b.contains(doors_b[n - 1]));
        }
    }
}

proof fn lemma_side_combinations_valid(
    a: TemplateView,
    b: TemplateView,
    door_a: u8,
    m: nat,
    i: int,
)
    requires
        is_door(door_a),
        m <= a.doors_of(door_a).len(),
        0 <= i < side_combinations(a, b, door_a, m).len(),
    ensures
        valid_combination(a, b, side_combinations(a, b, door_a, m)[i]),
    decreases m,
{
    if m > 0 {
        let before = side_combinations(a, b, door_a, (m - 1) as nat);
        if i < before.len() {
            lemma_side_combinations_valid(a, b, door_a, (m - 1) as nat, i);
        } else {
            let doors_a = a.doors_of(door_a);
            assert(doors_a.contains(doors_a[m - 1]));
            lemma_door_combinations_valid(
                a,
                b,
                door_a,
                doors_a[m - 1],
                b.doors_of(reciprocal(door_a)).len(),
                i - before.len(),
            );
        }
    }
}

proof fn lemma_combinations_below_valid(a: TemplateView, b: TemplateView, door: u8, i: int)
    requires
        door <= 6,
        0 <= i < combinations_below(a, b, door).len(),
    ensures
        valid_combination(a, b, combinations_below(a, b, door)[i]),
    decreases door,
{
    if door > 2 {
        let code = (door - 1) as u8;
        let before = combinations_below(a, b, code);
        if i < before.len() {
            lemma_combinations_below_valid(a, b, code, i);
        } else {
            lemma_side_combinations_valid(a, b, code, a.doors_of(code).len(), i - before.len());
        }
    }
}

/// Every combination of B with A joins a door of A to a reciprocal door of B at
/// an offset at which B fits.
pub proof fn lemma_combinations_valid(a: TemplateView, b: TemplateView, i: int)
    requires
        0 <= i < combinations_of(a, b).len(),
    ensures
        valid_combination(a, b, combinations_of(a, b)[i]),
{
    lemma_combinations_below_valid(a, b, 6, i);
}

/// Appends the combinations of one door of A with every door of B that can
/// connect to it.
fn door_against(
    template_a: &RoomTemplate,
    template_b: &RoomTemplate,
    door_a_type: u8,
    door_a_xy: XY,
    combos: &mut Vec<RoomCombination>,
)
    requires
        template_a@.wf(),
        template_b@.wf(),
        canvas_in_reach(template_a@, template_b@),
        template_a@.holds(door_a_xy),
    ensures
        final(combos)@ == old(combos)@ + door_combinations(
            template_a@,
            template_b@,
            door_a_type,
            door_a_xy,
            template_b@.doors_of(reciprocal(door_a_type)).len(),
        ),
{
    let ghost a = template_a@;
    let ghost b = template_b@;
    let ghost base = combos@;
    let door_b_type = connecting_door(door_a_type);
    assert(combos@ =~= base + door_combinations(a, b, door_a_type, door_a_xy, 0));
    if let Some(doors_xy) = template_b.possible_doors_xy.get(&door_b_type) {
        assert(doors_xy@ == b.doors_of(door_b_type));
        let mut n: usize = 0;
        while n < doors_xy.len()
            invariant
                a == template_a@,
                b == template_b@,
                a.wf(),
                b.wf(),
                canvas_in_reach(a, b),
                a.holds(door_a_xy),
                door_b_type == reciprocal(door_a_type),
                doors_xy@ == b.doors_of(door_b_type),
                n <= doors_xy.len(),
                combos@ == base + door_combinations(a, b, door_a_type, door_a_xy, n as nat),
            decreases doors_xy.len() - n,
        {
            let door_b_xy: XY = doors_xy[n];
            proof {
                lemma_door_on_template(b, door_b_type, n as int);
            }
            if let Some(template_b_xy) = can_place_room(
                &door_a_xy,
                &door_b_xy,
                template_a,
                template_b,
            ) {
                combos.push((template_b_xy, door_a_type, door_a_xy, door_b_type, door_b_xy));
            }
            n += 1;
            assert(combos@ =~= base + door_combinations(a, b, door_a_type, door_a_xy, n as nat));
        }
    }
}

/// Appends the combinations of every door of A of one code with B.
fn side_against(
    template_a: &RoomTemplate,
    template_b: &RoomTemplate,
    door_a_type: u8,
    combos: &mut Vec<RoomCombination>,
)
    requires
        template_a@.wf(),
        template_b@.wf(),
        canvas_in_reach(template_a@, template_b@),
    ensures
        final(combos)@ == old(combos)@ + side_combinations(
            template_a@,
            template_b@,
            door_a_type,
            template_a@.doors_of(door_a_type).len(),
        ),
{
    let ghost a = template_a@;
    let ghost b = template_b@;
    let ghost base = combos@;
    assert(combos@ =~= base + side_combinations(a, b, door_a_type, 0));
    if let Some(door_xys) = template_a.possible_doors_xy.get(&door_a_type) {
        assert(door_xys@ == a.doors_of(door_a_type));
        let mut m: usize = 0;
        while m < door_xys.len()
            invariant
                a == template_a@,
                b == template_b@,
                a.wf(),
                b.wf(),
                canvas_in_reach(a, b),
                door_xys@ == a.doors_of(door_a_type),
                m <= door_xys.len(),
                combos@ == base + side_combinations(a, b, door_a_type, m as nat),
            decreases door_xys.len() - m,
        {
            let door_a_xy: XY = door_xys[m];
            proof {
                lemma_door_on_template(a, door_a_type, m as int);
            }
            door_against(template_a, template_b, door_a_type, door_a_xy, combos);
            m += 1;
            assert(combos@ =~= base + side_combinations(a, b, door_a_type, m as nat));
        }
    }
}

/// Every way to lay template B against template A.
pub fn combinations_between(template_a: &RoomTemplate, template_b: &RoomTemplate) -> (combos: Vec<
    RoomCombination,
>)
    requires
        template_a@.wf(),
        template_b@.wf(),
        canvas_in_reach(template_a@, template_b@),
    ensures
        combos@ == combinations_of(template_a@, template_b@),
{
    let mut combos: Vec<RoomCombination> = Vec::new();
    let mut door_a_type: u8 = 2;
    while door_a_type <= 5
        invariant
            template_a@.wf(),
            template_b@.wf(),
            canvas_in_reach(template_a@, template_b@),
            2 <= door_a_type <= 6,
            combos@ == combinations_below(template_a@, template_b@, door_a_type),
        decreases 6 - door_a_type,
    {
        side_against(template_a, template_b, door_a_type, &mut combos);
        door_a_type += 1;
    }
    combos
}

impl TemplateView {
    /// The template without its combinations.
    pub open spec fn shape(self) -> TemplateView {
        TemplateView { combinations: Map::empty(), ..self }
    }
}

/// The combinations table of the template of id `a`: under the id of each
/// template of the library, every way to lay that template against it.
pub open spec fn table(library: Seq<TemplateView>, a: int) -> Map<usize, Seq<RoomCombination>> {
    Map::new(
        |b: usize| b < library.len(),
        |b: usize| combinations_of(library[a].shape(), library[b as int].shape()),
    )
}

/// The library with each template's combinations table worked out and attached.
pub open spec fn linked(library: Seq<TemplateView>) -> Seq<TemplateView> {
    Seq::new(
        library.len(),
        |a: int| TemplateView { combinations: table(library, a), ..library[a] },
    )
}

/// What a vector of templates stands for.
pub open spec fn shapes(templates: Seq<RoomTemplate>) -> Seq<TemplateView> {
    templates.map_values(|t: RoomTemplate| t@)
}

/// Works out, for every ordered pair of templates, all the ways to lay the
/// second against the first, and attaches to each template its table.
pub fn calculate_combinations(templates: &mut Vec<RoomTemplate>)
    requires
        forall|a: int|
            0 <= a < old(templates).len() ==> (#[trigger] old(templates)[a])@.wf()
                && old(templates)[a]@.combinations == Map::<usize, Seq<RoomCombination>>::empty(),
        forall|a: int, b: int|
            0 <= a < old(templates).len() && 0 <= b < old(templates).len() ==> canvas_in_reach(
                (#[trigger] old(templates)[a])@,
                (#[trigger] old(templates)[b])@,
            ),
    ensures
        shapes(final(templates)@) == linked(shapes(old(templates)@)),
{
    let ghost library = shapes(templates@);
    let count: usize = templates.len();
    let mut done: Vec<RoomTemplate> = Vec::new();
    let mut a: usize = 0;
    while a < count
        invariant
            count == templates.len(),
            library == shapes(templates@),
            forall|i: int|
                0 <= i < count ==> (#[trigger] templates[i])@.wf() && templates[i]@.combinations
                    == Map::<usize, Seq<RoomCombination>>::empty(),
            forall|i: int, j: int|
                0 <= i < count && 0 <= j < count ==> canvas_in_reach(
                    (#[trigger] templates[i])@,
                    (#[trigger] templates[j])@,
                ),
            a <= count,
            done.len() == a,
            forall|i: int| 0 <= i < a ==> (#[trigger] done[i])@ == linked(library)[i],
        decreases count - a,
    {
        let mut template_a = templates[a].clone();
        assert forall|k: usize| !template_a.valid_combinations@.contains_key(k) by {
            assert(!template_a@.combinations.contains_key(k));
        }
        let mut b: usize = 0;
        while b < count
            invariant
                count == templates.len(),
                library == shapes(templates@),
                forall|i: int|
                    0 <= i < count ==> (#[trigger] templates[i])@.wf()
                        && templates[i]@.combinations == Map::<
                        usize,
                        Seq<RoomCombination>,
                    >::empty(),
                forall|i: int, j: int|
                    0 <= i < count && 0 <= j < count ==> canvas_in_reach(
                        (#[trigger] templates[i])@,
                        (#[trigger] templates[j])@,
                    ),
                a < count,
                b <= count,
                template_a@.shape() == templates[a as int]@,
                forall|k: usize| template_a.valid_combinations@.contains_key(k) <==> k < b,
                forall|k: usize|
                    k < b ==> (#[trigger] template_a.valid_combinations@[k])@ == combinations_of(
                        library[a as int].shape(),
                        library[k as int].shape(),
                    ),
            decreases count - b,
        {
            let combos = combinations_between(&templates[a], &templates[b]);
            assert(templates[a as int]@.shape() == templates[a as int]@);
            assert(templates[b as int]@.shape() == templates[b as int]@);
            template_a.valid_combinations.insert(b, combos);
            b += 1;
        }
        assert(template_a@.combinations =~= table(library, a as int));
        assert(template_a@ == linked(library)[a as int]);
        done.push(template_a);
        a += 1;
    }
    *templates = done;
    assert(shapes(templates@) =~= linked(library));
}

/// The catalogue of room templates, each with its combinations with every one of them.
pub struct RoomTemplates {
    /// The templates. The id of a template is its index.
    pub rooms: Vec<RoomTemplate>,
}

impl View for RoomTemplates {
    type V = Seq<TemplateView>;

    open spec fn view(&self) -> Seq<TemplateView> {
        shapes(self.rooms@)
    }
}

/// The shapes of the catalogue, in the order of their ids.
pub open spec fn catalogue() -> Seq<TemplateView> {
    seq![
        blank_template(definitions::bent_l_tiles(), 6, 7, 0, RoomType::Normal),
        blank_template(definitions::bent_r_tiles(), 6, 7, 0, RoomType::Normal),
        blank_template(definitions::big_square_tiles(), 5, 6, 0, RoomType::Normal),
        blank_template(definitions::boss_room_tiles(), 9, 6, 0, RoomType::Boss),
        blank_template(definitions::cross_tiles(), 5, 5, 2, RoomType::Normal),
        blank_template(definitions::jar_tiles(), 7, 11, 2, RoomType::Normal),
        blank_template(definitions::l_bottom_left_shape_tiles(), 7, 7, 0, RoomType::Normal),
        blank_template(definitions::l_bottom_right_shape_tiles(), 7, 7, 0, RoomType::Normal),
        blank_template(definitions::l_top_left_shape_tiles(), 7, 7, 0, RoomType::Normal),
        blank_template(definitions::l_top_right_shape_tiles(), 7, 7, 0, RoomType::Normal),
        blank_template(definitions::long_shape_tiles(), 9, 5, 0, RoomType::Normal),
        blank_template(definitions::rectangle_tiles(), 6, 5, 0, RoomType::Normal),
        blank_template(definitions::small_square_tiles(), 5, 5, 0, RoomType::Normal),
        blank_template(definitions::start_room_tiles(), 9, 5, 0, RoomType::Start),
        blank_template(definitions::tall_tiles(), 5, 9, 0, RoomType::Normal),
        blank_template(definitions::wide_tiles(), 11, 4, 0, RoomType::Normal),
    ]
}

/// The ids below `n` of the templates of type `room_type`, in increasing order.
pub open spec fn ids_of_type(library: Seq<TemplateView>, room_type: RoomType, n: nat) -> Seq<usize>
    decreases n,
{
    if n == 0 {
        Seq::empty()
    } else {
        let before = ids_of_type(library, room_type, (n - 1) as nat);
        if library[n - 1].room_type == room_type {
            before.push((n - 1) as usize)
        } else {
            before
        }
    }
}

/// Whether the library holds a template of type `Start`.
pub open spec fn has_start(library: Seq<TemplateView>) -> bool {
    ids_of_type(library, RoomType::Start, library.len()).len() > 0
}

/// The template of the seed: the first template of type `Start`.
pub open spec fn start_template(library: Seq<TemplateView>) -> TemplateView {
    library[ids_of_type(library, RoomType::Start, library.len())[0] as int]
}

/// Every id that `ids_of_type` lists is the id of a template of that type.
pub proof fn lemma_ids_of_type(library: Seq<TemplateView>, room_type: RoomType, n: nat, i: int)
    requires
        n <= library.len() <= usize::MAX,
        0 <= i < ids_of_type(library, room_type, n).len(),
    ensures
        ids_of_type(library, room_type, n)[i] < n,
        library[ids_of_type(library, room_type, n)[i] as int].room_type == room_type,
    decreases n,
{
    if n > 0 {
        let before = ids_of_type(library, room_type, (n - 1) as nat);
        if i < before.len() {
            lemma_ids_of_type(library, room_type, (n - 1) as nat, i);
        }
    }
}

/// Whether a library is sound: each template is, and carries its combinations
/// with every template of the library.
pub open spec fn library_wf(library: Seq<TemplateView>) -> bool {
    &&& library.len() <= usize::MAX
    &&& forall|a: int|
        0 <= a < library.len() ==> (#[trigger] library[a]).wf() && library[a].combinations == table(
            library,
            a,
        )
}

/// Whether every template of the library has floor in one of any two
/// neighbouring columns, and no door marked as connected.
pub open spec fn library_floored(library: Seq<TemplateView>) -> bool {
    forall|a: int|
        0 <= a < library.len() ==> (#[trigger] library[a]).floored() && library[a].unmarked()
}

/// Every template of the catalogue has floor in one of any two neighbouring
/// columns, and no door marked as connected.
pub proof fn lemma_catalogue_floored()
    ensures
        library_floored(linked(catalogue())),
{
    definitions::lemma_bent_l_floored();
    definitions::lemma_bent_r_floored();
    definitions::lemma_big_square_floored();
    definitions::lemma_boss_room_floored();
    definitions::lemma_cross_floored();
    definitions::lemma_jar_floored();
    definitions::lemma_l_bottom_left_shape_floored();
    definitions::lemma_l_bottom_right_shape_floored();
    definitions::lemma_l_top_left_shape_floored();
    definitions::lemma_l_top_right_shape_floored();
    definitions::lemma_long_shape_floored();
    definitions::lemma_rectangle_floored();
    definitions::lemma_small_square_floored();
    definitions::lemma_start_room_floored();
    definitions::lemma_tall_floored();
    definitions::lemma_wide_floored();
}

/// The catalogue holds a template of type `Start`.
pub proof fn lemma_catalogue_has_start()
    ensures
        has_start(linked(catalogue())),
{
    let library = linked(catalogue());
    assert(library[13].room_type == RoomType::Start);
    assert(ids_of_type(library, RoomType::Start, 14).len() > 0);
    assert(ids_of_type(library, RoomType::Start, 15).len() > 0);
    assert(ids_of_type(library, RoomType::Start, 16).len() > 0);
}

impl RoomTemplates {
    /// Whether the library is sound, and every one of its templates has floor in
    /// one of any two neighbouring columns and no door marked as connected.
    pub open spec fn wf(&self) -> bool {
        library_wf(self@) && library_floored(self@)
    }

    /// Builds the catalogue and works out every combination of two of its templates.
    pub fn new() -> (templates: RoomTemplates)
        ensures
            templates@ == linked(catalogue()),
            templates.wf(),
            has_start(templates@),
    {
        let mut rooms: Vec<RoomTemplate> = Vec::new();
        rooms.push(definitions::bent_l());
        rooms.push(definitions::bent_r());
        rooms.push(definitions::big_square());
        rooms.push(definitions::boss_room());
        rooms.push(definitions::cross());
        rooms.push(definitions::jar());
        rooms.push(definitions::l_bottom_left_shape());
        rooms.push(definitions::l_bottom_right_shape());
        rooms.push(definitions::l_top_left_shape());
        rooms.push(definitions::l_top_right_shape());
        rooms.push(definitions::long_shape());
        rooms.push(definitions::rectangle());
        rooms.push(definitions::small_square());
        rooms.push(definitions::start_room());
        rooms.push(definitions::tall());
        rooms.push(definitions::wide());
        assert(shapes(rooms@) =~= catalogue());
        assert forall|a: int, b: int| 0 <= a < rooms.len() && 0 <= b < rooms.len() implies canvas_in_reach(
            (#[trigger] rooms[a])@,
            (#[trigger] rooms[b])@,
        ) by {
            let ta = rooms[a]@;
            let tb = rooms[b]@;
            assert(ta == shapes(rooms@)[a]);
            assert(tb == shapes(rooms@)[b]);
            assert(0 < ta.w <= 11 && 0 < ta.h <= 11);
            assert(0 < tb.w <= 11 && 0 < tb.h <= 11);
            assert((ta.w + 2 * tb.w + 1) * (ta.h + 2 * tb.h + 1) <= 34 * 34) by (nonlinear_arith)
                requires
                    0 < ta.w <= 11,
                    0 < ta.h <= 11,
                    0 < tb.w <= 11,
                    0 < tb.h <= 11,
            ;
        }
        calculate_combinations(&mut rooms);
        let templates = RoomTemplates { rooms };
        proof {
            lemma_linked_wf(catalogue());
            lemma_catalogue_floored();
            lemma_catalogue_has_start();
        }
        templates
    }

    /// A copy of a template picked at random among all but the first.
    pub fn _random(&self) -> (template: RoomTemplate)
        requires
            self@.len() > 1,
        ensures
            exists|id: int| 1 <= id < self@.len() && #[trigger] self@[id] == template@,
    {
        let mut rng = fresh_rng();
        let rooms_len = self.rooms.len();
        let rand_room = pick(&mut rng, 1, rooms_len);
        let template = self.rooms[rand_room].clone();
        assert(self@[rand_room as int] == template@);
        template
    }

    /// The ids of the templates of type `room_type`, in increasing order.
    pub fn of_type(&self, room_type: RoomType) -> (ids: Vec<usize>)
        ensures
            ids@ == ids_of_type(self@, room_type, self@.len()),
    {
        let mut ids: Vec<usize> = Vec::new();
        let mut id: usize = 0;
        while id < self.rooms.len()
            invariant
                id <= self.rooms.len(),
                ids@ == ids_of_type(self@, room_type, id as nat),
            decreases self.rooms.len() - id,
        {
            if self.rooms[id].room_type == room_type {
                ids.push(id);
            }
            id += 1;
        }
        ids
    }
}

/// Attaching the tables to a library of sound blank templates gives a sound library.
pub proof fn lemma_linked_wf(library: Seq<TemplateView>)
    requires
        library.len() <= usize::MAX,
        forall|a: int| 0 <= a < library.len() ==> (#[trigger] library[a]).wf(),
    ensures
        library_wf(linked(library)),
{
    let full = linked(library);
    assert forall|a: int| 0 <= a < full.len() implies (#[trigger] full[a]).wf()
        && full[a].combinations == table(full, a) by {
        assert(library[a].wf());
        assert forall|b: usize| b < full.len() implies combinations_of(
            full[a].shape(),
            full[b as int].shape(),
        ) == combinations_of(library[a].shape(), library[b as int].shape()) by {
            assert(full[a].shape() == library[a].shape());
            assert(full[b as int].shape() == library[b as int].shape());
        }
        assert(table(full, a) =~= table(library, a));
    }
}

/// A copy of the template of id `idx`.
pub fn get(idx: &usize, rooms: &RoomTemplates) -> (template: RoomTemplate)
    requires
        *idx < rooms@.len(),
    ensures
        template@ == rooms@[*idx as int],
{
    rooms.rooms[*idx].clone()
}

} // verus!
