//! The catalogue of room shapes.

use crate::common::XY;
use crate::map::room::DoorsXY;
use crate::map::room::RoomType;
use crate::map::room::doors_view;
use crate::map::room_templates::RoomTemplate;
use crate::map::room_templates::TemplateView;
use std::collections::HashMap;
use vstd::prelude::*;

verus! {

broadcast use vstd::std_specs::hash::group_hash_axioms;

/// Whether `code` is one of the four candidate door codes.
pub open spec fn is_door(code: u8) -> bool {
    2 <= code <= 5
}

/// The position, counted from 1, of the tile of index `i` in a template `w` tiles wide.
pub open spec fn position_of(i: int, w: int) -> XY {
    ((i % w + 1) as i32, (i / w + 1) as i32)
}

/// The positions of the tiles of code `door` among the first `n` tiles, read
/// left to right, top to bottom.
pub open spec fn door_positions(tiles: Seq<u8>, w: int, door: u8, n: nat) -> Seq<XY>
    decreases n,
{
    if n == 0 {
        Seq::empty()
    } else {
        let before = door_positions(tiles, w, door, (n - 1) as nat);
        if tiles[n - 1] == door {
            before.push(position_of(n - 1, w))
        } else {
            before
        }
    }
}

/// The candidate doors of a tile buffer: under each door code that occurs, the
/// positions at which it occurs.
pub open spec fn scanned_doors(tiles: Seq<u8>, w: int) -> Map<u8, Seq<XY>> {
    Map::new(
        |door: u8| is_door(door) && door_positions(tiles, w, door, tiles.len()).len() > 0,
        |door: u8| door_positions(tiles, w, door, tiles.len()),
    )
}

/// Every position that `door_positions` lists is the position of a tile of that code.
pub proof fn lemma_door_positions(tiles: Seq<u8>, w: int, door: u8, n: nat, j: int)
    requires
        n <= tiles.len(),
        0 <= j < door_positions(tiles, w, door, n).len(),
    ensures
        exists|i: int|
            0 <= i < n && tiles[i] == door && #[trigger] position_of(i, w) == door_positions(
                tiles,
                w,
                door,
                n,
            )[j],
    decreases n,
{
    if n > 0 {
        let before = door_positions(tiles, w, door, (n - 1) as nat);
        if j < before.len() {
            lemma_door_positions(tiles, w, door, (n - 1) as nat, j);
        } else {
            assert(position_of(n - 1, w) == door_positions(tiles, w, door, n)[j]);
        }
    }
}

/// The positions of the tiles of code `door`, in reading order.
fn doors_of_type(tiles: &Vec<u8>, width: i32, door: u8) -> (found: Vec<XY>)
    requires
        width > 0,
        tiles.len() <= i32::MAX,
    ensures
        found@ == door_positions(tiles@, width as int, door, tiles@.len()),
{
    let mut found: Vec<XY> = Vec::new();
    let w: usize = width as usize;
    let mut i: usize = 0;
    while i < tiles.len()
        invariant
            i <= tiles.len() <= i32::MAX,
            w == width > 0,
            found@ == door_positions(tiles@, width as int, door, i as nat),
        decreases tiles.len() - i,
    {
        if tiles[i] == door {
            let x: i32 = (i % w + 1) as i32;
            let y: i32 = (i / w + 1) as i32;
            found.push((x, y));
        }
        i += 1;
    }
    found
}

/// Scans a tile buffer and groups the positions of its candidate doors by door code.
pub fn calculate_doors_xy(tiles: &Vec<u8>, width: i32) -> (doors: DoorsXY)
    requires
        width > 0,
        tiles.len() <= i32::MAX,
    ensures
        doors_view(doors) == scanned_doors(tiles@, width as int),
{
    let mut doors_xy: DoorsXY = HashMap::new();
    let mut door: u8 = 2;
    while door <= 5
        invariant
            2 <= door <= 6,
            width > 0,
            tiles.len() <= i32::MAX,
            forall|d: u8|
                doors_xy@.contains_key(d) <==> 2 <= d < door && door_positions(
                    tiles@,
                    width as int,
                    d,
                    tiles@.len(),
                ).len() > 0,
            forall|d: u8|
                doors_xy@.contains_key(d) ==> (#[trigger] doors_xy@[d])@ == door_positions(
                    tiles@,
                    width as int,
                    d,
                    tiles@.len(),
                ),
        decreases 6 - door,
    {
        let found = doors_of_type(tiles, width, door);
        if found.len() > 0 {
            doors_xy.insert(door, found);
        }
        door += 1;
    }
    assert(doors_view(doors_xy) =~= scanned_doors(tiles@, width as int));
    doors_xy
}

/// Whether the neighbour of index `j` lets a door open onto it: it lies outside
/// the buffer, or it is empty.
pub open spec fn is_open(tiles: Seq<u8>, j: int) -> bool {
    !(0 <= j < tiles.len()) || tiles[j] == 0
}

/// The code of the tile of index `i` once its door, if it is one, has been given
/// a direction: a tile authored as 2 becomes the door of the first side, tried
/// in the order north, south, west, east, on which it borders the outside, and
/// 9 where it borders the outside on none. Any other tile keeps its code.
pub open spec fn directed_tile(tiles: Seq<u8>, w: int, i: int) -> u8 {
    if tiles[i] != 2 {
        tiles[i]
    } else if is_open(tiles, i - w) {
        2
    } else if is_open(tiles, i + w) {
        4
    } else if i % w == 0 || is_open(tiles, i - 1) {
        5
    } else if (i + 1) % w == 0 || is_open(tiles, i + 1) {
        3
    } else {
        9
    }
}

/// A tile buffer with every door given its direction.
pub open spec fn directed_tiles(tiles: Seq<u8>, w: int) -> Seq<u8> {
    Seq::new(tiles.len(), |i: int| directed_tile(tiles, w, i))
}

/// Whether `idx` is an index into `arr`.
pub fn in_range<T>(arr: &Vec<T>, idx: i32) -> (inside: bool)
    ensures
        inside == (0 <= idx < arr.len()),
{
    idx >= 0 && (idx as usize) < arr.len()
}

/// Whether a door can open onto the neighbour of index `j`.
fn neighbour_is_open(tiles: &Vec<u8>, j: i64) -> (open: bool)
    requires
        tiles.len() <= i32::MAX,
    ensures
        open == is_open(tiles@, j as int),
{
    if j < -0x8000_0000 || j > 0x7fff_ffff {
        true
    } else {
        !in_range(tiles, j as i32) || tiles[j as usize] == 0
    }
}

/// Gives every door of an authored layout its direction.
pub fn calculate_door_tiles(tiles: Vec<u8>, width: i32) -> (directed: Vec<u8>)
    requires
        width > 0,
        tiles.len() <= i32::MAX,
    ensures
        directed@ == directed_tiles(tiles@, width as int),
{
    let mut tiles_with_doors: Vec<u8> = Vec::new();
    let w: i64 = width as i64;
    let mut i: usize = 0;
    while i < tiles.len()
        invariant
            i <= tiles.len() <= i32::MAX,
            w == width > 0,
            tiles_with_doors@ == Seq::new(
                i as nat,
                |k: int| directed_tile(tiles@, width as int, k),
            ),
        decreases tiles.len() - i,
    {
        let at: i64 = i as i64;
        let tile: u8 = tiles[i];
        let directed: u8 = if tile != 2 {
            tile
        } else if neighbour_is_open(&tiles, at - w) {
            2
        } else if neighbour_is_open(&tiles, at + w) {
            4
        } else if at % w == 0 || neighbour_is_open(&tiles, at - 1) {
            5
        } else if (at + 1) % w == 0 || neighbour_is_open(&tiles, at + 1) {
            3
        } else {
            9
        };
        tiles_with_doors.push(directed);
        i += 1;
        assert(tiles_with_doors@ =~= Seq::new(
            i as nat,
            |k: int| directed_tile(tiles@, width as int, k),
        ));
    }
    tiles_with_doors
}

impl TemplateView {
    /// A template's own shape is sound: its buffer fills its rectangle, and its
    /// candidate doors are the door tiles of its buffer.
    pub open spec fn wf(self) -> bool {
        &&& 0 < self.w
        &&& 0 < self.h
        &&& self.tiles.len() == self.w * self.h
        &&& self.tiles.len() <= i32::MAX
        &&& self.min_doors >= 0
        &&& self.doors == scanned_doors(self.tiles, self.w)
    }
}

/// The template that an authored layout `w` tiles wide stands for, before any
/// combination has been computed for it.
pub open spec fn authored(layout: Seq<u8>, w: int, min_doors: int, room_type: RoomType) -> TemplateView {
    TemplateView {
        h: (layout.len() as int) / w,
        w,
        min_doors,
        doors: scanned_doors(directed_tiles(layout, w), w),
        room_type,
        tiles: directed_tiles(layout, w),
        combinations: Map::empty(),
    }
}

/// Whether row `r` of a buffer of `w` by `h` tiles holds interior floor in
/// column `c` or in the column after it.
pub open spec fn floor_beside(tiles: Seq<u8>, w: int, h: int, c: int, r: int) -> bool {
    0 <= r < h && (tiles[r * w + c] == 8 || tiles[r * w + c + 1] == 8)
}

/// Whether column `c` or the column after it holds interior floor.
pub open spec fn floor_near(tiles: Seq<u8>, w: int, h: int, c: int) -> bool {
    exists|r: int| #[trigger] floor_beside(tiles, w, h, c, r)
}

/// Whether the buffer has two columns at least, and of any two neighbouring
/// columns one holds interior floor.
pub open spec fn floored(tiles: Seq<u8>, w: int, h: int) -> bool {
    w >= 2 && forall|c: int| 0 <= c < w - 1 ==> #[trigger] floor_near(tiles, w, h, c)
}

/// Whether no tile of the buffer is marked as a connected door.
pub open spec fn unmarked(tiles: Seq<u8>) -> bool {
    forall|k: int| 0 <= k < tiles.len() ==> #[trigger] tiles[k] != 7
}

impl TemplateView {
    /// Whether no door of the template is marked as connected.
    pub open spec fn unmarked(self) -> bool {
        unmarked(self.tiles)
    }

    /// Whether, of any two neighbouring columns of the template, one holds
    /// interior floor. A room of such a template cannot lie across a side of the
    /// map without floor on the map's edge.
    pub open spec fn floored(self) -> bool {
        floored(self.tiles, self.w, self.h)
    }
}

/// A template without combinations: the given tiles, and the doors among them.
pub open spec fn blank_template(
    tiles: Seq<u8>,
    w: int,
    h: int,
    min_doors: int,
    room_type: RoomType,
) -> TemplateView {
    TemplateView {
        h,
        w,
        min_doors,
        doors: scanned_doors(tiles, w),
        room_type,
        tiles,
        combinations: Map::empty(),
    }
}

/// Builds a template from an authored layout, in which every door is written as 2.
fn from_layout(layout: Vec<u8>, width: i32, min_doors: u32, room_type: RoomType) -> (template:
    RoomTemplate)
    requires
        width > 0,
        layout.len() <= i32::MAX,
    ensures
        template@ == authored(layout@, width as int, min_doors as int, room_type),
{
    let tiles = calculate_door_tiles(layout, width);
    let doors_xy = calculate_doors_xy(&tiles, width);
    let template = RoomTemplate {
        h: (tiles.len() / (width as usize)) as i32,
        w: width,
        min_doors,
        possible_doors_xy: doors_xy,
        room_type,
        tiles,
        valid_combinations: HashMap::new(),
    };
    assert(template@.combinations =~= Map::empty());
    template
}

/// The tiles of `small_square`, row by row.
pub open spec fn small_square_tiles() -> Seq<u8> {
    seq![
        1u8, 2, 2, 2, 1,
        5, 8, 8, 8, 3,
        5, 8, 8, 8, 3,
        5, 8, 8, 8, 3,
        1, 4, 4, 4, 1,
    ]
}

/// A square room, five tiles on a side.
pub fn small_square() -> (template: RoomTemplate)
    ensures
        template@ == blank_template(small_square_tiles(), 5, 5, 0, RoomType::Normal),
        template@.wf(),
{
    let layout: Vec<u8> = vec![
        1, 2, 2, 2, 1,
        2, 8, 8, 8, 2,
        2, 8, 8, 8, 2,
        2, 8, 8, 8, 2,
        1, 2, 2, 2, 1,
    ];
    assert(layout@.len() == 25);
    let template = from_layout(layout, 5, 0, RoomType::Normal);
    assert(template@.tiles =~= small_square_tiles());
    template
}

/// The tiles of `rectangle`, row by row.
pub open spec fn rectangle_tiles() -> Seq<u8> {
    seq![
        1u8, 2, 2, 2, 2, 1,
        5, 8, 8, 8, 8, 3,
        5, 8, 8, 8, 8, 3,
        5, 8, 8, 8, 8, 3,
        1, 4, 4, 4, 4, 1,
    ]
}

/// A room six tiles wide and five tall.
pub fn rectangle() -> (template: RoomTemplate)
    ensures
        template@ == blank_template(rectangle_tiles(), 6, 5, 0, RoomType::Normal),
        template@.wf(),
{
    let layout: Vec<u8> = vec![
        1, 2, 2, 2, 2, 1,
        2, 8, 8, 8, 8, 2,
        2, 8, 8, 8, 8, 2,
        2, 8, 8, 8, 8, 2,
        1, 2, 2, 2, 2, 1,
    ];
    assert(layout@.len() == 30);
    let template = from_layout(layout, 6, 0, RoomType::Normal);
    assert(template@.tiles =~= rectangle_tiles());
    template
}

/// The tiles of `big_square`, row by row.
pub open spec fn big_square_tiles() -> Seq<u8> {
    seq![
        1u8, 2, 2, 2, 1,
        5, 8, 8, 8, 3,
        5, 8, 8, 8, 3,
        5, 8, 8, 8, 3,
        5, 8, 8, 8, 3,
        1, 4, 4, 4, 1,
    ]
}

/// A room five tiles wide and six tall.
pub fn big_square() -> (template: RoomTemplate)
    ensures
        template@ == blank_template(big_square_tiles(), 5, 6, 0, RoomType::Normal),
        template@.wf(),
{
    let layout: Vec<u8> = vec![
        1, 2, 2, 2, 1,
        2, 8, 8, 8, 2,
        2, 8, 8, 8, 2,
        2, 8, 8, 8, 2,
        2, 8, 8, 8, 2,
        1, 2, 2, 2, 1,
    ];
    assert(layout@.len() == 30);
    let template = from_layout(layout, 5, 0, RoomType::Normal);
    assert(template@.tiles =~= big_square_tiles());
    template
}

/// The tiles of `bent_l`, row by row.
pub open spec fn bent_l_tiles() -> Seq<u8> {
    seq![
        1u8, 2, 2, 2, 1, 0,
        5, 8, 8, 8, 3, 0,
        5, 8, 8, 8, 3, 0,
        1, 1, 8, 8, 1, 1,
        0, 5, 8, 8, 8, 3,
        0, 5, 8, 8, 8, 3,
        0, 1, 4, 4, 4, 1,
    ]
}

/// Two offset chambers, the upper one to the left.
pub fn bent_l() -> (template: RoomTemplate)
    ensures
        template@ == blank_template(bent_l_tiles(), 6, 7, 0, RoomType::Normal),
        template@.wf(),
{
    let layout: Vec<u8> = vec![
        1, 2, 2, 2, 1, 0,
        2, 8, 8, 8, 2, 0,
        2, 8, 8, 8, 2, 0,
        1, 1, 8, 8, 1, 1,
        0, 2, 8, 8, 8, 2,
        0, 2, 8, 8, 8, 2,
        0, 1, 2, 2, 2, 1,
    ];
    assert(layout@.len() == 42);
    let template = from_layout(layout, 6, 0, RoomType::Normal);
    assert(template@.tiles =~= bent_l_tiles());
    template
}

/// The tiles of `bent_r`, row by row.
pub open spec fn bent_r_tiles() -> Seq<u8> {
    seq![
        0u8, 1, 2, 2, 2, 1,
        0, 5, 8, 8, 8, 3,
        0, 5, 8, 8, 8, 3,
        1, 1, 8, 8, 1, 1,
        5, 8, 8, 8, 3, 0,
        5, 8, 8, 8, 3, 0,
        1, 4, 4, 4, 1, 0,
    ]
}

/// Two offset chambers, the upper one to the right.
pub fn bent_r() -> (template: RoomTemplate)
    ensures
        template@ == blank_template(bent_r_tiles(), 6, 7, 0, RoomType::Normal),
        template@.wf(),
{
    let layout: Vec<u8> = vec![
        0, 1, 2, 2, 2, 1,
        0, 2, 8, 8, 8, 2,
        0, 2, 8, 8, 8, 2,
        1, 1, 8, 8, 1, 1,
        2, 8, 8, 8, 2, 0,
        2, 8, 8, 8, 2, 0,
        1, 2, 2, 2, 1, 0,
    ];
    assert(layout@.len() == 42);
    let template = from_layout(layout, 6, 0, RoomType::Normal);
    assert(template@.tiles =~= bent_r_tiles());
    template
}

/// The tiles of `l_top_left_shape`, row by row.
pub open spec fn l_top_left_shape_tiles() -> Seq<u8> {
    seq![
        1u8, 2, 2, 2, 2, 2, 1,
        5, 8, 8, 8, 8, 8, 3,
        5, 8, 8, 8, 8, 8, 3,
        1, 4, 4, 1, 8, 8, 3,
        0, 0, 0, 5, 8, 8, 3,
        0, 0, 0, 5, 8, 8, 3,
        0, 0, 0, 1, 4, 4, 1,
    ]
}

/// An L-shaped room that leaves its bottom left corner empty.
pub fn l_top_left_shape() -> (template: RoomTemplate)
    ensures
        template@ == blank_template(l_top_left_shape_tiles(), 7, 7, 0, RoomType::Normal),
        template@.wf(),
{
    let layout: Vec<u8> = vec![
        1, 2, 2, 2, 2, 2, 1,
        2, 8, 8, 8, 8, 8, 2,
        2, 8, 8, 8, 8, 8, 2,
        1, 2, 2, 1, 8, 8, 2,
        0, 0, 0, 2, 8, 8, 2,
        0, 0, 0, 2, 8, 8, 2,
        0, 0, 0, 1, 2, 2, 1,
    ];
    assert(layout@.len() == 49);
    let template = from_layout(layout, 7, 0, RoomType::Normal);
    assert(template@.tiles =~= l_top_left_shape_tiles());
    template
}

/// The tiles of `l_top_right_shape`, row by row.
pub open spec fn l_top_right_shape_tiles() -> Seq<u8> {
    seq![
        1u8, 2, 2, 2, 2, 2, 1,
        5, 8, 8, 8, 8, 8, 3,
        5, 8, 8, 8, 8, 8, 3,
        5, 8, 8, 1, 4, 4, 1,
        5, 8, 8, 3, 0, 0, 0,
        5, 8, 8, 3, 0, 0, 0,
        1, 4, 4, 1, 0, 0, 0,
    ]
}

/// An L-shaped room that leaves its bottom right corner empty.
pub fn l_top_right_shape() -> (template: RoomTemplate)
    ensures
        template@ == blank_template(l_top_right_shape_tiles(), 7, 7, 0, RoomType::Normal),
        template@.wf(),
{
    let layout: Vec<u8> = vec![
        1, 2, 2, 2, 2, 2, 1,
        2, 8, 8, 8, 8, 8, 2,
        2, 8, 8, 8, 8, 8, 2,
        2, 8, 8, 1, 2, 2, 1,
        2, 8, 8, 2, 0, 0, 0,
        2, 8, 8, 2, 0, 0, 0,
        1, 2, 2, 1, 0, 0, 0,
    ];
    assert(layout@.len() == 49);
    let template = from_layout(layout, 7, 0, RoomType::Normal);
    assert(template@.tiles =~= l_top_right_shape_tiles());
    template
}

/// The tiles of `l_bottom_right_shape`, row by row.
pub open spec fn l_bottom_right_shape_tiles() -> Seq<u8> {
    seq![
        1u8, 2, 2, 1, 0, 0, 0,
        5, 8, 8, 3, 0, 0, 0,
        5, 8, 8, 3, 0, 0, 0,
        5, 8, 8, 1, 2, 2, 1,
        5, 8, 8, 8, 8, 8, 3,
        5, 8, 8, 8, 8, 8, 3,
        1, 4, 4, 4, 4, 4, 1,
    ]
}

/// An L-shaped room that leaves its top right corner empty.
pub fn l_bottom_right_shape() -> (template: RoomTemplate)
    ensures
        template@ == blank_template(l_bottom_right_shape_tiles(), 7, 7, 0, RoomType::Normal),
        template@.wf(),
{
    let layout: Vec<u8> = vec![
        1, 2, 2, 1, 0, 0, 0,
        2, 8, 8, 2, 0, 0, 0,
        2, 8, 8, 2, 0, 0, 0,
        2, 8, 8, 1, 2, 2, 1,
        2, 8, 8, 8, 8, 8, 2,
        2, 8, 8, 8, 8, 8, 2,
        1, 2, 2, 2, 2, 2, 1,
    ];
    assert(layout@.len() == 49);
    let template = from_layout(layout, 7, 0, RoomType::Normal);
    assert(template@.tiles =~= l_bottom_right_shape_tiles());
    template
}

/// The tiles of `l_bottom_left_shape`, row by row.
pub open spec fn l_bottom_left_shape_tiles() -> Seq<u8> {
    seq![
        0u8, 0, 0, 1, 2, 2, 1,
        0, 0, 0, 5, 8, 8, 3,
        0, 0, 0, 5, 8, 8, 3,
        1, 2, 2, 1, 8, 8, 3,
        5, 8, 8, 8, 8, 8, 3,
        5, 8, 8, 8, 8, 8, 3,
        1, 4, 4, 4, 4, 4, 1,
    ]
}

/// An L-shaped room that leaves its top left corner empty.
pub fn l_bottom_left_shape() -> (template: RoomTemplate)
    ensures
        template@ == blank_template(l_bottom_left_shape_tiles(), 7, 7, 0, RoomType::Normal),
        template@.wf(),
{
    let layout: Vec<u8> = vec![
        0, 0, 0, 1, 2, 2, 1,
        0, 0, 0, 2, 8, 8, 2,
        0, 0, 0, 2, 8, 8, 2,
        1, 2, 2, 1, 8, 8, 2,
        2, 8, 8, 8, 8, 8, 2,
        2, 8, 8, 8, 8, 8, 2,
        1, 2, 2, 2, 2, 2, 1,
    ];
    assert(layout@.len() == 49);
    let template = from_layout(layout, 7, 0, RoomType::Normal);
    assert(template@.tiles =~= l_bottom_left_shape_tiles());
    template
}

/// The tiles of `long_shape`, row by row.
pub open spec fn long_shape_tiles() -> Seq<u8> {
    seq![
        1u8, 2, 2, 2, 2, 2, 2, 2, 1,
        5, 8, 8, 8, 8, 8, 8, 8, 3,
        5, 8, 8, 8, 8, 8, 8, 8, 3,
        5, 8, 8, 8, 8, 8, 8, 8, 3,
        1, 4, 4, 4, 4, 4, 4, 4, 1,
    ]
}

/// A corridor-like room nine tiles wide and five tall.
pub fn long_shape() -> (template: RoomTemplate)
    ensures
        template@ == blank_template(long_shape_tiles(), 9, 5, 0, RoomType::Normal),
        template@.wf(),
{
    let layout: Vec<u8> = vec![
        1, 2, 2, 2, 2, 2, 2, 2, 1,
        2, 8, 8, 8, 8, 8, 8, 8, 2,
        2, 8, 8, 8, 8, 8, 8, 8, 2,
        2, 8, 8, 8, 8, 8, 8, 8, 2,
        1, 2, 2, 2, 2, 2, 2, 2, 1,
    ];
    assert(layout@.len() == 45);
    let template = from_layout(layout, 9, 0, RoomType::Normal);
    assert(template@.tiles =~= long_shape_tiles());
    template
}

/// The tiles of `cross`, row by row.
pub open spec fn cross_tiles() -> Seq<u8> {
    seq![
        0u8, 1, 2, 1, 0,
        1, 1, 8, 1, 1,
        5, 8, 8, 8, 3,
        1, 1, 8, 1, 1,
        0, 1, 4, 1, 0,
    ]
}

/// A small cross with one door at the end of each arm.
pub fn cross() -> (template: RoomTemplate)
    ensures
        template@ == blank_template(cross_tiles(), 5, 5, 2, RoomType::Normal),
        template@.wf(),
{
    let layout: Vec<u8> = vec![
        0, 1, 2, 1, 0,
        1, 1, 8, 1, 1,
        2, 8, 8, 8, 2,
        1, 1, 8, 1, 1,
        0, 1, 2, 1, 0,
    ];
    assert(layout@.len() == 25);
    let template = from_layout(layout, 5, 2, RoomType::Normal);
    assert(template@.tiles =~= cross_tiles());
    template
}

/// The tiles of `tall`, row by row.
pub open spec fn tall_tiles() -> Seq<u8> {
    seq![
        1u8, 2, 2, 2, 1,
        5, 8, 8, 8, 3,
        5, 8, 8, 8, 3,
        5, 8, 8, 8, 3,
        5, 8, 8, 8, 3,
        5, 8, 8, 8, 3,
        5, 8, 8, 8, 3,
        5, 8, 8, 8, 3,
        1, 4, 4, 4, 1,
    ]
}

/// A room five tiles wide and nine tall.
pub fn tall() -> (template: RoomTemplate)
    ensures
        template@ == blank_template(tall_tiles(), 5, 9, 0, RoomType::Normal),
        template@.wf(),
{
    let layout: Vec<u8> = vec![
        1, 2, 2, 2, 1,
        2, 8, 8, 8, 2,
        2, 8, 8, 8, 2,
        2, 8, 8, 8, 2,
        2, 8, 8, 8, 2,
        2, 8, 8, 8, 2,
        2, 8, 8, 8, 2,
        2, 8, 8, 8, 2,
        1, 2, 2, 2, 1,
    ];
    assert(layout@.len() == 45);
    let template = from_layout(layout, 5, 0, RoomType::Normal);
    assert(template@.tiles =~= tall_tiles());
    template
}

/// The tiles of `wide`, row by row.
pub open spec fn wide_tiles() -> Seq<u8> {
    seq![
        1u8, 2, 2, 2, 2, 2, 2, 2, 2, 2, 1,
        5, 8, 8, 8, 8, 8, 8, 8, 8, 8, 3,
        5, 8, 8, 8, 8, 8, 8, 8, 8, 8, 3,
        1, 4, 4, 4, 4, 4, 4, 4, 4, 4, 1,
    ]
}

/// A room eleven tiles wide and four tall.
pub fn wide() -> (template: RoomTemplate)
    ensures
        template@ == blank_template(wide_tiles(), 11, 4, 0, RoomType::Normal),
        template@.wf(),
{
    let layout: Vec<u8> = vec![
        1, 2, 2, 2, 2, 2, 2, 2, 2, 2, 1,
        2, 8, 8, 8, 8, 8, 8, 8, 8, 8, 2,
        2, 8, 8, 8, 8, 8, 8, 8, 8, 8, 2,
        1, 2, 2, 2, 2, 2, 2, 2, 2, 2, 1,
    ];
    assert(layout@.len() == 44);
    let template = from_layout(layout, 11, 0, RoomType::Normal);
    assert(template@.tiles =~= wide_tiles());
    template
}

/// The tiles of `jar`, row by row.
pub open spec fn jar_tiles() -> Seq<u8> {
    seq![
        0u8, 1, 1, 2, 1, 1, 0,
        0, 1, 8, 8, 8, 1, 0,
        0, 1, 8, 8, 8, 1, 0,
        0, 1, 8, 8, 8, 1, 0,
        1, 1, 8, 8, 8, 1, 1,
        5, 8, 8, 8, 8, 8, 3,
        1, 1, 8, 8, 8, 1, 1,
        0, 1, 8, 8, 8, 1, 0,
        0, 1, 8, 8, 8, 1, 0,
        0, 1, 8, 8, 8, 1, 0,
        0, 1, 1, 4, 1, 1, 0,
    ]
}

/// A tall room with a door at the top, at the bottom and at each end of its waist.
pub fn jar() -> (template: RoomTemplate)
    ensures
        template@ == blank_template(jar_tiles(), 7, 11, 2, RoomType::Normal),
        template@.wf(),
{
    let layout: Vec<u8> = vec![
        0, 1, 1, 2, 1, 1, 0,
        0, 1, 8, 8, 8, 1, 0,
        0, 1, 8, 8, 8, 1, 0,
        0, 1, 8, 8, 8, 1, 0,
        1, 1, 8, 8, 8, 1, 1,
        2, 8, 8, 8, 8, 8, 2,
        1, 1, 8, 8, 8, 1, 1,
        0, 1, 8, 8, 8, 1, 0,
        0, 1, 8, 8, 8, 1, 0,
        0, 1, 8, 8, 8, 1, 0,
        0, 1, 1, 2, 1, 1, 0,
    ];
    assert(layout@.len() == 77);
    let template = from_layout(layout, 7, 2, RoomType::Normal);
    assert(template@.tiles =~= jar_tiles());
    template
}

/// The tiles of `start_room`, row by row.
pub open spec fn start_room_tiles() -> Seq<u8> {
    seq![
        0u8, 1, 2, 1, 2, 1, 2, 1, 0,
        0, 5, 8, 8, 8, 8, 8, 3, 0,
        1, 1, 1, 8, 8, 8, 1, 1, 1,
        5, 8, 8, 8, 8, 8, 8, 8, 3,
        1, 1, 4, 1, 1, 1, 4, 1, 1,
    ]
}

/// The room in which a level starts.
pub fn start_room() -> (template: RoomTemplate)
    ensures
        template@ == blank_template(start_room_tiles(), 9, 5, 0, RoomType::Start),
        template@.wf(),
{
    let layout: Vec<u8> = vec![
        0, 1, 2, 1, 2, 1, 2, 1, 0,
        0, 2, 8, 8, 8, 8, 8, 2, 0,
        1, 1, 1, 8, 8, 8, 1, 1, 1,
        2, 8, 8, 8, 8, 8, 8, 8, 2,
        1, 1, 2, 1, 1, 1, 2, 1, 1,
    ];
    assert(layout@.len() == 45);
    let template = from_layout(layout, 9, 0, RoomType::Start);
    assert(template@.tiles =~= start_room_tiles());
    template
}

/// The tiles of `boss_room`, row by row.
pub open spec fn boss_room_tiles() -> Seq<u8> {
    seq![
        0u8, 1, 2, 1, 2, 1, 2, 1, 0,
        1, 1, 8, 1, 8, 1, 8, 1, 1,
        5, 8, 8, 8, 8, 8, 8, 8, 3,
        1, 1, 8, 8, 8, 8, 8, 1, 1,
        5, 8, 8, 8, 8, 8, 8, 8, 3,
        1, 4, 4, 1, 1, 1, 4, 4, 1,
    ]
}

/// The room that holds the boss of a level.
pub fn boss_room() -> (template: RoomTemplate)
    ensures
        template@ == blank_template(boss_room_tiles(), 9, 6, 0, RoomType::Boss),
        template@.wf(),
{
    let layout: Vec<u8> = vec![
        0, 1, 2, 1, 2, 1, 2, 1, 0,
        1, 1, 8, 1, 8, 1, 8, 1, 1,
        2, 8, 8, 8, 8, 8, 8, 8, 2,
        1, 1, 8, 8, 8, 8, 8, 1, 1,
        2, 8, 8, 8, 8, 8, 8, 8, 2,
        1, 2, 2, 1, 1, 1, 2, 2, 1,
    ];
    assert(layout@.len() == 54);
    let template = from_layout(layout, 9, 0, RoomType::Boss);
    assert(template@.tiles =~= boss_room_tiles());
    template
}

/// Of any two neighbouring columns of `small_square`, one holds interior floor, and
/// none of its doors is marked as connected.
pub proof fn lemma_small_square_floored()
    ensures
        floored(small_square_tiles(), 5, 5),
        unmarked(small_square_tiles()),
{
    let tiles = small_square_tiles();
    assert forall|c: int| 0 <= c < 4 implies #[trigger] floor_near(tiles, 5, 5, c) by {
        if c == 0 {
            assert(floor_beside(tiles, 5, 5, 0, 1));
        } else if c == 1 {
            assert(floor_beside(tiles, 5, 5, 1, 1));
        } else if c == 2 {
            assert(floor_beside(tiles, 5, 5, 2, 1));
        } else if c == 3 {
            assert(floor_beside(tiles, 5, 5, 3, 1));
        }
    }
}

/// Of any two neighbouring columns of `rectangle`, one holds interior floor, and
/// none of its doors is marked as connected.
pub proof fn lemma_rectangle_floored()
    ensures
        floored(rectangle_tiles(), 6, 5),
        unmarked(rectangle_tiles()),
{
    let tiles = rectangle_tiles();
    assert forall|c: int| 0 <= c < 5 implies #[trigger] floor_near(tiles, 6, 5, c) by {
        if c == 0 {
            assert(floor_beside(tiles, 6, 5, 0, 1));
        } else if c == 1 {
            assert(floor_beside(tiles, 6, 5, 1, 1));
        } else if c == 2 {
            assert(floor_beside(tiles, 6, 5, 2, 1));
        } else if c == 3 {
            assert(floor_beside(tiles, 6, 5, 3, 1));
        } else if c == 4 {
            assert(floor_beside(tiles, 6, 5, 4, 1));
        }
    }
}

/// Of any two neighbouring columns of `big_square`, one holds interior floor, and
/// none of its doors is marked as connected.
pub proof fn lemma_big_square_floored()
    ensures
        floored(big_square_tiles(), 5, 6),
        unmarked(big_square_tiles()),
{
    let tiles = big_square_tiles();
    assert forall|c: int| 0 <= c < 4 implies #[trigger] floor_near(tiles, 5, 6, c) by {
        if c == 0 {
            assert(floor_beside(tiles, 5, 6, 0, 1));
        } else if c == 1 {
            assert(floor_beside(tiles, 5, 6, 1, 1));
        } else if c == 2 {
            assert(floor_beside(tiles, 5, 6, 2, 1));
        } else if c == 3 {
            assert(floor_beside(tiles, 5, 6, 3, 1));
        }
    }
}

/// Of any two neighbouring columns of `bent_l`, one holds interior floor, and
/// none of its doors is marked as connected.
pub proof fn lemma_bent_l_floored()
    ensures
        floored(bent_l_tiles(), 6, 7),
        unmarked(bent_l_tiles()),
{
    let tiles = bent_l_tiles();
    assert forall|c: int| 0 <= c < 5 implies #[trigger] floor_near(tiles, 6, 7, c) by {
        if c == 0 {
            assert(floor_beside(tiles, 6, 7, 0, 1));
        } else if c == 1 {
            assert(floor_beside(tiles, 6, 7, 1, 1));
        } else if c == 2 {
            assert(floor_beside(tiles, 6, 7, 2, 1));
        } else if c == 3 {
            assert(floor_beside(tiles, 6, 7, 3, 1));
        } else if c == 4 {
            assert(floor_beside(tiles, 6, 7, 4, 4));
        }
    }
}

/// Of any two neighbouring columns of `bent_r`, one holds interior floor, and
/// none of its doors is marked as connected.
pub proof fn lemma_bent_r_floored()
    ensures
        floored(bent_r_tiles(), 6, 7),
        unmarked(bent_r_tiles()),
{
    let tiles = bent_r_tiles();
    assert forall|c: int| 0 <= c < 5 implies #[trigger] floor_near(tiles, 6, 7, c) by {
        if c == 0 {
            assert(floor_beside(tiles, 6, 7, 0, 4));
        } else if c == 1 {
            assert(floor_beside(tiles, 6, 7, 1, 1));
        } else if c == 2 {
            assert(floor_beside(tiles, 6, 7, 2, 1));
        } else if c == 3 {
            assert(floor_beside(tiles, 6, 7, 3, 1));
        } else if c == 4 {
            assert(floor_beside(tiles, 6, 7, 4, 1));
        }
    }
}

/// Of any two neighbouring columns of `l_top_left_shape`, one holds interior floor, and
/// none of its doors is marked as connected.
pub proof fn lemma_l_top_left_shape_floored()
    ensures
        floored(l_top_left_shape_tiles(), 7, 7),
        unmarked(l_top_left_shape_tiles()),
{
    let tiles = l_top_left_shape_tiles();
    assert forall|c: int| 0 <= c < 6 implies #[trigger] floor_near(tiles, 7, 7, c) by {
        if c == 0 {
            assert(floor_beside(tiles, 7, 7, 0, 1));
        } else if c == 1 {
            assert(floor_beside(tiles, 7, 7, 1, 1));
        } else if c == 2 {
            assert(floor_beside(tiles, 7, 7, 2, 1));
        } else if c == 3 {
            assert(floor_beside(tiles, 7, 7, 3, 1));
        } else if c == 4 {
            assert(floor_beside(tiles, 7, 7, 4, 1));
        } else if c == 5 {
            assert(floor_beside(tiles, 7, 7, 5, 1));
        }
    }
}

/// Of any two neighbouring columns of `l_top_right_shape`, one holds interior floor, and
/// none of its doors is marked as connected.
pub proof fn lemma_l_top_right_shape_floored()
    ensures
        floored(l_top_right_shape_tiles(), 7, 7),
        unmarked(l_top_right_shape_tiles()),
{
    let tiles = l_top_right_shape_tiles();
    assert forall|c: int| 0 <= c < 6 implies #[trigger] floor_near(tiles, 7, 7, c) by {
        if c == 0 {
            assert(floor_beside(tiles, 7, 7, 0, 1));
        } else if c == 1 {
            assert(floor_beside(tiles, 7, 7, 1, 1));
        } else if c == 2 {
            assert(floor_beside(tiles, 7, 7, 2, 1));
        } else if c == 3 {
            assert(floor_beside(tiles, 7, 7, 3, 1));
        } else if c == 4 {
            assert(floor_beside(tiles, 7, 7, 4, 1));
        } else if c == 5 {
            assert(floor_beside(tiles, 7, 7, 5, 1));
        }
    }
}

/// Of any two neighbouring columns of `l_bottom_right_shape`, one holds interior floor, and
/// none of its doors is marked as connected.
pub proof fn lemma_l_bottom_right_shape_floored()
    ensures
        floored(l_bottom_right_shape_tiles(), 7, 7),
        unmarked(l_bottom_right_shape_tiles()),
{
    let tiles = l_bottom_right_shape_tiles();
    assert forall|c: int| 0 <= c < 6 implies #[trigger] floor_near(tiles, 7, 7, c) by {
        if c == 0 {
            assert(floor_beside(tiles, 7, 7, 0, 1));
        } else if c == 1 {
            assert(floor_beside(tiles, 7, 7, 1, 1));
        } else if c == 2 {
            assert(floor_beside(tiles, 7, 7, 2, 1));
        } else if c == 3 {
            assert(floor_beside(tiles, 7, 7, 3, 4));
        } else if c == 4 {
            assert(floor_beside(tiles, 7, 7, 4, 4));
        } else if c == 5 {
            assert(floor_beside(tiles, 7, 7, 5, 4));
        }
    }
}

/// Of any two neighbouring columns of `l_bottom_left_shape`, one holds interior floor, and
/// none of its doors is marked as connected.
pub proof fn lemma_l_bottom_left_shape_floored()
    ensures
        floored(l_bottom_left_shape_tiles(), 7, 7),
        unmarked(l_bottom_left_shape_tiles()),
{
    let tiles = l_bottom_left_shape_tiles();
    assert forall|c: int| 0 <= c < 6 implies #[trigger] floor_near(tiles, 7, 7, c) by {
        if c == 0 {
            assert(floor_beside(tiles, 7, 7, 0, 4));
        } else if c == 1 {
            assert(floor_beside(tiles, 7, 7, 1, 4));
        } else if c == 2 {
            assert(floor_beside(tiles, 7, 7, 2, 4));
        } else if c == 3 {
            assert(floor_beside(tiles, 7, 7, 3, 1));
        } else if c == 4 {
            assert(floor_beside(tiles, 7, 7, 4, 1));
        } else if c == 5 {
            assert(floor_beside(tiles, 7, 7, 5, 1));
        }
    }
}

/// Of any two neighbouring columns of `long_shape`, one holds interior floor, and
/// none of its doors is marked as connected.
pub proof fn lemma_long_shape_floored()
    ensures
        floored(long_shape_tiles(), 9, 5),
        unmarked(long_shape_tiles()),
{
    let tiles = long_shape_tiles();
    assert forall|c: int| 0 <= c < 8 implies #[trigger] floor_near(tiles, 9, 5, c) by {
        if c == 0 {
            assert(floor_beside(tiles, 9, 5, 0, 1));
        } else if c == 1 {
            assert(floor_beside(tiles, 9, 5, 1, 1));
        } else if c == 2 {
            assert(floor_beside(tiles, 9, 5, 2, 1));
        } else if c == 3 {
            assert(floor_beside(tiles, 9, 5, 3, 1));
        } else if c == 4 {
            assert(floor_beside(tiles, 9, 5, 4, 1));
        } else if c == 5 {
            assert(floor_beside(tiles, 9, 5, 5, 1));
        } else if c == 6 {
            assert(floor_beside(tiles, 9, 5, 6, 1));
        } else if c == 7 {
            assert(floor_beside(tiles, 9, 5, 7, 1));
        }
    }
}

/// Of any two neighbouring columns of `cross`, one holds interior floor, and
/// none of its doors is marked as connected.
pub proof fn lemma_cross_floored()
    ensures
        floored(cross_tiles(), 5, 5),
        unmarked(cross_tiles()),
{
    let tiles = cross_tiles();
    assert forall|c: int| 0 <= c < 4 implies #[trigger] floor_near(tiles, 5, 5, c) by {
        if c == 0 {
            assert(floor_beside(tiles, 5, 5, 0, 2));
        } else if c == 1 {
            assert(floor_beside(tiles, 5, 5, 1, 1));
        } else if c == 2 {
            assert(floor_beside(tiles, 5, 5, 2, 1));
        } else if c == 3 {
            assert(floor_beside(tiles, 5, 5, 3, 2));
        }
    }
}

/// Of any two neighbouring columns of `tall`, one holds interior floor, and
/// none of its doors is marked as connected.
pub proof fn lemma_tall_floored()
    ensures
        floored(tall_tiles(), 5, 9),
        unmarked(tall_tiles()),
{
    let tiles = tall_tiles();
    assert forall|c: int| 0 <= c < 4 implies #[trigger] floor_near(tiles, 5, 9, c) by {
        if c == 0 {
            assert(floor_beside(tiles, 5, 9, 0, 1));
        } else if c == 1 {
            assert(floor_beside(tiles, 5, 9, 1, 1));
        } else if c == 2 {
            assert(floor_beside(tiles, 5, 9, 2, 1));
        } else if c == 3 {
            assert(floor_beside(tiles, 5, 9, 3, 1));
        }
    }
}

/// Of any two neighbouring columns of `wide`, one holds interior floor, and
/// none of its doors is marked as connected.
pub proof fn lemma_wide_floored()
    ensures
        floored(wide_tiles(), 11, 4),
        unmarked(wide_tiles()),
{
    let tiles = wide_tiles();
    assert forall|c: int| 0 <= c < 10 implies #[trigger] floor_near(tiles, 11, 4, c) by {
        if c == 0 {
            assert(floor_beside(tiles, 11, 4, 0, 1));
        } else if c == 1 {
            assert(floor_beside(tiles, 11, 4, 1, 1));
        } else if c == 2 {
            assert(floor_beside(tiles, 11, 4, 2, 1));
        } else if c == 3 {
            assert(floor_beside(tiles, 11, 4, 3, 1));
        } else if c == 4 {
            assert(floor_beside(tiles, 11, 4, 4, 1));
        } else if c == 5 {
            assert(floor_beside(tiles, 11, 4, 5, 1));
        } else if c == 6 {
            assert(floor_beside(tiles, 11, 4, 6, 1));
        } else if c == 7 {
            assert(floor_beside(tiles, 11, 4, 7, 1));
        } else if c == 8 {
            assert(floor_beside(tiles, 11, 4, 8, 1));
        } else if c == 9 {
            assert(floor_beside(tiles, 11, 4, 9, 1));
        }
    }
}

/// Of any two neighbouring columns of `jar`, one holds interior floor, and
/// none of its doors is marked as connected.
pub proof fn lemma_jar_floored()
    ensures
        floored(jar_tiles(), 7, 11),
        unmarked(jar_tiles()),
{
    let tiles = jar_tiles();
    assert forall|c: int| 0 <= c < 6 implies #[trigger] floor_near(tiles, 7, 11, c) by {
        if c == 0 {
            assert(floor_beside(tiles, 7, 11, 0, 5));
        } else if c == 1 {
            assert(floor_beside(tiles, 7, 11, 1, 1));
        } else if c == 2 {
            assert(floor_beside(tiles, 7, 11, 2, 1));
        } else if c == 3 {
            assert(floor_beside(tiles, 7, 11, 3, 1));
        } else if c == 4 {
            assert(floor_beside(tiles, 7, 11, 4, 1));
        } else if c == 5 {
            assert(floor_beside(tiles, 7, 11, 5, 5));
        }
    }
}

/// Of any two neighbouring columns of `start_room`, one holds interior floor, and
/// none of its doors is marked as connected.
pub proof fn lemma_start_room_floored()
    ensures
        floored(start_room_tiles(), 9, 5),
        unmarked(start_room_tiles()),
{
    let tiles = start_room_tiles();
    assert forall|c: int| 0 <= c < 8 implies #[trigger] floor_near(tiles, 9, 5, c) by {
        if c == 0 {
            assert(floor_beside(tiles, 9, 5, 0, 3));
        } else if c == 1 {
            assert(floor_beside(tiles, 9, 5, 1, 1));
        } else if c == 2 {
            assert(floor_beside(tiles, 9, 5, 2, 1));
        } else if c == 3 {
            assert(floor_beside(tiles, 9, 5, 3, 1));
        } else if c == 4 {
            assert(floor_beside(tiles, 9, 5, 4, 1));
        } else if c == 5 {
            assert(floor_beside(tiles, 9, 5, 5, 1));
        } else if c == 6 {
            assert(floor_beside(tiles, 9, 5, 6, 1));
        } else if c == 7 {
            assert(floor_beside(tiles, 9, 5, 7, 3));
        }
    }
}

/// Of any two neighbouring columns of `boss_room`, one holds interior floor, and
/// none of its doors is marked as connected.
pub proof fn lemma_boss_room_floored()
    ensures
        floored(boss_room_tiles(), 9, 6),
        unmarked(boss_room_tiles()),
{
    let tiles = boss_room_tiles();
    assert forall|c: int| 0 <= c < 8 implies #[trigger] floor_near(tiles, 9, 6, c) by {
        if c == 0 {
            assert(floor_beside(tiles, 9, 6, 0, 2));
        } else if c == 1 {
            assert(floor_beside(tiles, 9, 6, 1, 1));
        } else if c == 2 {
            assert(floor_beside(tiles, 9, 6, 2, 1));
        } else if c == 3 {
            assert(floor_beside(tiles, 9, 6, 3, 1));
        } else if c == 4 {
            assert(floor_beside(tiles, 9, 6, 4, 1));
        } else if c == 5 {
            assert(floor_beside(tiles, 9, 6, 5, 1));
        } else if c == 6 {
            assert(floor_beside(tiles, 9, 6, 6, 1));
        } else if c == 7 {
            assert(floor_beside(tiles, 9, 6, 7, 2));
        }
    }
}

} // verus!
