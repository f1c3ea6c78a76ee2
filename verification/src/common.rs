//! Coordinates, tile codes and row-major indexing.

use vstd::prelude::*;

verus! {

/// A pair of grid coordinates: column first, then row.
pub type XY = (i32, i32);

// The tile codes, as the consumers of a generated map read them.

/// Tile code of a cell that no room covers.
pub const EMPTY: u8 = 0;

/// Tile code of a wall.
pub const WALL: u8 = 1;

/// Tile code of a candidate door on the north side.
pub const DOOR_NORTH: u8 = 2;

/// Tile code of a candidate door on the east side.
pub const DOOR_EAST: u8 = 3;

/// Tile code of a candidate door on the south side.
pub const DOOR_SOUTH: u8 = 4;

/// Tile code of a candidate door on the west side.
pub const DOOR_WEST: u8 = 5;

/// Tile code of a door that joins two placed rooms.
pub const DOOR_CONNECTED: u8 = 7;

/// Tile code of interior floor.
pub const FLOOR: u8 = 8;

/// Tile code that marks a clash between two rooms.
pub const CONFLICT: u8 = 9;

/// Row-major index of the cell `(x, y)` on a grid `w` cells wide.
pub open spec fn cell_index(x: int, y: int, w: int) -> int {
    y * w + x
}

/// Row-major index of the cell `(x, y)` on a grid `w` cells wide.
pub fn xy_idx(x: i32, y: i32, w: i32) -> (idx: usize)
    requires
        0 <= cell_index(x as int, y as int, w as int) <= usize::MAX,
    ensures
        idx == cell_index(x as int, y as int, w as int),
{
    assert(-0x4000_0000_0000_0000 <= (y as int) * (w as int) <= 0x4000_0000_0000_0000)
        by (nonlinear_arith)
        requires
            -0x8000_0000 <= y <= 0x7fff_ffff,
            -0x8000_0000 <= w <= 0x7fff_ffff,
    ;
    let wide: i64 = (y as i64) * (w as i64) + (x as i64);
    wide as usize
}

/// On a grid `w` cells wide, the index of the cell in row `r` and column `c`
/// gives back the row and the column.
pub proof fn lemma_row_major(r: int, c: int, w: int)
    requires
        0 <= c < w,
    ensures
        (r * w + c) / w == r,
        (r * w + c) % w == c,
{
    vstd::arithmetic::div_mod::lemma_fundamental_div_mod_converse(r * w + c, w, r, c);
}

/// An index splits into its row and its column.
pub proof fn lemma_index_split(k: int, w: int)
    requires
        0 < w,
    ensures
        k == (k / w) * w + k % w,
        0 <= k % w < w,
{
    vstd::arithmetic::div_mod::lemma_fundamental_div_mod(k, w);
    assert(w * (k / w) == (k / w) * w) by (nonlinear_arith);
}

/// An index into a grid of `w` by `h` cells lies in one of its `h` rows.
pub proof fn lemma_index_in_grid(k: int, w: int, h: int)
    requires
        0 < w,
        0 <= k < w * h,
    ensures
        0 <= k / w < h,
        0 <= k % w < w,
        k == (k / w) * w + k % w,
{
    lemma_index_split(k, w);
    let r = k / w;
    assert(0 <= r < h) by (nonlinear_arith)
        requires
            0 < w,
            0 <= k < w * h,
            k == r * w + k % w,
            0 <= k % w < w,
    ;
}

/// The cell in row `r` and column `c` of a grid of `w` by `h` cells has an index
/// into that grid.
pub proof fn lemma_cell_in_grid(r: int, c: int, w: int, h: int)
    requires
        0 <= r < h,
        0 <= c < w,
    ensures
        0 <= r * w + c < w * h,
{
    assert(0 <= r * w + c < w * h) by (nonlinear_arith)
        requires
            0 <= r < h,
            0 <= c < w,
    ;
}

} // verus!
