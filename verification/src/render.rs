//! What a renderer of the map needs before it prints: the rows that hold a room.

use vstd::prelude::*;

verus! {

/// Whether row `row` of a grid `width` cells wide holds a tile that is not empty.
pub open spec fn row_in_use(tiles: Seq<u8>, width: int, row: int) -> bool {
    exists|column: int| 0 <= column < width && #[trigger] tiles[row * width + column] != 0
}

/// The first `rows` rows of the grid without the rows that are empty.
pub open spec fn rows_in_use(tiles: Seq<u8>, width: int, rows: nat) -> Seq<u8>
    decreases rows,
{
    if rows == 0 {
        Seq::empty()
    } else {
        let before = rows_in_use(tiles, width, (rows - 1) as nat);
        if row_in_use(tiles, width, rows - 1) {
            before + tiles.subrange((rows - 1) * width, rows * width)
        } else {
            before
        }
    }
}

/// The whole rows of the grid without the rows that are empty.
pub fn crop_rows(tiles: &Vec<u8>, width: i32) -> (cropped: Vec<u8>)
    requires
        width > 0,
    ensures
        cropped@ == rows_in_use(tiles@, width as int, (tiles.len() / (width as usize)) as nat),
{
    let u_width: usize = width as usize;
    let rows: usize = tiles.len() / u_width;
    let mut cropped: Vec<u8> = Vec::new();
    let mut row: usize = 0;
    while row < rows
        invariant
            u_width == width > 0,
            rows == tiles.len() / u_width,
            row <= rows,
            cropped@ == rows_in_use(tiles@, width as int, row as nat),
        decreases rows - row,
    {
        assert((row + 1) * u_width <= tiles.len() && row * u_width + u_width == (row + 1) * u_width)
            by (nonlinear_arith)
            requires
                row < rows,
                rows == tiles.len() / u_width,
                u_width > 0,
        ;
        let first: usize = row * u_width;
        let mut in_use = false;
        let mut column: usize = 0;
        while column < u_width
            invariant
                first == row * u_width,
                first + u_width <= tiles.len(),
                column <= u_width,
                u_width == width,
                in_use <==> exists|c: int|
                    0 <= c < column && #[trigger] tiles@[row * (width as int) + c] != 0,
            decreases u_width - column,
        {
            if tiles[first + column] != 0 {
                in_use = true;
            }
            column += 1;
        }
        if in_use {
            let ghost before = cropped@;
            let mut column: usize = 0;
            while column < u_width
                invariant
                    first == row * u_width,
                    first + u_width <= tiles.len(),
                    column <= u_width,
                    cropped@ == before + tiles@.subrange(first as int, first + column),
                decreases u_width - column,
            {
                cropped.push(tiles[first + column]);
                column += 1;
                assert(cropped@ =~= before + tiles@.subrange(first as int, first + column));
            }
        }
        row += 1;
    }
    cropped
}

} // verus!
