//! Where the pixels of a frame stand in its tiles.

use crate::container_build::{frame_byte, frame_tile, frame_tiles, grid_fits, tiles_across};
use vstd::prelude::*;

verus! {

/// A frame can be stored exactly where it has pixels, no more than 256 rows and columns of
/// tiles of 512 pixels, and no more than 65533 tiles.
pub proof fn storable_frames_are_counted_in_tiles(width: u32, height: u32)
    ensures
        grid_fits(width, height) <==> {
            &&& 0 < width <= 256 * 512
            &&& 0 < height <= 256 * 512
            &&& ((width + 511) / 512) * ((height + 511) / 512) <= 65533
        },
        tiles_across(width as int) == (width + 511) / 512,
{
}

/// Every pixel of a frame is found where a grid item shows it: the tiles follow each other row
/// by row, 512 pixels a side, and so do the pixels of a tile, three bytes each.
pub proof fn frames_are_cut_as_grids_show_them(
    rgb: Seq<u8>,
    width: int,
    height: int,
    x: int,
    y: int,
    c: int,
)
    requires
        0 <= x < width,
        0 <= y < height,
        0 <= c < 3,
    ensures
        ({
            let cols = (width + 511) / 512;
            let rows = (height + 511) / 512;
            let tiles = frame_tiles(rgb, width, height);
            let i = (y / 512) * cols + x / 512;
            &&& tiles.len() == rows * cols
            &&& 0 <= i < tiles.len()
            &&& tiles[i].len() == 512 * 512 * 3
            &&& tiles[i][((y % 512) * 512 + x % 512) * 3 + c] == rgb[(y * width + x) * 3 + c]
        }),
{
    let cols = (width + 511) / 512;
    let rows = (height + 511) / 512;
    let (row, col) = (y / 512, x / 512);
    let i = row * cols + col;
    let k = ((y % 512) * 512 + x % 512) * 3 + c;
    assert(0 <= i < rows * cols && cols * rows == rows * cols) by (nonlinear_arith)
        requires
            0 <= row < rows,
            0 <= col < cols,
            i == row * cols + col,
    ;
    lemma_div_row(row, cols, col);
    assert(k / 1536 == y % 512 && k % 1536 == (x % 512) * 3 + c);
    assert(y * (3 * width) + (3 * x + c) == (y * width + x) * 3 + c) by (nonlinear_arith);
    let tile = frame_tile(rgb, width, height, row, col);
    assert(frame_tiles(rgb, width, height)[i] == tile);
    assert(tile[k] == frame_byte(rgb, width, height, 3 * x + c, y));
}

/// What a tile has beyond the edges of its frame is black.
pub proof fn tiles_are_black_beyond_the_frame(
    rgb: Seq<u8>,
    width: int,
    height: int,
    row: int,
    col: int,
    x: int,
    y: int,
    c: int,
)
    requires
        0 <= row < (height + 511) / 512,
        0 <= col < (width + 511) / 512,
        0 <= x < 512,
        0 <= y < 512,
        0 <= c < 3,
        width <= col * 512 + x || height <= row * 512 + y,
    ensures
        frame_tiles(rgb, width, height)[row * ((width + 511) / 512) + col][(y * 512 + x) * 3 + c] == 0,
{
    let cols = (width + 511) / 512;
    let rows = (height + 511) / 512;
    let i = row * cols + col;
    let k = (y * 512 + x) * 3 + c;
    assert(0 <= i < rows * cols && cols * rows == rows * cols) by (nonlinear_arith)
        requires
            0 <= row < rows,
            0 <= col < cols,
            i == row * cols + col,
    ;
    lemma_div_row(row, cols, col);
    assert(k / 1536 == y && k % 1536 == x * 3 + c);
    let tile = frame_tile(rgb, width, height, row, col);
    assert(frame_tiles(rgb, width, height)[i] == tile);
    assert(tile[k] == frame_byte(rgb, width, height, 3 * (col * 512 + x) + c, row * 512 + y));
}

/// The row and the column of what stands at a place counted row by row.
pub proof fn lemma_div_row(row: int, cols: int, col: int)
    requires
        0 <= row,
        0 <= col < cols,
    ensures
        (row * cols + col) / cols == row,
        (row * cols + col) % cols == col,
{
    vstd::arithmetic::div_mod::lemma_fundamental_div_mod_converse(
        row * cols + col,
        cols,
        row,
        col,
    );
}

} // verus!
