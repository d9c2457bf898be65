use vstd::prelude::*;

verus! {

use crate::canvas::Board;
use crate::BOARD_HEIGHT;
use crate::BOARD_WIDTH;

/// How many image pixels one canvas cell spans, on each axis.
pub const IMG_SCALE: u32 = 11;

/// The red, green and blue channels packed into a pixel color.
pub open spec fn spec_rgb(color: u32) -> (u8, u8, u8) {
    (((color / 0x10000) % 0x100) as u8, ((color / 0x100) % 0x100) as u8, (color % 0x100) as u8)
}

/// The color channels of the image pixel at `(x, y)` when the board is drawn
/// scaled up by `scale`: each canvas cell becomes a `scale` by `scale` square.
pub fn rgb_at(board: &Board, x: u32, y: u32, scale: u32) -> (rgb: (u8, u8, u8))
    requires
        board.wf_dims(),
        scale > 0,
        x < BOARD_WIDTH * scale,
        y < BOARD_HEIGHT * scale,
    ensures
        rgb == spec_rgb(board.grid()[y as int / scale as int][x as int / scale as int].color),
{
    let row = (y / scale) as usize;
    let col = (x / scale) as usize;
    assert((y as int) / (scale as int) < BOARD_HEIGHT) by (nonlinear_arith)
        requires
            scale > 0,
            y < BOARD_HEIGHT * scale,
    {
    }
    assert((x as int) / (scale as int) < BOARD_WIDTH) by (nonlinear_arith)
        requires
            scale > 0,
            x < BOARD_WIDTH * scale,
    {
    }
    assert(board.pixels@.len() == BOARD_HEIGHT);
    assert(board.grid()[row as int].len() == BOARD_WIDTH);
    assert(board.pixels@[row as int]@.len() == BOARD_WIDTH);
    let color = board.pixels[row][col].color;
    assert(color == board.grid()[y as int / scale as int][x as int / scale as int].color);
    ((color / 0x10000 % 0x100) as u8, (color / 0x100 % 0x100) as u8, (color % 0x100) as u8)
}

} // verus!
