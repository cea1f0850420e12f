//! Row-major boolean grids and the index arithmetic shared by the modules.
use vstd::prelude::*;

verus! {

/// The cell at column `x`, row `y` of a row-major `w`-wide grid; anything
/// outside `[0, w) x [0, h)` reads as dead.
pub open spec fn cell(board: Seq<bool>, w: int, h: int, x: int, y: int) -> bool {
    0 <= x < w && 0 <= y < h && board[y * w + x]
}

/// The flat index of an in-bounds cell lies inside the grid.
pub proof fn lemma_index_in_grid(x: int, y: int, w: int, h: int)
    requires
        0 <= x < w,
        0 <= y < h,
    ensures
        0 <= y * w + x < w * h,
        y * w + x + 1 <= w * h,
{
    assert(0 <= y * w) by (nonlinear_arith)
        requires
            0 <= y,
            0 <= w,
    ;
    assert(y * w + w <= h * w) by (nonlinear_arith)
        requires
            y + 1 <= h,
            0 <= w,
    ;
    assert(h * w == w * h) by (nonlinear_arith);
}

/// Column and row of a flat index are its remainder and quotient by the width.
pub proof fn lemma_index_coords(i: int, x: int, y: int, w: int)
    requires
        0 <= x < w,
        i == y * w + x,
    ensures
        x == i % w,
        y == i / w,
{
    vstd::arithmetic::div_mod::lemma_fundamental_div_mod_converse(i, w, y, x);
}

} // verus!
