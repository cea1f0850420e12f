//! Copying a decoded pattern into the middle of a board.
use vstd::prelude::*;
use crate::grid::{lemma_index_coords, lemma_index_in_grid};

verus! {

/// A pattern cannot be placed on a board without cells.
#[derive(Debug, Clone, Copy, PartialEq, Eq)]
pub enum GeometryError {
    EmptyBoard,
}

/// Offset that centres a `pattern_dim` span inside a `board_dim` span
/// (floor division, negative when the pattern is larger).
pub open spec fn center_offset(board_dim: int, pattern_dim: int) -> int {
    (board_dim - pattern_dim) / 2
}

/// Value of board cell `(x, y)` once the pattern is centred on it: the
/// pattern's cell where the pattern covers `(x, y)`, the old value elsewhere.
pub open spec fn placed_cell(
    board: Seq<bool>,
    bw: int,
    bh: int,
    pattern: Seq<bool>,
    pw: int,
    ph: int,
    x: int,
    y: int,
) -> bool {
    let px = x - center_offset(bw, pw);
    let py = y - center_offset(bh, ph);
    if 0 <= px < pw && 0 <= py < ph {
        pattern[py * pw + px]
    } else {
        board[y * bw + x]
    }
}

/// The whole board once the pattern is centred on it, clipped to the board.
pub open spec fn placed(
    board: Seq<bool>,
    bw: int,
    bh: int,
    pattern: Seq<bool>,
    pw: int,
    ph: int,
) -> Seq<bool> {
    Seq::new(board.len(), |i: int| placed_cell(board, bw, bh, pattern, pw, ph, i % bw, i / bw))
}

/// Cell `(x, y)` of the placed board, by coordinates.
pub proof fn lemma_placed_cell(
    board: Seq<bool>,
    bw: int,
    bh: int,
    pattern: Seq<bool>,
    pw: int,
    ph: int,
    x: int,
    y: int,
)
    requires
        board.len() == bw * bh,
        0 <= x < bw,
        0 <= y < bh,
    ensures
        placed(board, bw, bh, pattern, pw, ph)[y * bw + x] == placed_cell(
            board,
            bw,
            bh,
            pattern,
            pw,
            ph,
            x,
            y,
        ),
{
    lemma_index_in_grid(x, y, bw, bh);
    lemma_index_coords(y * bw + x, x, y, bw);
}

/// `d / 2` rounded towards negative infinity.
fn half_floor(d: i64) -> (r: i64)
    requires
        -0x1_0000_0000 <= d <= 0x1_0000_0000,
    ensures
        r == d as int / 2,
{
    if d >= 0 {
        d / 2
    } else {
        -((1 - d) / 2)
    }
}

/// Centres the pattern on the board, copying only the pattern cells that land
/// inside it. Fails, leaving the board untouched, when the board has no cells.
pub fn place_pattern_centered(
    board_current: &mut [bool],
    board_width: u32,
    board_height: u32,
    pattern_cells: &[bool],
    pattern_width: u32,
    pattern_height: u32,
) -> (r: Result<(), GeometryError>)
    requires
        old(board_current)@.len() == board_width * board_height,
        pattern_cells@.len() == pattern_width * pattern_height,
    ensures
        r is Ok <==> board_width > 0 && board_height > 0,
        r is Ok ==> final(board_current)@ == placed(
            old(board_current)@,
            board_width as int,
            board_height as int,
            pattern_cells@,
            pattern_width as int,
            pattern_height as int,
        ),
        r is Err ==> final(board_current)@ == old(board_current)@,
{
    let bw = board_width;
    let bh = board_height;
    let pw = pattern_width;
    let ph = pattern_height;
    if bw == 0 || bh == 0 {
        return Err(GeometryError::EmptyBoard);
    }
    let ghost old_board = board_current@;
    let ghost target = placed(old_board, bw as int, bh as int, pattern_cells@, pw as int, ph as int);
    let offset_x: i64 = half_floor(bw as i64 - pw as i64);
    let offset_y: i64 = half_floor(bh as i64 - ph as i64);
    let total: usize = board_current.len();
    let plen: usize = pattern_cells.len();
    let mut idx: usize = 0;
    let mut x: u32 = 0;
    let mut y: u32 = 0;
    while idx < total
        invariant
            old_board.len() == total,
            target == placed(old_board, bw as int, bh as int, pattern_cells@, pw as int, ph as int),
            offset_x == center_offset(bw as int, pw as int),
            offset_y == center_offset(bh as int, ph as int),
            total == bw * bh,
            plen == pw * ph,
            pattern_cells@.len() == plen,
            board_current@.len() == total,
            bw > 0,
            x < bw,
            idx == y * bw + x,
            idx <= total,
            forall|i: int| 0 <= i < idx ==> board_current@[i] == target[i],
            forall|i: int| idx <= i < total ==> board_current@[i] == old_board[i],
        decreases total - idx,
    {
        proof {
            if y >= bh {
                assert(y * bw >= bh * bw) by (nonlinear_arith)
                    requires
                        y >= bh,
                        bw > 0,
                ;
                assert(bh * bw == bw * bh) by (nonlinear_arith);
            }
            lemma_placed_cell(old_board, bw as int, bh as int, pattern_cells@, pw as int, ph as int, x as int, y as int);
        }
        let px: i64 = x as i64 - offset_x;
        let py: i64 = y as i64 - offset_y;
        if 0 <= px && px < pw as i64 && 0 <= py && py < ph as i64 {
            proof {
                lemma_index_in_grid(px as int, py as int, pw as int, ph as int);
            }
            let pidx = (py as usize) * (pw as usize) + (px as usize);
            board_current[idx] = pattern_cells[pidx];
        }
        idx = idx + 1;
        if x + 1 == bw {
            x = 0;
            y = y + 1;
            assert(idx == y * bw + x) by (nonlinear_arith)
                requires
                    idx == (y - 1) * bw + bw,
                    x == 0,
            ;
        } else {
            x = x + 1;
        }
    }
    assert(board_current@ =~= target);
    Ok(())
}

} // verus!
