//! One generation of the B3/S23 rule on a bounded grid.
use vstd::prelude::*;
use crate::grid::{cell, lemma_index_coords, lemma_index_in_grid};

verus! {

/// 1 for a live cell, 0 for a dead or out-of-bounds one.
pub open spec fn alive_count(board: Seq<bool>, w: int, h: int, x: int, y: int) -> int {
    if cell(board, w, h, x, y) {
        1
    } else {
        0
    }
}

/// Number of live cells among the eight Moore neighbours of `(x, y)`.
pub open spec fn live_neighbors(board: Seq<bool>, w: int, h: int, x: int, y: int) -> int {
    alive_count(board, w, h, x - 1, y - 1) + alive_count(board, w, h, x, y - 1)
        + alive_count(board, w, h, x + 1, y - 1) + alive_count(board, w, h, x - 1, y)
        + alive_count(board, w, h, x + 1, y) + alive_count(board, w, h, x - 1, y + 1)
        + alive_count(board, w, h, x, y + 1) + alive_count(board, w, h, x + 1, y + 1)
}

/// B3/S23: a live cell survives with 2 or 3 live neighbours, a dead one is
/// born with exactly 3.
pub open spec fn next_state(alive: bool, n: int) -> bool {
    n == 3 || (alive && n == 2)
}

/// The board one generation later.
pub open spec fn life_step(board: Seq<bool>, w: int, h: int) -> Seq<bool> {
    Seq::new(
        (w * h) as nat,
        |i: int| next_state(board[i], live_neighbors(board, w, h, i % w, i / w)),
    )
}

/// The board after `n` generations.
pub open spec fn life_steps(board: Seq<bool>, w: int, h: int, n: nat) -> Seq<bool>
    decreases n,
{
    if n == 0 {
        board
    } else {
        life_step(life_steps(board, w, h, (n - 1) as nat), w, h)
    }
}

/// Cell `(x, y)` of the next generation follows the rule applied to the same
/// cell and its neighbours now.
pub proof fn lemma_life_step_cell(board: Seq<bool>, w: int, h: int, x: int, y: int)
    requires
        0 <= x < w,
        0 <= y < h,
    ensures
        life_step(board, w, h)[y * w + x] == next_state(
            board[y * w + x],
            live_neighbors(board, w, h, x, y),
        ),
        life_step(board, w, h).len() == w * h,
{
    lemma_index_in_grid(x, y, w, h);
    lemma_index_coords(y * w + x, x, y, w);
}

/// A live cell without live neighbours is dead one generation later.
pub proof fn lemma_lonely_cell_dies(board: Seq<bool>, w: int, h: int, x: int, y: int)
    requires
        0 <= x < w,
        0 <= y < h,
        live_neighbors(board, w, h, x, y) == 0,
    ensures
        !life_step(board, w, h)[y * w + x],
{
    lemma_life_step_cell(board, w, h, x, y);
}

proof fn lemma_dead_cell(w: int, h: int, x: int, y: int)
    requires
        w >= 0,
        h >= 0,
    ensures
        !cell(Seq::new((w * h) as nat, |i: int| false), w, h, x, y),
{
    if 0 <= x < w && 0 <= y < h {
        lemma_index_in_grid(x, y, w, h);
    }
}

/// A board with no live cell stays that way.
pub proof fn lemma_dead_board_stays_dead(w: int, h: int)
    requires
        w >= 0,
        h >= 0,
    ensures
        life_step(Seq::new((w * h) as nat, |i: int| false), w, h) == Seq::new(
            (w * h) as nat,
            |i: int| false,
        ),
{
    let dead = Seq::new((w * h) as nat, |i: int| false);
    assert forall|i: int| 0 <= i < w * h implies !#[trigger] life_step(dead, w, h)[i] by {
        let x = i % w;
        let y = i / w;
        assert(w > 0) by (nonlinear_arith)
            requires
                0 <= i < w * h,
                h >= 0,
        ;
        lemma_dead_cell(w, h, x - 1, y - 1);
        lemma_dead_cell(w, h, x, y - 1);
        lemma_dead_cell(w, h, x + 1, y - 1);
        lemma_dead_cell(w, h, x - 1, y);
        lemma_dead_cell(w, h, x + 1, y);
        lemma_dead_cell(w, h, x - 1, y + 1);
        lemma_dead_cell(w, h, x, y + 1);
        lemma_dead_cell(w, h, x + 1, y + 1);
    }
    assert(life_step(dead, w, h) =~= dead);
}

/// 1 if `(x, y)` is a live cell of the board, else 0.
fn neighbor_value(board: &[bool], w: u32, h: u32, x: i64, y: i64) -> (r: u8)
    requires
        board@.len() == w * h,
    ensures
        r as int == alive_count(board@, w as int, h as int, x as int, y as int),
{
    if x < 0 || y < 0 || x >= w as i64 || y >= h as i64 {
        return 0;
    }
    let len = board.len();
    proof {
        lemma_index_in_grid(x as int, y as int, w as int, h as int);
    }
    let idx = (y as usize) * (w as usize) + (x as usize);
    if idx < len && board[idx] {
        1
    } else {
        0
    }
}

/// Writes into `board_next` the generation that follows `board_current`.
/// Cells outside the `buffer_width` x `buffer_height` grid count as dead.
pub fn step_life(board_current: &[bool], board_next: &mut [bool], buffer_width: u32, buffer_height: u32)
    requires
        board_current@.len() == buffer_width * buffer_height,
        old(board_next)@.len() == board_current@.len(),
    ensures
        final(board_next)@ == life_step(board_current@, buffer_width as int, buffer_height as int),
{
    let w = buffer_width;
    let h = buffer_height;
    let ghost cur = board_current@;
    let ghost target = life_step(cur, w as int, h as int);
    let total: usize = board_current.len();
    if total == 0 {
        assert(board_next@ =~= target);
        return;
    }
    assert(w > 0 && h > 0) by (nonlinear_arith)
        requires
            total == w * h,
            total != 0,
    ;
    let mut idx: usize = 0;
    let mut x: u32 = 0;
    let mut y: u32 = 0;
    while idx < total
        invariant
            cur == board_current@,
            target == life_step(cur, w as int, h as int),
            total == w * h,
            cur.len() == total,
            board_next@.len() == total,
            w > 0,
            x < w,
            idx == y * w + x,
            idx <= total,
            forall|i: int| 0 <= i < idx ==> board_next@[i] == target[i],
        decreases total - idx,
    {
        proof {
            if y >= h {
                assert(y * w >= h * w) by (nonlinear_arith)
                    requires
                        y >= h,
                        w > 0,
                ;
                assert(h * w == w * h) by (nonlinear_arith);
            }
            lemma_life_step_cell(cur, w as int, h as int, x as int, y as int);
        }
        let xi = x as i64;
        let yi = y as i64;
        let mut n: u8 = 0;
        n = n + neighbor_value(board_current, w, h, xi - 1, yi - 1);
        n = n + neighbor_value(board_current, w, h, xi, yi - 1);
        n = n + neighbor_value(board_current, w, h, xi + 1, yi - 1);
        n = n + neighbor_value(board_current, w, h, xi - 1, yi);
        n = n + neighbor_value(board_current, w, h, xi + 1, yi);
        n = n + neighbor_value(board_current, w, h, xi - 1, yi + 1);
        n = n + neighbor_value(board_current, w, h, xi, yi + 1);
        n = n + neighbor_value(board_current, w, h, xi + 1, yi + 1);
        let alive = board_current[idx];
        board_next[idx] = n == 3 || (alive && n == 2);
        idx = idx + 1;
        if x + 1 == w {
            x = 0;
            y = y + 1;
            assert(idx == y * w + x) by (nonlinear_arith)
                requires
                    idx == (y - 1) * w + w,
                    x == 0,
            ;
        } else {
            x = x + 1;
        }
    }
    assert(board_next@ =~= target);
}

} // verus!
