use gol_core::life::step_life;

fn step(board: &[bool], w: u32, h: u32) -> Vec<bool> {
    let mut next = vec![false; board.len()];
    step_life(board, &mut next, w, h);
    next
}

fn cells_at(w: u32, h: u32, live: &[(u32, u32)]) -> Vec<bool> {
    let mut v = vec![false; (w * h) as usize];
    for &(x, y) in live {
        v[(y * w + x) as usize] = true;
    }
    v
}

#[test]
fn all_dead_board_stays_dead() {
    let board = vec![false; 9];
    assert_eq!(step(&board, 3, 3), vec![false; 9]);
}

#[test]
fn isolated_cell_dies() {
    let board = cells_at(3, 3, &[(1, 1)]);
    assert_eq!(step(&board, 3, 3), vec![false; 9]);
}

#[test]
fn blinker_oscillates() {
    let board = cells_at(5, 5, &[(1, 2), (2, 2), (3, 2)]);
    let next = step(&board, 5, 5);
    assert_eq!(next, cells_at(5, 5, &[(2, 1), (2, 2), (2, 3)]));
    assert_eq!(step(&next, 5, 5), board);
}

#[test]
fn block_is_still() {
    let board = cells_at(4, 4, &[(1, 1), (2, 1), (1, 2), (2, 2)]);
    assert_eq!(step(&board, 4, 4), board);
}

#[test]
fn edges_are_not_wrapped() {
    // A blinker on the left edge loses the cells that would need wraparound.
    let board = cells_at(3, 3, &[(0, 0), (0, 1), (0, 2)]);
    assert_eq!(step(&board, 3, 3), cells_at(3, 3, &[(0, 1), (1, 1)]));
}

#[test]
fn glider_moves_one_cell_diagonally_every_four_steps() {
    let w = 10;
    let h = 10;
    let glider = [(1, 0), (2, 1), (0, 2), (1, 2), (2, 2)];
    let mut board = cells_at(w, h, &glider);
    for _ in 0..4 {
        board = step(&board, w, h);
    }
    let moved: Vec<(u32, u32)> = glider.iter().map(|&(x, y)| (x + 1, y + 1)).collect();
    assert_eq!(board, cells_at(w, h, &moved));
}
