use gol_core::placement::{place_pattern_centered, GeometryError};

fn bools(rows: &[&[u8]]) -> Vec<bool> {
    let mut v = Vec::new();
    for row in rows {
        for &cell in *row {
            v.push(cell != 0);
        }
    }
    v
}

#[test]
fn place_pattern_centered_empty_board() {
    let mut board: Vec<bool> = vec![];
    let pattern = vec![true];
    let res = place_pattern_centered(&mut board, 0, 0, &pattern, 1, 1);
    assert!(res.is_err(), "Expected Err on empty board");
}

#[test]
fn place_pattern_centered_small_odd_pattern_on_odd_board() {
    let board_w = 7_u32;
    let board_h = 5_u32;
    let mut board = vec![false; (board_w * board_h) as usize];
    let pat_w = 3_u32;
    let pat_h = 3_u32;
    let glider = bools(&[&[0, 1, 0], &[0, 0, 1], &[1, 1, 1]]);

    place_pattern_centered(&mut board, board_w, board_h, &glider, pat_w, pat_h).expect("center pattern");

    let expected = vec![
        false, false, false, false, false, false, false, //
        false, false, false, true, false, false, false, //
        false, false, false, false, true, false, false, //
        false, false, true, true, true, false, false, //
        false, false, false, false, false, false, false, //
    ];
    assert_eq!(board, expected);
}

#[test]
fn place_pattern_centered_pattern_bigger_than_board() {
    let board_w = 4;
    let board_h = 4;
    let mut board = vec![false; (board_w * board_h) as usize];
    let pattern = vec![true; 5];
    let res = place_pattern_centered(&mut board, board_w, board_h, &pattern, 5, 1);
    assert!(res.is_ok(), "Expected no Err even if the pattern is wider than the board");
}

#[test]
fn wider_pattern_is_clipped_on_both_sides() {
    // offset x = floor((4 - 5) / 2) = -1, offset y = floor((4 - 1) / 2) = 1
    let mut board = vec![false; 16];
    let pattern = vec![true, false, true, false, true];
    place_pattern_centered(&mut board, 4, 4, &pattern, 5, 1).unwrap();
    let expected = bools(&[&[0, 0, 0, 0], &[0, 1, 0, 1], &[0, 0, 0, 0], &[0, 0, 0, 0]]);
    assert_eq!(board, expected);
}

#[test]
fn placement_keeps_cells_outside_the_pattern() {
    let mut board = vec![true; 9];
    let pattern = vec![false];
    place_pattern_centered(&mut board, 3, 3, &pattern, 1, 1).unwrap();
    let expected = bools(&[&[1, 1, 1], &[1, 0, 1], &[1, 1, 1]]);
    assert_eq!(board, expected);
}

#[test]
fn zero_width_board_is_refused() {
    let mut board: Vec<bool> = vec![];
    let res = place_pattern_centered(&mut board, 0, 5, &[true], 1, 1);
    assert_eq!(res, Err(GeometryError::EmptyBoard));
}

#[test]
fn taller_pattern_is_centred_with_negative_offset() {
    // 1 x 4 pattern on a 1 x 1 board: offset y = floor((1 - 4) / 2) = -2, so row 2 lands.
    let mut board = vec![false; 1];
    let pattern = vec![false, false, true, false];
    place_pattern_centered(&mut board, 1, 1, &pattern, 1, 4).unwrap();
    assert_eq!(board, vec![true]);
}
