use gol_core::session::{LoadError, ResizeAction, ResizePolicy, Session};
use gol_core::rle::RleError;

const GLIDER: &str = "x = 3, y = 3\nbob$2bo$3o!";

#[test]
fn load_places_pattern_in_the_middle() {
    let mut s = Session::new(7, 5, ResizePolicy::FixedBoard, 4);
    s.load_pattern(GLIDER).unwrap();
    let b = s.board();
    let live: Vec<usize> = (0..b.len()).filter(|&i| b[i]).collect();
    assert_eq!(live, vec![7 + 3, 14 + 4, 21 + 2, 21 + 3, 21 + 4]);
}

#[test]
fn failed_load_clears_the_board() {
    let mut s = Session::new(7, 5, ResizePolicy::FixedBoard, 4);
    s.load_pattern(GLIDER).unwrap();
    assert_eq!(s.load_pattern("#C nothing"), Err(LoadError::Decode(RleError::NoData)));
    assert!(s.board().iter().all(|&c| !c));
}

#[test]
fn step_generation_swaps_buffers() {
    let mut s = Session::new(5, 5, ResizePolicy::FixedBoard, 4);
    s.load_pattern("x = 3, y = 1\n3o!").unwrap();
    let before = s.board().clone();
    s.step_generation();
    assert_ne!(s.board(), &before);
    s.step_generation();
    assert_eq!(s.board(), &before);
}

#[test]
fn resize_notifications_are_debounced() {
    let mut s = Session::new(10, 10, ResizePolicy::BoardTracksWindow, 4);
    s.notify_resize(100, 60);
    s.notify_resize(80, 80);
    assert_eq!(
        s.tick(),
        ResizeAction::Resize { surface_w: 80, surface_h: 80, buffer_w: 20, buffer_h: 20 }
    );
    assert_eq!(s.tick(), ResizeAction::Nothing);
    assert_eq!((s.board_width(), s.board_height()), (20, 20));
}

#[test]
fn same_geometry_is_not_reapplied() {
    let mut s = Session::new(10, 10, ResizePolicy::BoardTracksWindow, 4);
    s.notify_resize(40, 40);
    assert_eq!(
        s.tick(),
        ResizeAction::Resize { surface_w: 40, surface_h: 40, buffer_w: 10, buffer_h: 10 }
    );
    s.notify_resize(41, 42);
    s.notify_resize(40, 40);
    assert_eq!(s.tick(), ResizeAction::Nothing);
}

#[test]
fn growing_board_recentres_content() {
    let mut s = Session::new(10, 10, ResizePolicy::BoardTracksWindow, 4);
    s.load_pattern("x = 1, y = 1\no!").unwrap();
    // the single cell sits at (4, 4) of the 10 x 10 board
    assert!(s.board()[4 * 10 + 4]);
    s.notify_resize(80, 48);
    s.tick();
    assert_eq!((s.board_width(), s.board_height()), (20, 12));
    // old board centred with offset (5, 1): the cell moves to (9, 5)
    let b = s.board();
    let live: Vec<usize> = (0..b.len()).filter(|&i| b[i]).collect();
    assert_eq!(live, vec![5 * 20 + 9]);
}

#[test]
fn fixed_board_only_resizes_the_surface() {
    let mut s = Session::new(30, 20, ResizePolicy::FixedBoard, 4);
    s.notify_resize(640, 480);
    assert_eq!(
        s.tick(),
        ResizeAction::Resize { surface_w: 640, surface_h: 480, buffer_w: 30, buffer_h: 20 }
    );
    assert_eq!((s.board_width(), s.board_height()), (30, 20));
    assert_eq!(s.tick(), ResizeAction::Nothing);
}

#[test]
fn tiny_window_keeps_the_minimum_board() {
    let mut s = Session::new(50, 50, ResizePolicy::BoardTracksWindow, 4);
    s.notify_resize(8, 8);
    s.tick();
    assert_eq!((s.board_width(), s.board_height()), (10, 10));
    assert_eq!(s.board().len(), 100);
}
