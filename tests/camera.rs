use gol_core::camera::{Camera, CellView, ZOOM_MIN};

#[test]
fn new_camera_is_centred_at_unit_zoom() {
    let c = Camera::new(1280, 800, 1280, 800, 4);
    assert_eq!((c.x, c.y), (640_000, 400_000));
    assert_eq!(c.zoom, 1000);
    assert_eq!(c.zoom_max, 200_000);
}

#[test]
fn view_larger_than_board_forces_the_centre() {
    // 1x zoom on a 400 px window with 4 px cells shows 100 cells; the board has 50.
    let mut c = Camera::new(50, 50, 400, 400, 4);
    c.pan_camera(7_000, -3_000);
    assert_eq!((c.x, c.y), (25_000, 25_000));
    c.pan_camera(1_000_000, 1_000_000);
    assert_eq!((c.x, c.y), (25_000, 25_000));
}

#[test]
fn odd_board_centre_is_exact() {
    let mut c = Camera::new(51, 7, 4000, 4000, 4);
    c.pan_camera(-12_345, 999);
    assert_eq!((c.x, c.y), (25_500, 3_500));
}

#[test]
fn pan_is_clamped_to_the_board_edges() {
    // 100 px window, 4 px cells: 25 cells visible at 1x on a 1000-cell board.
    let mut c = Camera::new(1000, 1000, 100, 100, 4);
    c.pan_camera(-10_000_000, 0);
    assert_eq!(c.x, 12_500);
    c.pan_camera(100_000_000, 0);
    assert_eq!(c.x, 1_000_000 - 12_500);
    c.pan_camera(-20_000, 0);
    assert_eq!(c.x, 1_000_000 - 32_500);
}

#[test]
fn zoom_steps_and_limits() {
    let mut c = Camera::new(1000, 1000, 100, 100, 4);
    c.handle_zoom(1);
    assert_eq!(c.zoom, 1150);
    c.handle_zoom(-1);
    assert_eq!(c.zoom, 1000);
    for _ in 0..100 {
        c.handle_zoom(1);
    }
    assert_eq!(c.zoom, c.zoom_max);
    assert_eq!(c.zoom_max, 25_000);
    for _ in 0..100 {
        c.handle_zoom(-1);
    }
    assert_eq!(c.zoom, ZOOM_MIN);
}

#[test]
fn drag_moves_the_board_with_the_pointer() {
    let mut c = Camera::new(1000, 1000, 100, 100, 4);
    let x0 = c.x;
    // dragging 8 px right at 1x (4 px per cell) moves the centre 2 cells left
    c.pan_by_pixels(8, 0);
    assert_eq!(c.x, x0 - 2_000);
    c.pan_by_pixels(-3, 0);
    assert_eq!(c.x, x0 - 2_000 + 750);
}

#[test]
fn resize_updates_zoom_limit_and_clamps() {
    let mut c = Camera::new(1000, 1000, 400, 400, 4);
    for _ in 0..60 {
        c.handle_zoom(1);
    }
    assert_eq!(c.zoom, 100_000);
    c.resize_surface(40, 80);
    assert_eq!(c.zoom_max, 10_000);
    assert_eq!(c.zoom, 10_000);
    c.resize_surface(2, 2);
    assert_eq!(c.zoom_max, ZOOM_MIN);
    assert_eq!(c.zoom, ZOOM_MIN);
}

#[test]
fn classify_pixels() {
    // 3x3 board, window shows exactly the board: 12 px, 4 px cells, 1x.
    let board = vec![true, false, false, false, true, false, false, false, false];
    let c = Camera::new(3, 3, 12, 12, 4);
    assert_eq!(c.classify(&board, 0, 0, 3, 3), CellView::Alive);
    assert_eq!(c.classify(&board, 1, 0, 3, 3), CellView::Dead);
    assert_eq!(c.classify(&board, 1, 1, 3, 3), CellView::Alive);
    // zoomed out: the view is twice the board, so the corners fall outside
    let wide = Camera::new(3, 3, 24, 24, 4);
    assert_eq!(wide.classify(&board, 0, 0, 3, 3), CellView::OutOfBounds);
    assert_eq!(wide.classify(&board, 1, 1, 3, 3), CellView::Alive);
    assert_eq!(wide.classify(&board, 2, 2, 3, 3), CellView::Dead);
}
