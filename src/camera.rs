//! The camera: which part of the board a window shows, at what zoom.
//!
//! Positions are in thousandths of a cell and zoom levels in thousandths
//! (1000 is 1x, where one cell takes `cell_px` pixels), so the centre of a
//! `d`-cell axis is exactly `d * 500`.
use vstd::prelude::*;
use crate::grid::lemma_index_in_grid;

verus! {

/// Thousandths per unit, for positions and zoom levels.
pub const UNIT: u64 = 1000;

/// Smallest zoom level: 0.1x.
pub const ZOOM_MIN: u64 = 100;

/// One zoom step multiplies or divides the zoom by 1.15.
pub const ZOOM_STEP: u64 = 1150;

/// Cells, in thousandths, that `px` pixels show at `zoom` thousandths, with
/// one cell `cell_px` pixels wide at 1x.
pub open spec fn visible_extent(px: int, cell_px: int, zoom: int) -> int {
    px * 1_000_000 / (cell_px * zoom)
}

/// A camera coordinate kept inside the board: the board's centre when the view
/// is at least as large as the board on this axis, otherwise the nearest
/// position whose view stays on the board.
pub open spec fn clamp_axis(pos: int, visible: int, board: int) -> int {
    if visible >= board * 1000 {
        board * 500
    } else {
        let half = visible / 2;
        if pos < half {
            half
        } else if pos > board * 1000 - half {
            board * 1000 - half
        } else {
            pos
        }
    }
}

/// Largest zoom for a window: as many times as the cell fits in its shorter
/// side, and never below the smallest zoom.
pub open spec fn zoom_limit(surface_w: int, surface_h: int, cell_px: int) -> int {
    let short = if surface_w < surface_h {
        surface_w
    } else {
        surface_h
    };
    let z = short / cell_px * 1000;
    if z < ZOOM_MIN {
        ZOOM_MIN as int
    } else {
        z
    }
}

pub open spec fn clamp_zoom(z: int, lo: int, hi: int) -> int {
    if z < lo {
        lo
    } else if z > hi {
        hi
    } else {
        z
    }
}

/// The zoom after one step in (`zoom_in`) or out, before clamping.
pub open spec fn zoom_stepped(z: int, zoom_in: bool) -> int {
    if zoom_in {
        z * 1150 / 1000
    } else {
        z * 1000 / 1150
    }
}

/// `a / b` rounded towards zero.
pub open spec fn div_trunc(a: int, b: int) -> int {
    if a >= 0 {
        a / b
    } else {
        -((-a) / b)
    }
}

/// Board position, in thousandths of a cell, that buffer pixel `b` of `buf`
/// shows on an axis whose view is `visible` wide around `pos`.
pub open spec fn view_coord(pos: int, visible: int, b: int, buf: int) -> int {
    pos - visible / 2 + b * visible / buf
}

/// How a buffer pixel shows the board.
#[derive(Debug, Clone, Copy, PartialEq, Eq)]
pub enum CellView {
    Alive,
    Dead,
    OutOfBounds,
}

/// Proves a clamped coordinate stays clamped, and that a view at least as
/// large as the board puts the camera on the board's centre whatever the
/// position before.
pub proof fn lemma_clamp_axis(pos: int, visible: int, board: int)
    ensures
        clamp_axis(clamp_axis(pos, visible, board), visible, board) == clamp_axis(pos, visible, board),
        visible >= board * 1000 ==> clamp_axis(pos, visible, board) == board * 500,
{
}

proof fn lemma_clamp_range(pos: int, px: int, cell_px: int, zoom: int, board: int)
    requires
        px >= 0,
        cell_px > 0,
        zoom > 0,
        board >= 0,
    ensures
        visible_extent(px, cell_px, zoom) >= 0,
        0 <= clamp_axis(pos, visible_extent(px, cell_px, zoom), board) <= board * 1000,
{
    assert(px * 1_000_000 / (cell_px * zoom) >= 0) by (nonlinear_arith)
        requires
            px >= 0,
            cell_px > 0,
            zoom > 0,
    ;
}

pub struct Camera {
    pub board_w: u32,
    pub board_h: u32,
    pub surface_w: u32,
    pub surface_h: u32,
    pub cell_px: u32,
    /// Centre of the view, in thousandths of a cell.
    pub x: i64,
    pub y: i64,
    /// Zoom, in thousandths.
    pub zoom: u64,
    pub zoom_max: u64,
}

impl Camera {
    pub open spec fn visible_w(&self) -> int {
        visible_extent(self.surface_w as int, self.cell_px as int, self.zoom as int)
    }

    pub open spec fn visible_h(&self) -> int {
        visible_extent(self.surface_h as int, self.cell_px as int, self.zoom as int)
    }

    /// Zoom within its bounds, the largest zoom as the window allows, and the
    /// position clamped on both axes.
    pub open spec fn wf(&self) -> bool {
        &&& self.cell_px > 0
        &&& self.zoom_max == zoom_limit(self.surface_w as int, self.surface_h as int, self.cell_px as int)
        &&& ZOOM_MIN <= self.zoom <= self.zoom_max
        &&& self.x == clamp_axis(self.x as int, self.visible_w(), self.board_w as int)
        &&& self.y == clamp_axis(self.y as int, self.visible_h(), self.board_h as int)
    }

    /// A camera on the centre of the board at 1x (or the nearest allowed zoom).
    pub fn new(board_w: u32, board_h: u32, surface_w: u32, surface_h: u32, cell_px: u32) -> (r: Self)
        requires
            cell_px > 0,
        ensures
            r.wf(),
            r.board_w == board_w && r.board_h == board_h,
            r.surface_w == surface_w && r.surface_h == surface_h,
            r.cell_px == cell_px,
            r.zoom == clamp_zoom(UNIT as int, ZOOM_MIN as int, r.zoom_max as int),
            r.x == board_w * 500 && r.y == board_h * 500,
    {
        let zoom_max = Self::zoom_limit_of(surface_w, surface_h, cell_px);
        let zoom = if UNIT > zoom_max {
            zoom_max
        } else {
            UNIT
        };
        let mut c = Camera {
            board_w,
            board_h,
            surface_w,
            surface_h,
            cell_px,
            x: board_w as i64 * 500,
            y: board_h as i64 * 500,
            zoom,
            zoom_max,
        };
        c.clamp_camera();
        proof {
            lemma_clamp_axis(board_w as int * 500, c.visible_w(), board_w as int);
            lemma_clamp_axis(board_h as int * 500, c.visible_h(), board_h as int);
        }
        c
    }

    fn zoom_limit_of(surface_w: u32, surface_h: u32, cell_px: u32) -> (r: u64)
        requires
            cell_px > 0,
        ensures
            r == zoom_limit(surface_w as int, surface_h as int, cell_px as int),
            r <= 0xffff_ffff * 1000,
    {
        let short = if surface_w < surface_h {
            surface_w
        } else {
            surface_h
        };
        let z = (short / cell_px) as u64 * UNIT;
        if z < ZOOM_MIN {
            ZOOM_MIN
        } else {
            z
        }
    }

    fn visible(px: u32, cell_px: u32, zoom: u64) -> (r: u64)
        requires
            cell_px > 0,
            ZOOM_MIN <= zoom <= 0xffff_ffff * 1000,
        ensures
            r == visible_extent(px as int, cell_px as int, zoom as int),
            r <= 0xffff_ffff * 10_000,
    {
        let num: u128 = px as u128 * 1_000_000;
        assert(cell_px * zoom <= 0xffff_ffff * (0xffff_ffff * 1000)) by (nonlinear_arith)
            requires
                cell_px <= 0xffff_ffff,
                zoom <= 0xffff_ffff * 1000,
        ;
        let den: u128 = cell_px as u128 * zoom as u128;
        assert(den >= 100) by (nonlinear_arith)
            requires
                den == cell_px * zoom,
                cell_px >= 1,
                zoom >= 100,
        ;
        assert(num / den <= num / 100) by (nonlinear_arith)
            requires
                den >= 100,
                num >= 0,
        ;
        (num / den) as u64
    }

    fn clamp_coord(pos: i64, visible: u64, board: u32) -> (r: i64)
        requires
            visible <= 0xffff_ffff * 10_000,
        ensures
            r == clamp_axis(pos as int, visible as int, board as int),
    {
        let extent = board as i64 * 1000;
        if visible as i64 >= extent {
            board as i64 * 500
        } else {
            let half = (visible / 2) as i64;
            if pos < half {
                half
            } else if pos > extent - half {
                extent - half
            } else {
                pos
            }
        }
    }

    /// Brings the position back within the board on both axes (see
    /// `clamp_axis`), at the current zoom and window size.
    pub fn clamp_camera(&mut self)
        requires
            old(self).cell_px > 0,
            ZOOM_MIN <= old(self).zoom <= 0xffff_ffff * 1000,
        ensures
            final(self).x == clamp_axis(old(self).x as int, old(self).visible_w(), old(self).board_w as int),
            final(self).y == clamp_axis(old(self).y as int, old(self).visible_h(), old(self).board_h as int),
            final(self).board_w == old(self).board_w && final(self).board_h == old(self).board_h,
            final(self).surface_w == old(self).surface_w && final(self).surface_h == old(self).surface_h,
            final(self).cell_px == old(self).cell_px,
            final(self).zoom == old(self).zoom && final(self).zoom_max == old(self).zoom_max,
    {
        let vw = Self::visible(self.surface_w, self.cell_px, self.zoom);
        let vh = Self::visible(self.surface_h, self.cell_px, self.zoom);
        self.x = Self::clamp_coord(self.x, vw, self.board_w);
        self.y = Self::clamp_coord(self.y, vh, self.board_h);
        proof {
            lemma_clamp_axis(old(self).x as int, vw as int, self.board_w as int);
            lemma_clamp_axis(old(self).y as int, vh as int, self.board_h as int);
        }
    }

    /// One zoom step: in (by 1.15) when `delta > 0`, out otherwise, kept
    /// within the zoom bounds; then the position is clamped again.
    pub fn handle_zoom(&mut self, delta: i32)
        requires
            old(self).wf(),
        ensures
            final(self).wf(),
            final(self).zoom == clamp_zoom(
                zoom_stepped(old(self).zoom as int, delta > 0),
                ZOOM_MIN as int,
                old(self).zoom_max as int,
            ),
            final(self).x == clamp_axis(old(self).x as int, final(self).visible_w(), old(self).board_w as int),
            final(self).y == clamp_axis(old(self).y as int, final(self).visible_h(), old(self).board_h as int),
            final(self).board_w == old(self).board_w && final(self).board_h == old(self).board_h,
            final(self).surface_w == old(self).surface_w && final(self).surface_h == old(self).surface_h,
            final(self).cell_px == old(self).cell_px && final(self).zoom_max == old(self).zoom_max,
    {
        let z = if delta > 0 {
            self.zoom * ZOOM_STEP / UNIT
        } else {
            self.zoom * UNIT / ZOOM_STEP
        };
        self.zoom = if z < ZOOM_MIN {
            ZOOM_MIN
        } else if z > self.zoom_max {
            self.zoom_max
        } else {
            z
        };
        let ghost before = *self;
        self.clamp_camera();
        proof {
            lemma_clamp_axis(before.x as int, self.visible_w(), self.board_w as int);
            lemma_clamp_axis(before.y as int, self.visible_h(), self.board_h as int);
        }
    }

    /// Moves the view centre by `(delta_x, delta_y)` thousandths of a cell,
    /// then clamps it.
    pub fn pan_camera(&mut self, delta_x: i64, delta_y: i64)
        requires
            old(self).wf(),
            -0x1_0000_0000_0000 <= delta_x <= 0x1_0000_0000_0000,
            -0x1_0000_0000_0000 <= delta_y <= 0x1_0000_0000_0000,
        ensures
            final(self).wf(),
            final(self).x == clamp_axis(old(self).x + delta_x, old(self).visible_w(), old(self).board_w as int),
            final(self).y == clamp_axis(old(self).y + delta_y, old(self).visible_h(), old(self).board_h as int),
            final(self).zoom == old(self).zoom && final(self).zoom_max == old(self).zoom_max,
            final(self).board_w == old(self).board_w && final(self).board_h == old(self).board_h,
            final(self).surface_w == old(self).surface_w && final(self).surface_h == old(self).surface_h,
            final(self).cell_px == old(self).cell_px,
    {
        proof {
            lemma_clamp_range(self.x as int, self.surface_w as int, self.cell_px as int, self.zoom as int, self.board_w as int);
            lemma_clamp_range(self.y as int, self.surface_h as int, self.cell_px as int, self.zoom as int, self.board_h as int);
        }
        self.x = self.x + delta_x;
        self.y = self.y + delta_y;
        let ghost before = *self;
        self.clamp_camera();
        proof {
            lemma_clamp_axis(before.x as int, self.visible_w(), self.board_w as int);
            lemma_clamp_axis(before.y as int, self.visible_h(), self.board_h as int);
        }
    }

    /// Pans by a pointer drag of `(dx_px, dy_px)` pixels: the board follows
    /// the pointer, so the centre moves the other way, by the drag divided by
    /// the cell size at the current zoom (rounded towards zero).
    pub fn pan_by_pixels(&mut self, dx_px: i32, dy_px: i32)
        requires
            old(self).wf(),
        ensures
            final(self).wf(),
            final(self).x == clamp_axis(
                old(self).x - div_trunc(dx_px * 1_000_000, old(self).cell_px * old(self).zoom),
                old(self).visible_w(),
                old(self).board_w as int,
            ),
            final(self).y == clamp_axis(
                old(self).y - div_trunc(dy_px * 1_000_000, old(self).cell_px * old(self).zoom),
                old(self).visible_h(),
                old(self).board_h as int,
            ),
            final(self).zoom == old(self).zoom,
    {
        assert(self.cell_px * self.zoom <= 0xffff_ffff * (0xffff_ffff * 1000)) by (nonlinear_arith)
            requires
                self.cell_px <= 0xffff_ffff,
                self.zoom <= 0xffff_ffff * 1000,
        ;
        assert(self.cell_px * self.zoom >= 100) by (nonlinear_arith)
            requires
                self.cell_px >= 1,
                self.zoom >= 100,
        ;
        let den: i128 = self.cell_px as i128 * self.zoom as i128;
        let cx = Self::pixels_to_cells(dx_px, den);
        let cy = Self::pixels_to_cells(dy_px, den);
        self.pan_camera(-cx, -cy);
    }

    fn pixels_to_cells(d_px: i32, den: i128) -> (r: i64)
        requires
            den >= 100,
        ensures
            r == div_trunc(d_px * 1_000_000, den as int),
            -0x1_0000_0000_0000 <= r <= 0x1_0000_0000_0000,
    {
        let num: i128 = d_px as i128 * 1_000_000;
        if num >= 0 {
            assert(num / den <= num / 100) by (nonlinear_arith)
                requires
                    num >= 0,
                    den >= 100,
            ;
            (num / den) as i64
        } else {
            let m: i128 = -num;
            assert(m / den <= m / 100) by (nonlinear_arith)
                requires
                    m > 0,
                    den >= 100,
            ;
            -((m / den) as i64)
        }
    }

    /// Follows a window resize: new surface size, new largest zoom, the zoom
    /// brought within bounds, and the position clamped again.
    pub fn resize_surface(&mut self, surface_w: u32, surface_h: u32)
        requires
            old(self).wf(),
        ensures
            final(self).wf(),
            final(self).surface_w == surface_w && final(self).surface_h == surface_h,
            final(self).zoom_max == zoom_limit(surface_w as int, surface_h as int, old(self).cell_px as int),
            final(self).zoom == clamp_zoom(old(self).zoom as int, ZOOM_MIN as int, final(self).zoom_max as int),
            final(self).x == clamp_axis(old(self).x as int, final(self).visible_w(), old(self).board_w as int),
            final(self).y == clamp_axis(old(self).y as int, final(self).visible_h(), old(self).board_h as int),
            final(self).board_w == old(self).board_w && final(self).board_h == old(self).board_h,
            final(self).cell_px == old(self).cell_px,
    {
        self.surface_w = surface_w;
        self.surface_h = surface_h;
        self.zoom_max = Self::zoom_limit_of(surface_w, surface_h, self.cell_px);
        if self.zoom > self.zoom_max {
            self.zoom = self.zoom_max;
        }
        let ghost before = *self;
        self.clamp_camera();
        proof {
            lemma_clamp_axis(before.x as int, self.visible_w(), self.board_w as int);
            lemma_clamp_axis(before.y as int, self.visible_h(), self.board_h as int);
        }
    }

    /// What buffer pixel `(buffer_x, buffer_y)` of a `buffer_w` x `buffer_h`
    /// render buffer shows: the board cell under it, alive or dead, or the
    /// area outside the board.
    pub fn classify(
        &self,
        board: &[bool],
        buffer_x: u32,
        buffer_y: u32,
        buffer_w: u32,
        buffer_h: u32,
    ) -> (r: CellView)
        requires
            self.wf(),
            board@.len() == self.board_w * self.board_h,
            buffer_x < buffer_w,
            buffer_y < buffer_h,
        ensures
            ({
                let cx = view_coord(self.x as int, self.visible_w(), buffer_x as int, buffer_w as int);
                let cy = view_coord(self.y as int, self.visible_h(), buffer_y as int, buffer_h as int);
                if cx < 0 || cy < 0 || cx / 1000 >= self.board_w || cy / 1000 >= self.board_h {
                    r == CellView::OutOfBounds
                } else if board@[(cy / 1000) * self.board_w + cx / 1000] {
                    r == CellView::Alive
                } else {
                    r == CellView::Dead
                }
            }),
    {
        let vw = Self::visible(self.surface_w, self.cell_px, self.zoom);
        let vh = Self::visible(self.surface_h, self.cell_px, self.zoom);
        let cx = Self::view_coord_of(self.x, vw, buffer_x, buffer_w);
        let cy = Self::view_coord_of(self.y, vh, buffer_y, buffer_h);
        if cx < 0 || cy < 0 || cx / 1000 >= self.board_w as i128 || cy / 1000 >= self.board_h as i128 {
            return CellView::OutOfBounds;
        }
        let col = (cx / 1000) as usize;
        let row = (cy / 1000) as usize;
        let len = board.len();
        proof {
            lemma_index_in_grid(col as int, row as int, self.board_w as int, self.board_h as int);
        }
        let idx = row * (self.board_w as usize) + col;
        if idx < len && board[idx] {
            CellView::Alive
        } else {
            CellView::Dead
        }
    }

    fn view_coord_of(pos: i64, visible: u64, b: u32, buf: u32) -> (r: i128)
        requires
            b < buf,
            visible <= 0xffff_ffff * 10_000,
        ensures
            r == view_coord(pos as int, visible as int, b as int, buf as int),
    {
        let v = visible as i128;
        assert(b * v <= 0xffff_ffff * (0xffff_ffff * 10_000)) by (nonlinear_arith)
            requires
                0 <= b <= 0xffff_ffff,
                0 <= v <= 0xffff_ffff * 10_000,
        ;
        assert((b * v) / (buf as int) <= b * v) by (nonlinear_arith)
            requires
                b * v >= 0,
                buf >= 1,
        ;
        pos as i128 - v / 2 + (b as i128 * v) / (buf as i128)
    }
}

} // verus!
