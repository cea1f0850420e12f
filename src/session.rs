//! A simulation session: the board and its scratch buffer, the window
//! geometry, and the resize controller that debounces window notifications.
use vstd::prelude::*;
use crate::life::{life_step, step_life};
use crate::placement::{place_pattern_centered, placed, GeometryError};
use crate::rle::{parse_rle, rle_result, RleError};

verus! {

/// Smallest board side when the board follows the window.
pub const MIN_BOARD_DIM: u32 = 10;

/// How window size changes affect the board.
#[derive(Debug, Clone, Copy, PartialEq, Eq)]
pub enum ResizePolicy {
    /// The board has one cell per `cell_px` pixels of window, at least
    /// `MIN_BOARD_DIM` a side; its content is re-centred on a change.
    BoardTracksWindow,
    /// The board keeps its size; only the presentation surface follows.
    FixedBoard,
}

/// What the host must do to its presentation surface after a tick.
#[derive(Debug, Clone, Copy, PartialEq, Eq)]
pub enum ResizeAction {
    Nothing,
    /// Resize the surface to `surface_w` x `surface_h` pixels and the render
    /// buffer to `buffer_w` x `buffer_h`.
    Resize { surface_w: u32, surface_h: u32, buffer_w: u32, buffer_h: u32 },
}

/// Why a pattern could not be loaded.
#[derive(Debug, Clone, Copy, PartialEq, Eq)]
pub enum LoadError {
    Decode(RleError),
    Geometry(GeometryError),
}

/// The session as plain values: board size and cells, surface size, the
/// pending resize, and the controller's configuration.
pub struct SessionView {
    pub width: u32,
    pub height: u32,
    pub current: Seq<bool>,
    pub surface_w: u32,
    pub surface_h: u32,
    pub pending: Option<(u32, u32)>,
    pub policy: ResizePolicy,
    pub cell_px: u32,
}

pub open spec fn zeros(n: nat) -> Seq<bool> {
    Seq::new(n, |i: int| false)
}

/// Board size for a `w` x `h` pixel window. A tracking board whose cell
/// count would not fit a `usize` keeps its size.
pub open spec fn target_board(
    policy: ResizePolicy,
    cell_px: u32,
    board_w: u32,
    board_h: u32,
    w: u32,
    h: u32,
) -> (u32, u32) {
    match policy {
        ResizePolicy::FixedBoard => (board_w, board_h),
        ResizePolicy::BoardTracksWindow => {
            let bw = if w / cell_px > MIN_BOARD_DIM {
                (w / cell_px) as u32
            } else {
                MIN_BOARD_DIM
            };
            let bh = if h / cell_px > MIN_BOARD_DIM {
                (h / cell_px) as u32
            } else {
                MIN_BOARD_DIM
            };
            if bw * bh <= usize::MAX {
                (bw, bh)
            } else {
                (board_w, board_h)
            }
        },
    }
}

/// The session once a resize to `w` x `h` is noted; a pending one is replaced.
pub open spec fn notified(v: SessionView, w: u32, h: u32) -> SessionView {
    SessionView {
        width: v.width,
        height: v.height,
        current: v.current,
        surface_w: v.surface_w,
        surface_h: v.surface_h,
        pending: Some((w, h)),
        policy: v.policy,
        cell_px: v.cell_px,
    }
}

/// One tick of the controller: the session afterwards and what the host must
/// do. Without a pending resize nothing happens. Otherwise the request is
/// consumed; when neither the surface nor the board size changes nothing
/// else happens, when only the surface changes the host is told, and when
/// the board size changes the board is rebuilt with the old cells centred.
pub open spec fn ticked(v: SessionView) -> (SessionView, ResizeAction) {
    match v.pending {
        None => (v, ResizeAction::Nothing),
        Some(p) => {
            let (w, h) = p;
            let (bw, bh) = target_board(v.policy, v.cell_px, v.width, v.height, w, h);
            if v.surface_w == w && v.surface_h == h && v.width == bw && v.height == bh {
                (
                    SessionView {
                        width: v.width,
                        height: v.height,
                        current: v.current,
                        surface_w: v.surface_w,
                        surface_h: v.surface_h,
                        pending: None,
                        policy: v.policy,
                        cell_px: v.cell_px,
                    },
                    ResizeAction::Nothing,
                )
            } else {
                (
                    SessionView {
                        width: bw,
                        height: bh,
                        current: if bw == v.width && bh == v.height {
                            v.current
                        } else {
                            placed(
                                zeros((bw * bh) as nat),
                                bw as int,
                                bh as int,
                                v.current,
                                v.width as int,
                                v.height as int,
                            )
                        },
                        surface_w: w,
                        surface_h: h,
                        pending: None,
                        policy: v.policy,
                        cell_px: v.cell_px,
                    },
                    ResizeAction::Resize { surface_w: w, surface_h: h, buffer_w: bw, buffer_h: bh },
                )
            }
        },
    }
}

/// Resize notifications coalesce: after any notification followed by one to
/// `(w, h)`, a tick does what it would have done had only `(w, h)` been
/// notified, so the earlier size is never applied; it asks the host for at
/// most one resize, and the next tick does nothing.
pub proof fn lemma_resize_debounce(v: SessionView, w1: u32, h1: u32, w: u32, h: u32)
    ensures
        ticked(notified(notified(v, w1, h1), w, h)) == ticked(notified(v, w, h)),
        ticked(ticked(notified(notified(v, w1, h1), w, h)).0).1 == ResizeAction::Nothing,
        ticked(ticked(notified(notified(v, w1, h1), w, h)).0).0 == ticked(
            notified(notified(v, w1, h1), w, h),
        ).0,
{
    assert(notified(notified(v, w1, h1), w, h) == notified(v, w, h));
}

pub struct Session {
    board_width: u32,
    board_height: u32,
    board_a: Vec<bool>,
    board_b: Vec<bool>,
    a_is_current: bool,
    surface_w: u32,
    surface_h: u32,
    pending_resize: Option<(u32, u32)>,
    policy: ResizePolicy,
    cell_px: u32,
}

fn zero_board(n: usize) -> (r: Vec<bool>)
    ensures
        r@ == zeros(n as nat),
{
    let mut v: Vec<bool> = Vec::new();
    while v.len() < n
        invariant
            v@.len() <= n,
            forall|k: int| 0 <= k < v@.len() ==> !v@[k],
        decreases n - v@.len(),
    {
        v.push(false);
    }
    assert(v@ =~= zeros(n as nat));
    v
}

impl Session {
    pub closed spec fn view(&self) -> SessionView {
        SessionView {
            width: self.board_width,
            height: self.board_height,
            current: if self.a_is_current {
                self.board_a@
            } else {
                self.board_b@
            },
            surface_w: self.surface_w,
            surface_h: self.surface_h,
            pending: self.pending_resize,
            policy: self.policy,
            cell_px: self.cell_px,
        }
    }

    /// Both buffers hold `width * height` cells and the cell size is positive.
    pub closed spec fn wf(&self) -> bool {
        &&& self.board_a@.len() == self.board_width * self.board_height
        &&& self.board_b@.len() == self.board_width * self.board_height
        &&& self.cell_px > 0
    }

    /// A session with an empty `board_w` x `board_h` board, no surface yet
    /// (size 0 x 0) and no pending resize.
    pub fn new(board_w: u32, board_h: u32, policy: ResizePolicy, cell_px: u32) -> (r: Self)
        requires
            board_w * board_h <= usize::MAX,
            cell_px > 0,
        ensures
            r.wf(),
            r.view() == (SessionView {
                width: board_w,
                height: board_h,
                current: zeros((board_w * board_h) as nat),
                surface_w: 0,
                surface_h: 0,
                pending: None,
                policy,
                cell_px,
            }),
    {
        let n = board_w as usize * board_h as usize;
        Session {
            board_width: board_w,
            board_height: board_h,
            board_a: zero_board(n),
            board_b: zero_board(n),
            a_is_current: true,
            surface_w: 0,
            surface_h: 0,
            pending_resize: None,
            policy,
            cell_px,
        }
    }

    pub fn board_width(&self) -> (r: u32)
        ensures
            r == self.view().width,
    {
        self.board_width
    }

    pub fn board_height(&self) -> (r: u32)
        ensures
            r == self.view().height,
    {
        self.board_height
    }

    /// The current generation, row-major.
    pub fn board(&self) -> (r: &Vec<bool>)
        ensures
            r@ == self.view().current,
    {
        if self.a_is_current {
            &self.board_a
        } else {
            &self.board_b
        }
    }

    /// Advances the board one generation: the next one is written into the
    /// scratch buffer, which then becomes current.
    pub fn step_generation(&mut self)
        requires
            old(self).wf(),
        ensures
            final(self).wf(),
            final(self).view() == (SessionView {
                current: life_step(
                    old(self).view().current,
                    old(self).view().width as int,
                    old(self).view().height as int,
                ),
                ..old(self).view()
            }),
    {
        if self.a_is_current {
            step_life(&self.board_a, &mut self.board_b, self.board_width, self.board_height);
        } else {
            step_life(&self.board_b, &mut self.board_a, self.board_width, self.board_height);
        }
        self.a_is_current = !self.a_is_current;
    }

    /// Notes a window size change; it replaces any pending one and is applied
    /// at the next tick.
    pub fn notify_resize(&mut self, w: u32, h: u32)
        requires
            old(self).wf(),
        ensures
            final(self).wf(),
            final(self).view() == notified(old(self).view(), w, h),
    {
        self.pending_resize = Some((w, h));
    }

    /// Applies the pending resize, if any (see `ticked`).
    pub fn tick(&mut self) -> (r: ResizeAction)
        requires
            old(self).wf(),
        ensures
            final(self).wf(),
            (final(self).view(), r) == ticked(old(self).view()),
    {
        let (w, h) = match self.pending_resize {
            None => {
                return ResizeAction::Nothing;
            },
            Some(p) => p,
        };
        self.pending_resize = None;
        let (bw, bh) = self.target_board(w, h);
        if self.surface_w == w && self.surface_h == h && self.board_width == bw && self.board_height == bh {
            return ResizeAction::Nothing;
        }
        self.surface_w = w;
        self.surface_h = h;
        if bw != self.board_width || bh != self.board_height {
            let n = bw as usize * bh as usize;
            let mut fresh = zero_board(n);
            let mut old_cells = zero_board(n);
            if self.a_is_current {
                std::mem::swap(&mut self.board_a, &mut old_cells);
            } else {
                std::mem::swap(&mut self.board_b, &mut old_cells);
            }
            let old_w = self.board_width;
            let old_h = self.board_height;
            let _ = place_pattern_centered(&mut fresh, bw, bh, &old_cells, old_w, old_h);
            self.board_a = fresh;
            self.board_b = zero_board(n);
            self.a_is_current = true;
            self.board_width = bw;
            self.board_height = bh;
        }
        ResizeAction::Resize { surface_w: w, surface_h: h, buffer_w: bw, buffer_h: bh }
    }

    fn target_board(&self, w: u32, h: u32) -> (r: (u32, u32))
        requires
            self.cell_px > 0,
        ensures
            r == target_board(self.policy, self.cell_px, self.board_width, self.board_height, w, h),
    {
        match self.policy {
            ResizePolicy::FixedBoard => (self.board_width, self.board_height),
            ResizePolicy::BoardTracksWindow => {
                let bw = if w / self.cell_px > MIN_BOARD_DIM {
                    w / self.cell_px
                } else {
                    MIN_BOARD_DIM
                };
                let bh = if h / self.cell_px > MIN_BOARD_DIM {
                    h / self.cell_px
                } else {
                    MIN_BOARD_DIM
                };
                if (bw as usize).checked_mul(bh as usize).is_some() {
                    (bw, bh)
                } else {
                    (self.board_width, self.board_height)
                }
            },
        }
    }

    /// Loads a pattern file's text: the board is cleared, then the decoded
    /// pattern is centred on it. On a decoding error the board stays cleared.
    pub fn load_pattern(&mut self, content: &str) -> (r: Result<(), LoadError>)
        requires
            old(self).wf(),
        ensures
            final(self).wf(),
            final(self).view().width == old(self).view().width,
            final(self).view().height == old(self).view().height,
            final(self).view().surface_w == old(self).view().surface_w,
            final(self).view().surface_h == old(self).view().surface_h,
            final(self).view().pending == old(self).view().pending,
            final(self).view().policy == old(self).view().policy,
            final(self).view().cell_px == old(self).view().cell_px,
            match rle_result(content@) {
                Err(e) => r == Err::<(), LoadError>(LoadError::Decode(e)) && final(self).view().current
                    == zeros(old(self).view().current.len()),
                Ok(p) => if old(self).view().width > 0 && old(self).view().height > 0 {
                    r is Ok && final(self).view().current == placed(
                        zeros(old(self).view().current.len()),
                        old(self).view().width as int,
                        old(self).view().height as int,
                        p.0,
                        p.1 as int,
                        p.2 as int,
                    )
                } else {
                    r == Err::<(), LoadError>(LoadError::Geometry(GeometryError::EmptyBoard))
                        && final(self).view().current == zeros(old(self).view().current.len())
                },
            },
    {
        let n = self.board_a.len();
        let mut cleared = zero_board(n);
        if self.a_is_current {
            std::mem::swap(&mut self.board_a, &mut cleared);
        } else {
            std::mem::swap(&mut self.board_b, &mut cleared);
        }
        let (cells, pw, ph) = match parse_rle(content) {
            Ok(p) => p,
            Err(e) => {
                return Err(LoadError::Decode(e));
            },
        };
        let w = self.board_width;
        let h = self.board_height;
        let placed_ok = if self.a_is_current {
            place_pattern_centered(&mut self.board_a, w, h, &cells, pw, ph)
        } else {
            place_pattern_centered(&mut self.board_b, w, h, &cells, pw, ph)
        };
        match placed_ok {
            Ok(()) => Ok(()),
            Err(e) => Err(LoadError::Geometry(e)),
        }
    }
}

} // verus!
