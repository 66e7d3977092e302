//! Session glue: drives the selector from de-duplicated key events, decides
//! completion and cancellation, and computes the pointer placement handed to
//! the click-injection collaborator when the selection resolves.
use vstd::prelude::*;

use crate::render::{fill_bytes, spec_fill_bytes};
use crate::selector::{
    fine_wf, init_wf, sel_drawn, sel_step, sel_wf, SelView, SelectorState, FINE_COLS, FINE_ROWS,
};
use crate::surface::{surface_wf, PixelSurface};

verus! {

/// The key code that aborts the session from any state.
pub const ABORT_KEY: u32 = 1;

/// Geometry of the display output the session operates on, in absolute
/// screen coordinates.
#[derive(Clone, Copy, Debug, PartialEq, Eq, Structural)]
pub struct OutputGeometry {
    pub x: i32,
    pub y: i32,
    pub width: i32,
    pub height: i32,
}

/// A pointer placement: absolute cursor coordinates and the bounds they are
/// expressed within.
#[derive(Clone, Copy, Debug, PartialEq, Eq, Structural)]
pub struct PointerTarget {
    pub x: u32,
    pub y: u32,
    pub bounds_width: u32,
    pub bounds_height: u32,
}

/// The selection session: the selector phase in flight, the de-duplication
/// tokens already processed, and whether the abort key ended the session.
#[derive(Debug)]
pub struct Session {
    pub selector: SelectorState,
    pub seen_serials: Vec<u32>,
    pub cancelled: bool,
}

/// Mathematical view of a session.
#[verifier::ext_equal]
pub struct SessionView {
    pub selector: SelView,
    pub seen_serials: Seq<u32>,
    pub cancelled: bool,
}

impl View for Session {
    type V = SessionView;

    open spec fn view(&self) -> SessionView {
        SessionView {
            selector: self.selector@,
            seen_serials: self.seen_serials@,
            cancelled: self.cancelled,
        }
    }
}

/// Whether the selection has resolved: the fine phase has completed at least
/// one subdivision, whose region's center is the target.
pub open spec fn session_complete(s: SessionView) -> bool {
    s.selector matches SelView::Final(v) && v.depth >= 1
}

/// Well-formedness of a session: the selector phase is well formed, and a
/// fine phase that is still running has completed no subdivision yet, so the
/// session always stops at the first one.
pub open spec fn session_wf(s: SessionView) -> bool {
    match s.selector {
        SelView::Initial(v) => init_wf(v) && v.keycodes.len() <= FINE_ROWS as int
            * FINE_COLS as int,
        SelView::Final(v) => fine_wf(v) && v.depth <= 1,
    }
}

/// One input event against the session. A cancelled or completed session
/// absorbs every further event. An event whose de-duplication token was
/// already processed is ignored. Otherwise the token is recorded, a pressed
/// key steps the selector (a release does not), and the abort key — pressed
/// or released — cancels the session after the step.
pub open spec fn session_step(s: SessionView, serial: u32, key: u32, pressed: bool) -> SessionView {
    if s.cancelled || session_complete(s) {
        s
    } else if s.seen_serials.contains(serial) {
        s
    } else {
        let s1 = SessionView { seen_serials: s.seen_serials.push(serial), ..s };
        let s2 = if pressed {
            SessionView { selector: sel_step(s1.selector, key), ..s1 }
        } else {
            s1
        };
        if key == ABORT_KEY {
            SessionView { cancelled: true, ..s2 }
        } else {
            s2
        }
    }
}

impl Session {
    /// Builds a session in the coarse phase over the full surface, with no
    /// tokens processed and not cancelled. Fails exactly when the coarse
    /// grid cannot be built from this alphabet.
    pub fn new(
        keycodes: Vec<u32>,
        n_rows: usize,
        n_cols: usize,
        screen_width: usize,
        screen_height: usize,
    ) -> (result: Result<Session, crate::CoreError>)
        requires
            1 <= n_rows,
            1 <= n_cols,
            crate::selector::distinct_keys(keycodes@),
            keycodes@.len() <= FINE_ROWS as int * FINE_COLS as int,
        ensures
            match result {
                Ok(s) => {
                    &&& session_wf(s@)
                    &&& !s@.cancelled
                    &&& s@.seen_serials.len() == 0
                    &&& s@.selector matches SelView::Initial(v) && v.keycodes == keycodes@
                        && v.last_key is None && v.n_rows == n_rows as int && v.n_cols
                        == n_cols as int && v.screen_width == screen_width as int
                        && v.screen_height == screen_height as int
                },
                Err(e) => {
                    &&& e == crate::CoreError::AlphabetTooSmall
                    &&& keycodes@.len() < n_rows || keycodes@.len() < n_cols
                },
            },
    {
        let initial = match crate::selector::InitialSelector::new(
            keycodes,
            n_rows,
            n_cols,
            screen_width,
            screen_height,
        ) {
            Ok(initial) => initial,
            Err(e) => {
                return Err(e);
            },
        };
        Ok(
            Session {
                selector: SelectorState::Initial(initial),
                seen_serials: Vec::new(),
                cancelled: false,
            },
        )
    }

    /// Whether the selection has resolved.
    pub fn is_complete(&self) -> (result: bool)
        ensures
            result == session_complete(self@),
    {
        match &self.selector {
            SelectorState::Final(f) => f.depth >= 1,
            SelectorState::Initial(_) => false,
        }
    }

    /// Processes one input event, as `session_step` describes: duplicates
    /// and events after completion or cancellation are absorbed, a pressed
    /// key drives the selector, and the abort key cancels the session.
    pub fn on_key_event(&mut self, serial: u32, key: u32, pressed: bool)
        requires
            session_wf(old(self)@),
        ensures
            final(self)@ == session_step(old(self)@, serial, key, pressed),
            session_wf(final(self)@),
    {
        if self.cancelled || self.is_complete() {
            return ;
        }
        if contains_serial(&self.seen_serials, serial) {
            return ;
        }
        self.seen_serials.push(serial);
        if pressed {
            proof {
                assert(sel_wf(self@.selector));
            }
            self.selector.handle_key(key);
        }
        if key == ABORT_KEY {
            self.cancelled = true;
        }
    }

    /// The pointer placement for the resolved selection: the fine region's
    /// center, offset by the output's origin, within the output's bounds.
    /// None while the selection has not resolved.
    pub fn resolved_target(&self, geometry: OutputGeometry) -> (result: Option<PointerTarget>)
        requires
            geometry.x >= 0,
            geometry.y >= 0,
            geometry.width >= 0,
            geometry.height >= 0,
            self@.selector matches SelView::Final(v) ==> {
                &&& geometry.x + v.x + v.width / 2 <= u32::MAX
                &&& geometry.y + v.y + v.height / 2 <= u32::MAX
            },
        ensures
            match result {
                Some(t) => {
                    &&& session_complete(self@)
                    &&& self@.selector matches SelView::Final(v) && t == (PointerTarget {
                        x: (geometry.x + v.x + v.width / 2) as u32,
                        y: (geometry.y + v.y + v.height / 2) as u32,
                        bounds_width: geometry.width as u32,
                        bounds_height: geometry.height as u32,
                    })
                },
                None => !session_complete(self@),
            },
    {
        match &self.selector {
            SelectorState::Final(f) => {
                if f.depth >= 1 {
                    Some(
                        PointerTarget {
                            x: (geometry.x as u32) + (f.x as u32) + ((f.width / 2) as u32),
                            y: (geometry.y as u32) + (f.y as u32) + ((f.height / 2) as u32),
                            bounds_width: geometry.width as u32,
                            bounds_height: geometry.height as u32,
                        },
                    )
                } else {
                    None
                }
            },
            SelectorState::Initial(_) => None,
        }
    }
}

/// Linear search for an already-processed de-duplication token.
fn contains_serial(serials: &Vec<u32>, serial: u32) -> (result: bool)
    ensures
        result == serials@.contains(serial),
{
    let n = serials.len();
    let mut i: usize = 0;
    while i < n
        invariant
            i <= n,
            n == serials@.len(),
            forall|j: int| 0 <= j < i ==> serials@[j] != serial,
        decreases n - i,
    {
        if serials[i] == serial {
            return true;
        }
        i += 1;
    }
    proof {
        assert(!serials@.contains(serial));
    }
    false
}


/// The translucent grey backdrop bytes the overlay repaints over, in storage
/// order.
pub const BACKDROP_B: u8 = 129;

/// Green and red backdrop bytes.
pub const BACKDROP_G: u8 = 128;

/// Alpha backdrop byte.
pub const BACKDROP_A: u8 = 128;

/// One synchronous redraw pass: repaints the whole backing store with the
/// translucent grey backdrop, then draws the active selector overlay over
/// it, with rows laid out at the given screen width. The surface's
/// dimensions and lifecycle ledger are untouched.
pub fn redraw(selector: &SelectorState, surface: &mut PixelSurface, screen_width: usize)
    requires
        selector@ matches SelView::Initial(v) ==> init_wf(v),
        selector@ matches SelView::Final(v) ==> fine_wf(v),
    ensures
        final(surface).buf@ == sel_drawn(
            spec_fill_bytes(
                old(surface).buf@,
                (BACKDROP_B, BACKDROP_G, BACKDROP_G, BACKDROP_A),
            ),
            selector@,
            screen_width as int,
        ),
        final(surface).width == old(surface).width,
        final(surface).height == old(surface).height,
        final(surface).allocations == old(surface).allocations,
        final(surface).releases == old(surface).releases,
        final(surface).active == old(surface).active,
{
    fill_bytes(&mut surface.buf, (BACKDROP_B, BACKDROP_G, BACKDROP_G, BACKDROP_A));
    selector.draw(&mut surface.buf, screen_width);
}

} // verus!
