//! Keyboard-driven pixel picker core: a two-phase grid selection state
//! machine, pixel compositing primitives for the grid overlay, and the
//! lifecycle of the shared framebuffer the overlay is rendered into.
use vstd::prelude::*;

pub mod render;
pub mod selector;
pub mod session;
pub mod surface;

verus! {

/// The failure modes of the core. Unrecognized or mismatched keys are not
/// errors: the selectors absorb them as no-ops.
#[derive(Clone, Copy, Debug, PartialEq, Eq, Structural)]
pub enum CoreError {
    /// The backing store for the framebuffer could not be created.
    AllocationFailure,
    /// A pixel write addressed a coordinate outside the surface extents.
    BoundsViolation,
    /// A selector was configured with fewer keys than grid lanes.
    AlphabetTooSmall,
}

} // verus!
