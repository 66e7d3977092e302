//! The overlay framebuffer's backing-store lifecycle: allocation, resize
//! (always a fresh backing block, never grown in place), and release. The
//! ledger of allocations and releases carries the invariant that an active
//! surface is backed by exactly one live block.
use vstd::prelude::*;

verus! {

/// The pixel backing store of the overlay surface. `buf` holds the current
/// backing block; `allocations` counts backing blocks ever created for this
/// surface, `releases` those already released. The type only moves, so one
/// backing store can never end up with two owners.
#[derive(Debug)]
pub struct PixelSurface {
    pub width: usize,
    pub height: usize,
    pub buf: Vec<u8>,
    pub allocations: u64,
    pub releases: u64,
    pub active: bool,
}

/// Well-formedness of a surface: an active surface is backed by exactly one
/// unreleased block, sized to double the exact pixel requirement (to
/// tolerate small dimension changes); a released surface has no live block
/// and an empty buffer.
pub open spec fn surface_wf(s: PixelSurface) -> bool {
    &&& s.active ==> s.allocations == s.releases + 1
    &&& !s.active ==> s.allocations == s.releases
    &&& s.active ==> s.buf@.len() == 2 * (s.width as int) * (s.height as int) * 4
    &&& !s.active ==> s.buf@.len() == 0
}

/// The backing byte length for a surface of the given dimensions: double the
/// exact four-bytes-per-pixel requirement.
pub open spec fn backing_len(width: int, height: int) -> int {
    2 * width * height * 4
}

fn zeroed(len: usize) -> (result: Vec<u8>)
    ensures
        result@.len() == len,
        forall|i: int| 0 <= i < len ==> result@[i] == 0u8,
{
    let mut out: Vec<u8> = Vec::new();
    let mut i: usize = 0;
    while i < len
        invariant
            i <= len,
            out@.len() == i,
            forall|j: int| 0 <= j < i ==> out@[j] == 0u8,
        decreases len - i,
    {
        out.push(0);
        i += 1;
    }
    out
}

fn checked_backing_len(width: usize, height: usize) -> (result: Option<usize>)
    ensures
        match result {
            Some(n) => n as int == backing_len(width as int, height as int),
            None => backing_len(width as int, height as int) > usize::MAX,
        },
{
    let px = match width.checked_mul(height) {
        Some(px) => px,
        None => {
            proof {
                assert((width as int) * (height as int) * 4 * 2 >= (width as int) * (height
                    as int)) by (nonlinear_arith)
                    requires (width as int) * (height as int) > usize::MAX;
                assert(2 * (width as int) * (height as int) * 4 == (width as int) * (height
                    as int) * 4 * 2) by (nonlinear_arith);
            }
            return None;
        },
    };
    let n = match px.checked_mul(8) {
        Some(n) => n,
        None => {
            proof {
                assert(2 * (width as int) * (height as int) * 4 == ((width as int) * (height
                    as int)) * 8) by (nonlinear_arith);
            }
            return None;
        },
    };
    proof {
        assert(2 * (width as int) * (height as int) * 4 == ((width as int) * (height as int))
            * 8) by (nonlinear_arith);
    }
    Some(n)
}

impl PixelSurface {
    /// Creates the surface with a fresh zeroed backing block of double the
    /// exact pixel requirement. Fails with an allocation error exactly when
    /// that byte length is not representable.
    pub fn new(width: usize, height: usize) -> (result: Result<PixelSurface, crate::CoreError>)
        ensures
            match result {
                Ok(s) => {
                    &&& surface_wf(s)
                    &&& s.active
                    &&& s.width == width
                    &&& s.height == height
                    &&& s.allocations == 1
                    &&& s.releases == 0
                    &&& s.buf@.len() == backing_len(width as int, height as int)
                    &&& forall|i: int| 0 <= i < s.buf@.len() ==> s.buf@[i] == 0u8
                },
                Err(e) => {
                    &&& e == crate::CoreError::AllocationFailure
                    &&& backing_len(width as int, height as int) > usize::MAX
                },
            },
    {
        let n = match checked_backing_len(width, height) {
            Some(n) => n,
            None => {
                return Err(crate::CoreError::AllocationFailure);
            },
        };
        Ok(
            PixelSurface {
                width,
                height,
                buf: zeroed(n),
                allocations: 1,
                releases: 0,
                active: true,
            },
        )
    }

    /// Replaces the backing block with a brand-new zeroed one sized for the
    /// new dimensions, releasing the previous block in the same step: the
    /// ledger gains one allocation and one release, so exactly one block
    /// stays live. Contents are not preserved — the surface must be fully
    /// repainted. Fails, leaving the surface unchanged, exactly when the new
    /// byte length is not representable.
    pub fn resize(&mut self, width: usize, height: usize) -> (result: Result<
        (),
        crate::CoreError,
    >)
        requires
            surface_wf(*old(self)),
            old(self).active,
            old(self).allocations < u64::MAX,
        ensures
            match result {
                Ok(()) => {
                    &&& surface_wf(*final(self))
                    &&& final(self).active
                    &&& final(self).width == width
                    &&& final(self).height == height
                    &&& final(self).allocations == old(self).allocations + 1
                    &&& final(self).releases == old(self).releases + 1
                    &&& final(self).buf@.len() == backing_len(width as int, height as int)
                    &&& forall|i: int| 0 <= i < final(self).buf@.len() ==> final(self).buf@[i]
                        == 0u8
                },
                Err(e) => {
                    &&& e == crate::CoreError::AllocationFailure
                    &&& backing_len(width as int, height as int) > usize::MAX
                    &&& *final(self) == *old(self)
                },
            },
    {
        let n = match checked_backing_len(width, height) {
            Some(n) => n,
            None => {
                return Err(crate::CoreError::AllocationFailure);
            },
        };
        self.buf = zeroed(n);
        self.width = width;
        self.height = height;
        self.allocations = self.allocations + 1;
        self.releases = self.releases + 1;
        Ok(())
    }

    /// Releases the backing block: the surface becomes inactive with no live
    /// allocation left. Runs once per surface; a released surface cannot be
    /// released again.
    pub fn release(&mut self)
        requires
            surface_wf(*old(self)),
            old(self).active,
        ensures
            surface_wf(*final(self)),
            !final(self).active,
            final(self).releases == old(self).releases + 1,
            final(self).allocations == old(self).allocations,
            final(self).width == old(self).width,
            final(self).height == old(self).height,
    {
        proof {
            assert(self.releases < u64::MAX);
        }
        self.buf = Vec::new();
        self.releases = self.releases + 1;
        self.active = false;
    }
}

/// Law: an active well-formed surface is backed by exactly one live
/// allocation — every backing block created before the current one has been
/// released.
pub proof fn lemma_single_backing(s: PixelSurface)
    requires
        surface_wf(s),
        s.active,
    ensures
        s.allocations == s.releases + 1,
{
}

} // verus!
