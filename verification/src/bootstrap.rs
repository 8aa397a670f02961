//! Bootstrap metadata allocator.
//!
//! Free-block descriptors need storage before (and while) the general
//! free list exists.  A private monotonic cursor over a reserved
//! metadata region hands out fixed-size node slots; slots are never
//! reclaimed, so the cursor only advances.  Running out of slots is a
//! fatal allocator-wide failure, distinct from ordinary out-of-memory,
//! because no further bookkeeping can occur.

use vstd::prelude::*;

verus! {

/// Size in bytes of the reserved region that descriptor slots are
/// carved from.
pub const META_REGION_SIZE: usize = 16384;

/// Size in bytes of one free-block descriptor slot (start, size and a
/// link, rounded up to a comfortable power of two).
pub const META_NODE_SIZE: usize = 32;

/// Monotonic bump allocator for free-block descriptor slots.
pub struct BootstrapAlloc {
    cursor: usize,
}

impl BootstrapAlloc {
    /// Offset of the next unissued slot; equivalently, the number of
    /// metadata bytes handed out so far.
    pub closed spec fn cursor(self) -> int {
        self.cursor as int
    }

    pub closed spec fn wf(self) -> bool {
        self.cursor <= META_REGION_SIZE && self.cursor as int % (META_NODE_SIZE as int) == 0
    }

    /// Whether one more descriptor slot can still be issued.
    pub open spec fn has_slot(self) -> bool {
        self.cursor() + META_NODE_SIZE <= META_REGION_SIZE
    }

    pub fn new() -> (r: BootstrapAlloc)
        ensures
            r.wf(),
            r.cursor() == 0,
    {
        BootstrapAlloc { cursor: 0 }
    }

    /// Issues the next descriptor slot, or reports exhaustion.  The
    /// cursor never moves backwards: issued slots are never reclaimed.
    pub fn alloc_node(&mut self) -> (r: Option<usize>)
        requires
            old(self).wf(),
        ensures
            final(self).wf(),
            old(self).has_slot() ==> (r matches Some(slot) && slot as int == old(self).cursor())
                && final(self).cursor() == old(self).cursor() + META_NODE_SIZE,
            !old(self).has_slot() ==> r == None::<usize> && *final(self) == *old(self),
    {
        if self.cursor + META_NODE_SIZE <= META_REGION_SIZE {
            let slot = self.cursor;
            self.cursor = self.cursor + META_NODE_SIZE;
            Some(slot)
        } else {
            None
        }
    }
}

} // verus!
