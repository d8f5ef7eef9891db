//! The worker id allocator: an explicit counter owned by whoever spawns
//! workers, in place of a process-wide atomic, so that sessions cannot
//! collide.

use vstd::prelude::*;

verus! {

/// Hands out worker ids in order, wrapping at the type bound.
#[derive(Clone, Copy, PartialEq, Eq, Structural, Debug)]
pub struct IdAllocator {
    pub next: u16,
}

impl IdAllocator {
    /// An allocator that starts at id zero.
    pub fn new() -> (r: IdAllocator)
        ensures
            r.next == 0,
    {
        IdAllocator { next: 0 }
    }

    /// Returns a new id, advancing the counter (wrapping at the bound).
    pub fn new_id(&mut self) -> (r: u16)
        ensures
            r == old(self).next,
            final(self).next == (old(self).next + 1) % 0x10000,
    {
        let r = self.next;
        self.next = if self.next == 0xFFFF {
            0
        } else {
            self.next + 1
        };
        r
    }
}

/// Returns a new id for the global id system.
pub fn get_new_id(alloc: &mut IdAllocator) -> (r: u16)
    ensures
        r == old(alloc).next,
        final(alloc).next == (old(alloc).next + 1) % 0x10000,
{
    alloc.new_id()
}

} // verus!
