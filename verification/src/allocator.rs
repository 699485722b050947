//! Slab allocator arena: a fixed block of memory and how much of it is used.
use vstd::prelude::*;

verus! {

pub struct SlabAllocator {
    arena: Vec<u8>,
    total: usize,
    used: usize,
}

impl SlabAllocator {
    /// Bytes handed out.
    pub closed spec fn spec_used(&self) -> nat {
        self.used as nat
    }

    /// Size of the arena.
    pub closed spec fn spec_total(&self) -> nat {
        self.total as nat
    }

    /// Used never exceeds the arena size, which matches the buffer.
    pub closed spec fn wf(&self) -> bool {
        self.used <= self.total && self.arena@.len() == self.total
    }

    /// A zeroed arena of `total_bytes`, nothing used.
    pub fn new(total_bytes: usize) -> (r: Self)
        ensures
            r.wf(),
            r.spec_total() == total_bytes,
            r.spec_used() == 0,
    {
        let mut arena: Vec<u8> = Vec::new();
        let mut i: usize = 0;
        while i < total_bytes
            invariant
                i <= total_bytes,
                arena@.len() == i,
            decreases total_bytes - i,
        {
            arena.push(0u8);
            i = i + 1;
        }
        Self { arena, total: total_bytes, used: 0 }
    }

    pub fn used(&self) -> (r: usize)
        ensures
            r == self.spec_used(),
    {
        self.used
    }

    pub fn available(&self) -> (r: usize)
        requires
            self.wf(),
        ensures
            r == self.spec_total() - self.spec_used(),
    {
        self.total - self.used
    }
}

} // verus!
