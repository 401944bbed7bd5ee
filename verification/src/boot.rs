//! The loader's bump allocator, modelled over offsets into its fixed heap.
//! The heap bytes themselves and the atomics around the offset are the
//! loader's; what is verified is the arithmetic that carves the heap.

use vstd::prelude::*;

verus! {

/// A bump allocator over a heap of `HEAP_SIZE` bytes; allocations only ever
/// move the watermark forward, except when the newest block is returned.
pub struct BumpAllocator<const HEAP_SIZE: usize> {
    offset: usize,
}

impl<const HEAP_SIZE: usize> BumpAllocator<HEAP_SIZE> {
    pub closed spec fn spec_offset(&self) -> usize {
        self.offset
    }

    pub fn new() -> (r: Self)
        ensures
            r.spec_offset() == 0,
    {
        BumpAllocator { offset: 0 }
    }

    /// Hands out the aligned offset of a fresh block, or `None` when the
    /// heap cannot hold it. The heap base is taken to be aligned for any
    /// alignment a layout can carry.
    pub fn allocate(&mut self, size: usize, align: usize) -> (r: Option<usize>)
        requires
            align > 0,
            old(self).spec_offset() <= HEAP_SIZE,
        ensures
            final(self).spec_offset() <= HEAP_SIZE,
            match r {
                Some(p) => {
                    &&& p % align == 0
                    &&& old(self).spec_offset() <= p
                    &&& p + size <= HEAP_SIZE
                    &&& final(self).spec_offset() == p + size
                },
                None => final(self).spec_offset() == old(self).spec_offset(),
            },
    {
        let rem = self.offset % align;
        let pad = if rem == 0 {
            0
        } else {
            align - rem
        };
        if pad > HEAP_SIZE - self.offset {
            return None;
        }
        let p = self.offset + pad;
        if size > HEAP_SIZE - p {
            return None;
        }
        proof {
            let o = self.offset as int;
            let a = align as int;
            vstd::arithmetic::div_mod::lemma_fundamental_div_mod(o, a);
            vstd::arithmetic::div_mod::lemma_mod_bound(o, a);
            if o % a != 0 {
                vstd::arithmetic::div_mod::lemma_mod_multiples_vanish(o / a + 1, 0int, a);
                assert((o + (a - o % a)) % a == 0) by (nonlinear_arith)
                    requires
                        o == a * (o / a) + o % a,
                        (a * (o / a + 1) + 0int) % a == 0int % a,
                        a > 0,
                ;
            }
        }
        self.offset = p + size;
        Some(p)
    }

    /// Returns a block: only the newest allocation can be taken back, by
    /// rewinding the watermark to its start.
    pub fn dealloc(&mut self, start: usize, size: usize)
        requires
            start + size <= usize::MAX,
        ensures
            start + size == old(self).spec_offset() ==> final(self).spec_offset() == start,
            start + size != old(self).spec_offset() ==> final(self).spec_offset() == old(
                self,
            ).spec_offset(),
    {
        if start + size == self.offset {
            self.offset = start;
        }
    }
}

} // verus!
