//! A bounds-checked byte region.

use vstd::prelude::*;

verus! {

/// A fixed-size scratch region with checked reads and writes.
pub struct MemoryRegion {
    data: Vec<u8>,
    limit: usize,
}

impl MemoryRegion {
    pub closed spec fn spec_data(&self) -> Seq<u8> {
        self.data@
    }

    pub closed spec fn spec_limit(&self) -> usize {
        self.limit
    }

    pub open spec fn wf(&self) -> bool {
        self.spec_data().len() == self.spec_limit()
    }

    /// A zeroed region of `size` bytes.
    pub fn new(size: usize) -> (r: Self)
        ensures
            r.wf(),
            r.spec_limit() == size,
            forall|i: int| 0 <= i < size ==> r.spec_data()[i] == 0u8,
    {
        let mut data: Vec<u8> = Vec::new();
        let mut i: usize = 0;
        while i < size
            invariant
                i <= size,
                data@.len() == i,
                forall|j: int| 0 <= j < i ==> data@[j] == 0u8,
            decreases size - i,
        {
            data.push(0);
            i = i + 1;
        }
        MemoryRegion { data, limit: size }
    }

    /// Copies `input` in at `offset`; anything out of bounds is rejected
    /// whole.
    pub fn write(&mut self, offset: usize, input: &[u8]) -> (r: Result<(), &'static str>)
        requires
            old(self).wf(),
            offset + input@.len() <= usize::MAX,
        ensures
            final(self).wf(),
            final(self).spec_limit() == old(self).spec_limit(),
            offset + input@.len() > old(self).spec_limit() ==> r is Err && final(self).spec_data()
                == old(self).spec_data(),
            offset + input@.len() <= old(self).spec_limit() ==> r is Ok && final(self).spec_data()
                == old(self).spec_data().take(offset as int) + input@ + old(self).spec_data().skip(offset + input@.len()),
    {
        if offset > self.limit || input.len() > self.limit - offset {
            return Err("Memory access out of bounds");
        }
        let n = input.len();
        let mut i: usize = 0;
        while i < n
            invariant
                self.wf(),
                self.spec_limit() == old(self).spec_limit(),
                n == input@.len(),
                offset + n <= self.spec_limit(),
                i <= n,
                forall|j: int| 0 <= j < offset ==> self.spec_data()[j] == old(self).spec_data()[j],
                forall|j: int| 0 <= j < i ==> self.spec_data()[offset + j] == input@[j],
                forall|j: int| offset + n <= j < self.spec_limit() ==> self.spec_data()[j] == old(self).spec_data()[j],
                forall|j: int| offset + i <= j < offset + n ==> self.spec_data()[j] == old(self).spec_data()[j],
            decreases n - i,
        {
            self.data.set(offset + i, input[i]);
            i = i + 1;
        }
        proof {
            assert(self.spec_data() =~= old(self).spec_data().take(offset as int) + input@ + old(self).spec_data().skip(offset + input@.len()));
        }
        Ok(())
    }

    /// Copies `len` bytes out from `offset`; anything out of bounds is
    /// rejected whole.
    pub fn read(&self, offset: usize, len: usize) -> (r: Result<Vec<u8>, &'static str>)
        requires
            self.wf(),
            offset + len <= usize::MAX,
        ensures
            offset + len > self.spec_limit() ==> r is Err,
            offset + len <= self.spec_limit() ==> (r matches Ok(v) && v@
                == self.spec_data().subrange(offset as int, offset + len)),
    {
        if offset > self.limit || len > self.limit - offset {
            return Err("Memory access out of bounds");
        }
        let mut v: Vec<u8> = Vec::new();
        let mut i: usize = 0;
        while i < len
            invariant
                self.wf(),
                offset + len <= self.spec_limit(),
                i <= len,
                v@.len() == i,
                forall|j: int| 0 <= j < i ==> v@[j] == self.spec_data()[offset + j],
            decreases len - i,
        {
            v.push(self.data[offset + i]);
            i = i + 1;
        }
        proof {
            assert(v@ =~= self.spec_data().subrange(offset as int, offset + len));
        }
        Ok(v)
    }
}

} // verus!
