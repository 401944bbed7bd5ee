//! Fixed-capacity containers used by the kernel object database.

use vstd::prelude::*;
use vstd::string::StringSliceAdditionalSpecFns;

verus! {

/// A vector that never holds more than `N` elements. The kernel stores all of
/// its object tables in such vectors so that no table ever reallocates.
#[derive(Debug)]
pub struct StaticVec<T, const N: usize> {
    inner: Vec<T>,
}

impl<T, const N: usize> View for StaticVec<T, N> {
    type V = Seq<T>;

    closed spec fn view(&self) -> Seq<T> {
        self.inner@
    }
}

impl<T, const N: usize> StaticVec<T, N> {
    /// Capacity is respected: the live length never exceeds `N`.
    pub open spec fn wf(&self) -> bool {
        self@.len() <= N
    }

    pub fn new() -> (r: Self)
        ensures
            r@ == Seq::<T>::empty(),
            r.wf(),
    {
        StaticVec { inner: Vec::new() }
    }

    /// The backing store of the original is pre-filled with copies of a
    /// default element; only the live prefix is ever observable.
    pub fn new_with_default(default: T) -> (r: Self) where T: Copy
        ensures
            r@ == Seq::<T>::empty(),
            r.wf(),
    {
        let _ = default;
        StaticVec { inner: Vec::new() }
    }

    /// Appending past the capacity is a kernel fault, so it is excluded here.
    pub fn push(&mut self, data: T)
        requires
            old(self)@.len() < N,
        ensures
            final(self)@ == old(self)@.push(data),
    {
        self.inner.push(data);
    }

    /// When full: the first element is dropped, the last element takes its
    /// place, and the new element is appended.
    pub fn push_fifo(&mut self, data: T)
        requires
            old(self).wf(),
        ensures
            old(self)@.len() < N ==> final(self)@ == old(self)@.push(data),
            old(self)@.len() == N && N > 0 ==> final(self)@ == old(self)@.update(
                0,
                old(self)@[old(self)@.len() - 1],
            ).drop_last().push(data),
            N == 0 ==> final(self)@ == old(self)@,
    {
        if self.inner.len() >= N {
            if let Some(t) = self.inner.pop() {
                if self.inner.len() > 0 {
                    self.inner.set(0, t);
                }
            } else {
                return ;
            }
        }
        proof {
            if old(self)@.len() == N && N > 1 {
                assert(old(self)@.update(0, old(self)@[old(self)@.len() - 1]).drop_last()
                    =~= self.inner@);
            }
        }
        self.inner.push(data);
    }

    pub fn pop(&mut self) -> (r: Option<T>)
        ensures
            old(self)@.len() == 0 ==> r is None && final(self)@ == old(self)@,
            old(self)@.len() > 0 ==> r == Some(old(self)@[old(self)@.len() - 1]) && final(self)@
                == old(self)@.drop_last(),
    {
        self.inner.pop()
    }

    pub fn len(&self) -> (r: usize)
        ensures
            r == self@.len(),
    {
        self.inner.len()
    }

    pub fn max_len(&self) -> (r: usize)
        ensures
            r == N,
    {
        N
    }

    pub fn is_empty(&self) -> (r: bool)
        ensures
            r == (self@.len() == 0),
    {
        self.inner.len() == 0
    }

    pub fn get(&self, index: usize) -> (r: Option<&T>)
        ensures
            index < self@.len() ==> r == Some(&self@[index as int]),
            index >= self@.len() ==> r is None,
    {
        if index < self.inner.len() {
            Some(&self.inner[index])
        } else {
            None
        }
    }

    pub fn get_mut(&mut self, index: usize) -> (r: Option<&mut T>)
        ensures
            index < old(self)@.len() ==> (r matches Some(e) && *e == old(self)@[index as int]
                && final(self)@ == old(self)@.update(index as int, *final(e))),
            index >= old(self)@.len() ==> r is None && final(self)@ == old(self)@,
    {
        if index < self.inner.len() {
            Some(&mut self.inner[index])
        } else {
            None
        }
    }

    /// Overwrites the element at `index`.
    pub fn set(&mut self, index: usize, data: T)
        requires
            index < old(self)@.len(),
        ensures
            final(self)@ == old(self)@.update(index as int, data),
    {
        self.inner.set(index, data);
    }

    /// Mutable access to the element at `index`.
    pub(crate) fn at_mut(&mut self, index: usize) -> (r: &mut T)
        requires
            index < old(self)@.len(),
        ensures
            *r == old(self)@[index as int],
            final(self)@ == old(self)@.update(index as int, *final(r)),
    {
        &mut self.inner[index]
    }

    /// A borrow of the live elements, in order.
    pub fn iter(&self) -> (r: &Vec<T>)
        ensures
            r@ == self@,
    {
        &self.inner
    }
}

/// A fixed buffer of `N` bytes, NUL-padded past the live length.
#[derive(Debug, Clone)]
pub struct StaticString<const N: usize> {
    inner: Vec<u8>,
    size: usize,
}

impl<const N: usize> StaticString<N> {
    /// The whole `N`-byte backing buffer.
    pub closed spec fn raw(&self) -> Seq<u8> {
        self.inner@
    }

    pub closed spec fn spec_len(&self) -> nat {
        self.size as nat
    }

    pub open spec fn wf(&self) -> bool {
        self.raw().len() == N && self.spec_len() <= N
    }

    pub fn new() -> (r: Self)
        ensures
            r.wf(),
            r.spec_len() == 0,
            forall|i: int| 0 <= i < N ==> r.raw()[i] == 0u8,
    {
        let mut inner: Vec<u8> = Vec::new();
        let mut i: usize = 0;
        while i < N
            invariant
                i <= N,
                inner@.len() == i,
                forall|j: int| 0 <= j < i ==> inner@[j] == 0u8,
            decreases N - i,
        {
            inner.push(0u8);
            i = i + 1;
        }
        StaticString { inner, size: 0 }
    }

    pub fn len(&self) -> (r: usize)
        ensures
            r == self.spec_len(),
    {
        self.size
    }

    pub fn max_len(&self) -> (r: usize)
        ensures
            r == N,
    {
        N
    }

    pub fn bytes(&self) -> (r: &Vec<u8>)
        ensures
            r@ == self.raw(),
    {
        &self.inner
    }

    /// Mutable access to the backing buffer; the live length is unchanged.
    pub fn bytes_mut(&mut self) -> (r: &mut Vec<u8>)
        ensures
            r@ == old(self).raw(),
            final(self).raw() == final(r)@,
            final(self).spec_len() == old(self).spec_len(),
    {
        &mut self.inner
    }

    /// Copies the bytes of `s` into a fresh buffer; the rest stays NUL.
    pub fn from_str(s: &str) -> (r: Self)
        requires
            s.spec_bytes().len() <= N,
        ensures
            r.wf(),
            r.spec_len() == s.spec_bytes().len(),
            forall|i: int| 0 <= i < s.spec_bytes().len() ==> r.raw()[i] == s.spec_bytes()[i],
            forall|i: int| s.spec_bytes().len() <= i < N ==> r.raw()[i] == 0u8,
    {
        let b = s.as_bytes();
        let mut st = Self::new();
        let mut i: usize = 0;
        while i < b.len()
            invariant
                i <= b.len(),
                b@ == s.spec_bytes(),
                b@.len() <= N,
                st.wf(),
                st.spec_len() == 0,
                forall|j: int| 0 <= j < i ==> st.raw()[j] == b@[j],
                forall|j: int| i <= j < N ==> st.raw()[j] == 0u8,
            decreases b.len() - i,
        {
            st.inner.set(i, b[i]);
            i = i + 1;
        }
        st.size = b.len();
        st
    }
}

/// A marker for a trailing array that lives directly past its header in an
/// arena; it carries no data of its own.
pub struct FlexibleArray<T> {
    _marker: core::marker::PhantomData<T>,
}

impl<T> FlexibleArray<T> {
    pub fn new() -> (r: Self)
        ensures
            true,
    {
        FlexibleArray { _marker: core::marker::PhantomData }
    }
}

} // verus!
