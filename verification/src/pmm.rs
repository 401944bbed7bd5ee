//! Physical page manager: a bitmap frame allocator over arenas derived from
//! the firmware memory map's conventional entries.
//!
//! Frames are 4 KiB. Handles are globally ordered: arena 0 owns handles
//! `[0, n0)`, arena 1 owns `[n0, n0 + n1)`, and so on. Each arena keeps one
//! bitmap bit per frame; the pages holding the bitmap itself are permanently
//! marked used.

use vstd::prelude::*;
use vstd::pervasive::unreached;
use crate::containers::StaticVec;

verus! {

pub const PAGE_SIZE: usize = 4096;

/// One entry of the firmware memory map, as handed over by the loader.
pub struct MemoryEntry {
    pub virt: u64,
    pub phys: u64,
    pub page_count: u64,
    pub attribute: u64,
    pub type_: u32,
}

/// Weakly typed firmware memory kinds; only `CONVENTIONAL` becomes an arena.
pub struct MemoryType(pub u32);

impl MemoryType {
    pub const RESERVED: u32 = 0;
    pub const LOADER_CODE: u32 = 1;
    pub const LOADER_DATA: u32 = 2;
    pub const BOOT_SERVICES_CODE: u32 = 3;
    pub const BOOT_SERVICES_DATA: u32 = 4;
    pub const RUNTIME_SERVICES_CODE: u32 = 5;
    pub const RUNTIME_SERVICES_DATA: u32 = 6;
    pub const CONVENTIONAL: u32 = 7;
    pub const UNUSABLE: u32 = 8;
    pub const ACPI_RECLAIM: u32 = 9;
    pub const ACPI_NON_VOLATILE: u32 = 10;
    pub const MMIO: u32 = 11;
    pub const MMIO_PORT_SPACE: u32 = 12;
    pub const PAL_CODE: u32 = 13;
    pub const PERSISTENT_MEMORY: u32 = 14;
    pub const UNACCEPTED: u32 = 15;
    pub const MAX: u32 = 16;
}

/// Bit `k` of the word `w`.
pub open spec fn nth_bit(w: u64, k: u64) -> bool {
    (w >> k) & 1u64 == 1u64
}

/// Bit `i` of a bitmap laid out as 64-bit words.
pub open spec fn word_bit(bm: Seq<u64>, i: int) -> bool {
    nth_bit(bm[i / 64], (i % 64) as u64)
}

/// How many of the frames `[0, n)` are free in the bitmap.
pub open spec fn free_upto(bm: Seq<u64>, n: int) -> int
    decreases n,
{
    if n <= 0 {
        0
    } else {
        free_upto(bm, n - 1) + if word_bit(bm, n - 1) {
            0int
        } else {
            1int
        }
    }
}

/// One contiguous physical range with its frame bitmap.
pub struct Arena {
    base: usize,
    length: usize,
    bitmap: Vec<u64>,
}

impl Arena {
    pub closed spec fn spec_base(&self) -> int {
        self.base as int
    }

    pub closed spec fn spec_length(&self) -> int {
        self.length as int
    }

    pub closed spec fn spec_bitmap(&self) -> Seq<u64> {
        self.bitmap@
    }

    /// Also the number of handles this arena owns.
    pub open spec fn spec_num_pages(&self) -> int {
        self.spec_length() / (PAGE_SIZE as int)
    }

    pub open spec fn spec_bitmap_words(&self) -> int {
        (self.spec_num_pages() + 63) / 64
    }

    /// How many frames at the arena head the bitmap itself occupies.
    pub open spec fn spec_bitmap_pages(&self) -> int {
        (self.spec_bitmap_words() * 8 + (PAGE_SIZE - 1)) / (PAGE_SIZE as int)
    }

    pub open spec fn bit_set(&self, i: int) -> bool {
        word_bit(self.spec_bitmap(), i)
    }

    pub open spec fn is_free(&self, i: int) -> bool {
        0 <= i < self.spec_num_pages() && !self.bit_set(i)
    }

    pub open spec fn spec_free_count(&self) -> int {
        free_upto(self.spec_bitmap(), self.spec_num_pages())
    }

    /// Geometry is sound and the bitmap's own frames are marked used.
    pub open spec fn wf(&self) -> bool {
        &&& self.spec_base() > 0
        &&& self.spec_base() % (PAGE_SIZE as int) == 0
        &&& self.spec_length() % (PAGE_SIZE as int) == 0
        &&& self.spec_base() + self.spec_length() <= usize::MAX
        &&& self.spec_bitmap().len() == self.spec_bitmap_words()
        &&& forall|i: int| 0 <= i < self.spec_bitmap_pages() && i < self.spec_num_pages()
            ==> self.bit_set(i)
    }

    /// Two arenas share the same frame geometry and differ in no bit but `j`.
    pub open spec fn same_but(&self, other: &Arena, j: int) -> bool {
        &&& self.spec_base() == other.spec_base()
        &&& self.spec_length() == other.spec_length()
        &&& self.spec_bitmap().len() == other.spec_bitmap().len()
        &&& forall|i: int| 0 <= i < self.spec_num_pages() && i != j ==> self.bit_set(i)
            == other.bit_set(i)
    }

    pub fn new(base: usize, length: usize) -> (r: Self)
        ensures
            r.spec_base() == base,
            r.spec_length() == length,
            r.spec_bitmap() == Seq::<u64>::empty(),
    {
        Arena { base, length, bitmap: Vec::new() }
    }

    pub fn get_num_pages(&self) -> (r: usize)
        ensures
            r == self.spec_num_pages(),
    {
        self.length / PAGE_SIZE
    }

    pub fn get_base(&self) -> (r: usize)
        ensures
            r == self.spec_base(),
    {
        self.base
    }

    /// One word of the bitmap.
    pub fn bitmap_word(&self, w: usize) -> (r: u64)
        requires
            w < self.spec_bitmap().len(),
        ensures
            r == self.spec_bitmap()[w as int],
    {
        self.bitmap[w]
    }

    /// Counts this arena's free frames by walking the bitmap.
    pub fn free_count(&self) -> (r: usize)
        requires
            self.wf(),
            self.spec_num_pages() <= u16::MAX + 1,
        ensures
            r == self.spec_free_count(),
            r <= self.spec_num_pages(),
    {
        let np = self.length / PAGE_SIZE;
        let mut c: usize = 0;
        let mut i: usize = 0;
        while i < np
            invariant
                self.wf(),
                np == self.spec_num_pages(),
                np <= u16::MAX + 1,
                i <= np,
                c == free_upto(self.spec_bitmap(), i as int),
                c <= i,
            decreases np - i,
        {
            proof {
                assert(i as int / 64 < self.spec_bitmap().len());
            }
            let w = self.bitmap[i / 64];
            let k: u64 = (i % 64) as u64;
            if (w >> k) & 1u64 == 0u64 {
                c = c + 1;
            } else {
                proof {
                    let wv = w;
                    let kv = k;
                    assert((wv >> kv) & 1u64 == 1u64) by (bit_vector)
                        requires
                            (wv >> kv) & 1u64 != 0u64,
                    ;
                }
            }
            i = i + 1;
        }
        c
    }

    /// Rebuilds the bitmap: everything free except the bitmap's own frames.
    pub fn reset_heap(&mut self)
        requires
            old(self).spec_length() % (PAGE_SIZE as int) == 0,
        ensures
            final(self).spec_base() == old(self).spec_base(),
            final(self).spec_length() == old(self).spec_length(),
            final(self).spec_bitmap().len() == final(self).spec_bitmap_words(),
            forall|i: int| 0 <= i < final(self).spec_num_pages() ==> final(self).bit_set(i) == (
            i < final(self).spec_bitmap_pages()),
    {
        let num_pages = self.length / PAGE_SIZE;
        let words = (num_pages + 63) / 64;
        let mut bm: Vec<u64> = Vec::new();
        let mut i: usize = 0;
        while i < words
            invariant
                i <= words,
                bm@.len() == i,
                forall|j: int| 0 <= j < i ==> bm@[j] == 0u64,
            decreases words - i,
        {
            bm.push(0u64);
            i = i + 1;
        }
        assert forall|j: int| 0 <= j < num_pages implies !word_bit(bm@, j) by {
            assert(bm@[j / 64] == 0u64);
            assert(forall|b: u64| b < 64 ==> !nth_bit(0u64, b)) by (bit_vector);
            assert(0 <= j % 64 < 64);
        }
        // Mark the frames that hold the bitmap itself as used.
        let bitmap_bytes = words * 8;
        let bitmap_pages = (bitmap_bytes + (PAGE_SIZE - 1)) / PAGE_SIZE;
        let mut k: usize = 0;
        while k < bitmap_pages && k < num_pages
            invariant
                k <= num_pages,
                k <= bitmap_pages,
                bitmap_pages == (words * 8 + (PAGE_SIZE - 1)) as int / (PAGE_SIZE as int),
                bm@.len() == words,
                words == (num_pages + 63) as int / 64,
                forall|j: int| 0 <= j < num_pages ==> word_bit(bm@, j) == (j < k),
            decreases num_pages - k,
        {
            proof {
                assert(k as int / 64 < words as int);
            }
            let w = bm[k / 64];
            let ghost prev = bm@;
            bm.set(k / 64, w | (1u64 << ((k % 64) as u64)));
            proof {
                lemma_word_set_bit(prev, bm@, k as int);
            }
            k = k + 1;
        }
        proof {
            assert(k == bitmap_pages || k == num_pages);
        }
        self.bitmap = bm;
        proof {
            assert(self.spec_num_pages() == num_pages as int);
            assert(self.spec_bitmap_words() == words as int);
            assert(self.spec_bitmap_pages() == bitmap_pages as int);
            assert forall|i: int| 0 <= i < self.spec_num_pages() implies self.bit_set(i) == (i
                < self.spec_bitmap_pages()) by {
                assert(word_bit(bm@, i) == (i < k));
            }
        }
    }

    /// First-fit scan: returns the lowest free frame and marks it used.
    pub fn alloc_page(&mut self) -> (r: Option<u16>)
        requires
            old(self).wf(),
            old(self).spec_num_pages() <= u16::MAX + 1,
        ensures
            final(self).wf(),
            match r {
                Some(j) => {
                    &&& old(self).is_free(j as int)
                    &&& forall|i: int| 0 <= i < j ==> !old(self).is_free(i)
                    &&& final(self).bit_set(j as int)
                    &&& final(self).same_but(old(self), j as int)
                    &&& final(self).spec_free_count() == old(self).spec_free_count() - 1
                },
                None => {
                    &&& *final(self) == *old(self)
                    &&& forall|i: int| !old(self).is_free(i)
                    &&& old(self).spec_free_count() == 0
                },
            },
    {
        let num_pages = self.length / PAGE_SIZE;
        let mut j: usize = 0;
        while j < num_pages
            invariant
                self == old(self),
                j <= num_pages,
                num_pages == old(self).spec_num_pages(),
                old(self).wf(),
                num_pages <= u16::MAX + 1,
                forall|i: int| 0 <= i < j ==> !old(self).is_free(i),
            decreases num_pages - j,
        {
            proof {
                assert(j as int / 64 < old(self).spec_bitmap().len());
            }
            let w = self.bitmap[j / 64];
            let k: u64 = (j % 64) as u64;
            if (w >> k) & 1u64 == 0u64 {
                let ghost prev = self.bitmap@;
                let nw = w | (1u64 << k);
                self.bitmap.set(j / 64, nw);
                proof {
                    lemma_word_set_bit(prev, self.bitmap@, j as int);
                    lemma_free_upto_set(prev, self.bitmap@, j as int,
                        self.spec_num_pages());
                    assert forall|i: int| 0 <= i < final(self).spec_bitmap_pages() && i
                        < final(self).spec_num_pages() implies final(self).bit_set(i) by {
                        if i != j {
                            assert(old(self).bit_set(i));
                        }
                    }
                }
                return Some(j as u16);
            }
            proof {
                let wv = w;
                let kv = k;
                assert((wv >> kv) & 1u64 == 1u64) by (bit_vector)
                    requires
                        (wv >> kv) & 1u64 != 0u64,
                ;
                assert(!old(self).is_free(j as int));
            }
            j = j + 1;
        }
        proof {
            assert forall|i: int| 0 <= i < self.spec_num_pages() implies word_bit(
                self.spec_bitmap(),
                i,
            ) by {
                assert(!old(self).is_free(i));
            }
            lemma_free_upto_none(self.spec_bitmap(), self.spec_num_pages());
            assert forall|i: int| !old(self).is_free(i) by {
                if 0 <= i < old(self).spec_num_pages() {
                    assert(!old(self).is_free(i));
                }
            }
        }
        None
    }

    /// Frees a frame this arena owns. Freeing an unallocated frame or one of
    /// the bitmap's own frames is a kernel fault, so both are excluded.
    pub fn free_page(&mut self, handle: u16)
        requires
            old(self).wf(),
            (handle as int) < old(self).spec_num_pages(),
            old(self).bit_set(handle as int),
            handle as int >= old(self).spec_bitmap_pages(),
        ensures
            final(self).wf(),
            !final(self).bit_set(handle as int),
            final(self).same_but(old(self), handle as int),
            final(self).spec_free_count() == old(self).spec_free_count() + 1,
    {
        let j = handle as usize;
        proof {
            assert(j as int / 64 < old(self).spec_bitmap().len());
        }
        let w = self.bitmap[j / 64];
        let ghost prev = self.bitmap@;
        self.bitmap.set(j / 64, w & !(1u64 << ((j % 64) as u64)));
        proof {
            lemma_word_clear_bit(prev, self.bitmap@, j as int);
            lemma_free_upto_clear(prev, self.bitmap@, j as int, self.spec_num_pages());
            assert forall|i: int| 0 <= i < self.spec_bitmap_pages() && i
                < self.spec_num_pages() implies self.bit_set(i) by {
                assert(i != j as int);
                assert(old(self).bit_set(i));
            }
        }
    }
}

/// Sets bit `j`: every other bit is unchanged.
proof fn lemma_word_set_bit(prev: Seq<u64>, now: Seq<u64>, j: int)
    requires
        0 <= j,
        j / 64 < prev.len(),
        now == prev.update(j / 64, prev[j / 64] | (1u64 << ((j % 64) as u64))),
    ensures
        word_bit(now, j),
        forall|i: int| 0 <= i && i != j && i / 64 < prev.len() ==> word_bit(now, i) == word_bit(
            prev,
            i,
        ),
{
    let w = prev[j / 64];
    let k = (j % 64) as u64;
    assert(k < 64) by {
        assert(0 <= j % 64 < 64);
    }
    assert(nth_bit(w | (1u64 << k), k)) by (bit_vector)
        requires
            k < 64,
    ;
    assert forall|i: int| 0 <= i && i != j && i / 64 < prev.len() implies word_bit(now, i)
        == word_bit(prev, i) by {
        if i / 64 == j / 64 {
            let ki = (i % 64) as u64;
            assert(ki != k);
            assert(forall|b: u64| b < 64 && b != k ==> nth_bit(w | (1u64 << k), b) == nth_bit(
                w,
                b,
            )) by (bit_vector)
                requires
                    k < 64,
            ;
        }
    }
}

/// Clears bit `j`: every other bit is unchanged.
proof fn lemma_word_clear_bit(prev: Seq<u64>, now: Seq<u64>, j: int)
    requires
        0 <= j,
        j / 64 < prev.len(),
        now == prev.update(j / 64, prev[j / 64] & !(1u64 << ((j % 64) as u64))),
    ensures
        !word_bit(now, j),
        forall|i: int| 0 <= i && i != j && i / 64 < prev.len() ==> word_bit(now, i) == word_bit(
            prev,
            i,
        ),
{
    let w = prev[j / 64];
    let k = (j % 64) as u64;
    assert(k < 64) by {
        assert(0 <= j % 64 < 64);
    }
    assert(!nth_bit(w & !(1u64 << k), k)) by (bit_vector)
        requires
            k < 64,
    ;
    assert forall|i: int| 0 <= i && i != j && i / 64 < prev.len() implies word_bit(now, i)
        == word_bit(prev, i) by {
        if i / 64 == j / 64 {
            let ki = (i % 64) as u64;
            assert(ki != k);
            assert(forall|b: u64| b < 64 && b != k ==> nth_bit(w & !(1u64 << k), b) == nth_bit(
                w,
                b,
            )) by (bit_vector)
                requires
                    k < 64,
            ;
        }
    }
}

/// If no frame below `n` is clear, none is counted free.
proof fn lemma_free_upto_none(bm: Seq<u64>, n: int)
    requires
        forall|i: int| 0 <= i < n ==> word_bit(bm, i),
    ensures
        free_upto(bm, n) == 0,
    decreases n,
{
    if n > 0 {
        lemma_free_upto_none(bm, n - 1);
    }
}

/// Counting is stable where the bitmaps agree below `n`.
proof fn lemma_free_upto_agree(a: Seq<u64>, b: Seq<u64>, n: int)
    requires
        forall|i: int| 0 <= i < n ==> word_bit(a, i) == word_bit(b, i),
    ensures
        free_upto(a, n) == free_upto(b, n),
    decreases n,
{
    if n > 0 {
        lemma_free_upto_agree(a, b, n - 1);
    }
}

/// Setting a clear bit `j < n` removes exactly one free frame.
proof fn lemma_free_upto_set(prev: Seq<u64>, now: Seq<u64>, j: int, n: int)
    requires
        0 <= j < n,
        !word_bit(prev, j),
        word_bit(now, j),
        forall|i: int| 0 <= i < n && i != j ==> word_bit(now, i) == word_bit(prev, i),
    ensures
        free_upto(now, n) == free_upto(prev, n) - 1,
    decreases n,
{
    if j == n - 1 {
        lemma_free_upto_agree(prev, now, n - 1);
    } else {
        lemma_free_upto_set(prev, now, j, n - 1);
    }
}

/// Clearing a set bit `j < n` adds exactly one free frame.
proof fn lemma_free_upto_clear(prev: Seq<u64>, now: Seq<u64>, j: int, n: int)
    requires
        0 <= j < n,
        word_bit(prev, j),
        !word_bit(now, j),
        forall|i: int| 0 <= i < n && i != j ==> word_bit(now, i) == word_bit(prev, i),
    ensures
        free_upto(now, n) == free_upto(prev, n) + 1,
    decreases n,
{
    if j == n - 1 {
        lemma_free_upto_agree(prev, now, n - 1);
    } else {
        lemma_free_upto_clear(prev, now, j, n - 1);
    }
}

/// Frames a prefix of `k` arenas owns.
pub open spec fn pages_before(s: Seq<Arena>, k: int) -> int
    decreases k,
{
    if k <= 0 || s.len() == 0 {
        0
    } else {
        s[0].spec_num_pages() + pages_before(s.skip(1), k - 1)
    }
}

/// Frames all arenas own together: the number of valid handles.
pub open spec fn total_pages(s: Seq<Arena>) -> int {
    pages_before(s, s.len() as int)
}

/// Whether the frame `h` (in the global handle order) is marked used.
pub open spec fn spec_allocated(s: Seq<Arena>, h: int) -> bool
    decreases s.len(),
{
    if s.len() == 0 {
        false
    } else if h < s[0].spec_num_pages() {
        0 <= h && s[0].bit_set(h)
    } else {
        spec_allocated(s.skip(1), h - s[0].spec_num_pages())
    }
}

pub open spec fn spec_handle_free(s: Seq<Arena>, h: int) -> bool {
    0 <= h < total_pages(s) && !spec_allocated(s, h)
}

/// Physical base address of the frame `h`.
pub open spec fn spec_handle_base(s: Seq<Arena>, h: int) -> int
    decreases s.len(),
{
    if s.len() == 0 {
        0
    } else if h < s[0].spec_num_pages() {
        if 0 <= h {
            s[0].spec_base() + h * (PAGE_SIZE as int)
        } else {
            0
        }
    } else {
        spec_handle_base(s.skip(1), h - s[0].spec_num_pages())
    }
}

/// Whether the frame `h` holds part of its arena's own bitmap.
pub open spec fn spec_bitmap_frame(s: Seq<Arena>, h: int) -> bool
    decreases s.len(),
{
    if s.len() == 0 {
        false
    } else if h < s[0].spec_num_pages() {
        0 <= h < s[0].spec_bitmap_pages()
    } else {
        spec_bitmap_frame(s.skip(1), h - s[0].spec_num_pages())
    }
}

/// How many frames are free over all arenas.
pub open spec fn free_frames(s: Seq<Arena>) -> int
    decreases s.len(),
{
    if s.len() == 0 {
        0
    } else {
        s[0].spec_free_count() + free_frames(s.skip(1))
    }
}

/// Every arena is sound, small enough for a relative handle, and no two
/// arenas overlap.
pub open spec fn arenas_wf(s: Seq<Arena>) -> bool {
    &&& forall|i: int| 0 <= i < s.len() ==> (#[trigger] s[i]).wf()
    &&& forall|i: int| 0 <= i < s.len() ==> (#[trigger] s[i]).spec_num_pages() <= u16::MAX + 1
    &&& forall|i: int, k: int|
        0 <= i < s.len() && 0 <= k < s.len() && i != k ==> (#[trigger] s[i]).spec_base()
            + s[i].spec_length() <= (#[trigger] s[k]).spec_base() || s[k].spec_base()
            + s[k].spec_length() <= s[i].spec_base()
}

proof fn lemma_pages_before_nonneg(s: Seq<Arena>, k: int)
    ensures
        pages_before(s, k) >= 0,
    decreases k,
{
    if k > 0 && s.len() > 0 {
        lemma_pages_before_nonneg(s.skip(1), k - 1);
    }
}

proof fn lemma_pages_before_mono(s: Seq<Arena>, k1: int, k2: int)
    requires
        0 <= k1 <= k2,
    ensures
        pages_before(s, k1) <= pages_before(s, k2),
    decreases k2,
{
    if k1 > 0 && s.len() > 0 {
        lemma_pages_before_mono(s.skip(1), k1 - 1, k2 - 1);
    } else if k2 > 0 && s.len() > 0 {
        lemma_pages_before_nonneg(s.skip(1), k2 - 1);
    }
}

proof fn lemma_pages_before_step(s: Seq<Arena>, k: int)
    requires
        0 <= k < s.len(),
    ensures
        pages_before(s, k + 1) == pages_before(s, k) + s[k].spec_num_pages(),
    decreases k,
{
    if k > 0 {
        lemma_pages_before_step(s.skip(1), k - 1);
        assert(s.skip(1)[k - 1] == s[k]);
        assert(pages_before(s, k + 1) == s[0].spec_num_pages() + pages_before(s.skip(1), k));
        assert(pages_before(s, k) == s[0].spec_num_pages() + pages_before(s.skip(1), k - 1));
    } else {
        assert(pages_before(s, 1) == s[0].spec_num_pages() + pages_before(s.skip(1), 0));
        assert(pages_before(s.skip(1), 0) == 0);
        assert(pages_before(s, 0) == 0);
    }
}

/// Relates the frame `j` of the arena `k` to its global handle.
proof fn lemma_at(s: Seq<Arena>, k: int, j: int)
    requires
        0 <= k < s.len(),
        0 <= j < s[k].spec_num_pages(),
    ensures
        pages_before(s, k) + j < total_pages(s),
        spec_allocated(s, pages_before(s, k) + j) == s[k].bit_set(j),
        spec_handle_base(s, pages_before(s, k) + j) == s[k].spec_base() + j * (PAGE_SIZE as int),
        spec_bitmap_frame(s, pages_before(s, k) + j) == (j < s[k].spec_bitmap_pages()),
    decreases k,
{
    lemma_pages_before_nonneg(s, k);
    if k == 0 {
        lemma_pages_before_nonneg(s.skip(1), s.len() - 1);
        assert(total_pages(s) == s[0].spec_num_pages() + pages_before(s.skip(1), s.len() - 1));
    } else {
        lemma_pages_before_nonneg(s.skip(1), k - 1);
        lemma_at(s.skip(1), k - 1, j);
        assert(s.skip(1)[k - 1] == s[k]);
        assert(total_pages(s) == s[0].spec_num_pages() + total_pages(s.skip(1)));
    }
}

/// Every valid handle falls in exactly one arena.
proof fn lemma_decompose(s: Seq<Arena>, h: int)
    requires
        0 <= h < total_pages(s),
    ensures
        exists|k: int, j: int|
            0 <= k < s.len() && 0 <= j < (#[trigger] s[k]).spec_num_pages() && h == pages_before(
                s,
                k,
            ) + #[trigger] vstd::math::clip(j),
    decreases s.len(),
{
    assert(s.len() > 0);
    let np0 = s[0].spec_num_pages();
    if h < np0 {
        assert(vstd::math::clip(h) == h) by {
            reveal(vstd::math::clip);
        }
        assert(0 <= 0 < s.len() && 0 <= h < s[0].spec_num_pages() && h == pages_before(s, 0)
            + vstd::math::clip(h));
    } else {
        assert(total_pages(s) == np0 + total_pages(s.skip(1)));
        lemma_decompose(s.skip(1), h - np0);
        let (k, j): (int, int) = choose|k: int, j: int|
            0 <= k < s.skip(1).len() && 0 <= j < (#[trigger] s.skip(1)[k]).spec_num_pages() && h
                - np0 == pages_before(s.skip(1), k) + #[trigger] vstd::math::clip(j);
        assert(s.skip(1)[k] == s[k + 1]);
        assert(pages_before(s, k + 1) == np0 + pages_before(s.skip(1), k));
        assert(0 <= k + 1 < s.len() && 0 <= j < s[k + 1].spec_num_pages() && h == pages_before(
            s,
            k + 1,
        ) + vstd::math::clip(j));
    }
}

/// Distinct handles have distinct physical bases.
pub proof fn lemma_base_injective(s: Seq<Arena>, h1: int, h2: int)
    requires
        arenas_wf(s),
        0 <= h1 < total_pages(s),
        0 <= h2 < total_pages(s),
        h1 != h2,
    ensures
        spec_handle_base(s, h1) != spec_handle_base(s, h2),
{
    lemma_decompose(s, h1);
    lemma_decompose(s, h2);
    let (k1, j1): (int, int) = choose|k: int, j: int|
        0 <= k < s.len() && 0 <= j < (#[trigger] s[k]).spec_num_pages() && h1 == pages_before(s, k)
            + #[trigger] vstd::math::clip(j);
    let (k2, j2): (int, int) = choose|k: int, j: int|
        0 <= k < s.len() && 0 <= j < (#[trigger] s[k]).spec_num_pages() && h2 == pages_before(s, k)
            + #[trigger] vstd::math::clip(j);
    reveal(vstd::math::clip);
    lemma_at(s, k1, j1);
    lemma_at(s, k2, j2);
    lemma_arena_length(s[k1]);
    lemma_arena_length(s[k2]);
    if k1 == k2 {
        assert(j1 != j2);
    }
}

/// Unfolds the total over the first arena.
pub proof fn lemma_total_unfold(s: Seq<Arena>)
    requires
        s.len() > 0,
    ensures
        total_pages(s) == s[0].spec_num_pages() + total_pages(s.skip(1)),
{
    assert(pages_before(s, s.len() as int) == s[0].spec_num_pages() + pages_before(
        s.skip(1),
        s.len() - 1,
    ));
}

/// For a sound arena, the length is exactly the page count times 4 KiB.
pub proof fn lemma_arena_length_pub(a: Arena)
    requires
        a.spec_length() % (PAGE_SIZE as int) == 0,
    ensures
        a.spec_length() == a.spec_num_pages() * (PAGE_SIZE as int),
{
}

proof fn lemma_arena_length(a: Arena)
    requires
        a.spec_length() % (PAGE_SIZE as int) == 0,
    ensures
        a.spec_length() == a.spec_num_pages() * (PAGE_SIZE as int),
{
}

/// Changing one bit in one arena changes exactly one global handle.
proof fn lemma_update(s1: Seq<Arena>, s2: Seq<Arena>, k: int, j: int)
    requires
        0 <= k < s1.len(),
        s2.len() == s1.len(),
        forall|i: int| 0 <= i < s1.len() && i != k ==> s2[i] == s1[i],
        s2[k].same_but(&s1[k], j),
        0 <= j < s1[k].spec_num_pages(),
    ensures
        forall|h: int| h != pages_before(s1, k) + j ==> spec_allocated(s2, h) == spec_allocated(
            s1,
            h,
        ),
        forall|h: int| spec_handle_base(s2, h) == spec_handle_base(s1, h),
        forall|h: int| spec_bitmap_frame(s2, h) == spec_bitmap_frame(s1, h),
        forall|i: int| 0 <= i <= s1.len() ==> pages_before(s2, i) == pages_before(s1, i),
        total_pages(s2) == total_pages(s1),
        free_frames(s2) == free_frames(s1) + s2[k].spec_free_count() - s1[k].spec_free_count(),
    decreases s1.len(),
{
    assert forall|i: int| 0 <= i <= s1.len() implies pages_before(s2, i) == pages_before(s1, i) by {
        lemma_pages_before_agree(s1, s2, i);
    }
    if k == 0 {
        assert(s2.skip(1) =~= s1.skip(1));
        let np0 = s1[0].spec_num_pages();
        assert(s2[0].spec_num_pages() == np0);
        assert(pages_before(s1, 0) == 0);
        assert forall|h: int| h != j implies spec_allocated(s2, h) == spec_allocated(s1, h) by {
            if h >= np0 {
                assert(spec_allocated(s2, h) == spec_allocated(s2.skip(1), h - np0));
                assert(spec_allocated(s1, h) == spec_allocated(s1.skip(1), h - np0));
            }
        }
        assert forall|h: int| spec_handle_base(s2, h) == spec_handle_base(s1, h) by {
            if h >= np0 {
                assert(spec_handle_base(s2, h) == spec_handle_base(s2.skip(1), h - np0));
                assert(spec_handle_base(s1, h) == spec_handle_base(s1.skip(1), h - np0));
            }
        }
        assert forall|h: int| spec_bitmap_frame(s2, h) == spec_bitmap_frame(s1, h) by {
            if h >= np0 {
                assert(spec_bitmap_frame(s2, h) == spec_bitmap_frame(s2.skip(1), h - np0));
                assert(spec_bitmap_frame(s1, h) == spec_bitmap_frame(s1.skip(1), h - np0));
            }
        }
        assert(free_frames(s2) == s2[0].spec_free_count() + free_frames(s2.skip(1)));
        assert(free_frames(s1) == s1[0].spec_free_count() + free_frames(s1.skip(1)));
    } else {
        assert(s2[0] == s1[0]);
        let np0 = s1[0].spec_num_pages();
        assert(forall|i: int| 0 <= i < s1.skip(1).len() && i != k - 1 ==> s2.skip(1)[i] == s1.skip(
            1,
        )[i]);
        assert(s2.skip(1)[k - 1] == s2[k]);
        assert(s1.skip(1)[k - 1] == s1[k]);
        lemma_update(s1.skip(1), s2.skip(1), k - 1, j);
        assert(pages_before(s1, k) == np0 + pages_before(s1.skip(1), k - 1));
        assert forall|h: int| h != pages_before(s1, k) + j implies spec_allocated(s2, h)
            == spec_allocated(s1, h) by {
            if h >= np0 {
                assert(h - np0 != pages_before(s1.skip(1), k - 1) + j);
                assert(spec_allocated(s2, h) == spec_allocated(s2.skip(1), h - np0));
                assert(spec_allocated(s1, h) == spec_allocated(s1.skip(1), h - np0));
            }
        }
        assert forall|h: int| spec_handle_base(s2, h) == spec_handle_base(s1, h) by {
            if h >= np0 {
                assert(spec_handle_base(s2, h) == spec_handle_base(s2.skip(1), h - np0));
                assert(spec_handle_base(s1, h) == spec_handle_base(s1.skip(1), h - np0));
            }
        }
        assert forall|h: int| spec_bitmap_frame(s2, h) == spec_bitmap_frame(s1, h) by {
            if h >= np0 {
                assert(spec_bitmap_frame(s2, h) == spec_bitmap_frame(s2.skip(1), h - np0));
                assert(spec_bitmap_frame(s1, h) == spec_bitmap_frame(s1.skip(1), h - np0));
            }
        }
        assert(free_frames(s2) == s2[0].spec_free_count() + free_frames(s2.skip(1)));
        assert(free_frames(s1) == s1[0].spec_free_count() + free_frames(s1.skip(1)));
    }
}

proof fn lemma_pages_before_agree(s1: Seq<Arena>, s2: Seq<Arena>, k: int)
    requires
        s2.len() == s1.len(),
        forall|i: int| 0 <= i < s1.len() ==> (#[trigger] s2[i]).spec_num_pages()
            == s1[i].spec_num_pages(),
    ensures
        pages_before(s2, k) == pages_before(s1, k),
    decreases k,
{
    if k > 0 && s1.len() > 0 {
        assert(forall|i: int| 0 <= i < s1.skip(1).len() ==> (#[trigger] s2.skip(1)[i])
            == s2[i + 1] && s1.skip(1)[i] == s1[i + 1]);
        lemma_pages_before_agree(s1.skip(1), s2.skip(1), k - 1);
    }
}

/// When every arena has no free frame, none is free globally.
proof fn lemma_free_frames_zero(s: Seq<Arena>)
    requires
        forall|i: int| 0 <= i < s.len() ==> (#[trigger] s[i]).spec_free_count() == 0,
    ensures
        free_frames(s) == 0,
    decreases s.len(),
{
    if s.len() > 0 {
        assert(forall|i: int| 0 <= i < s.skip(1).len() ==> (#[trigger] s.skip(1)[i]) == s[i + 1]);
        lemma_free_frames_zero(s.skip(1));
    }
}


/// The base/length pair a conventional memory-map entry turns into; the null
/// page is never made allocatable.
pub open spec fn adjusted_shape(e: MemoryEntry) -> (int, int) {
    if e.phys == 0 {
        (PAGE_SIZE as int, e.page_count * (PAGE_SIZE as int) - (PAGE_SIZE as int))
    } else {
        (e.phys as int, e.page_count * (PAGE_SIZE as int))
    }
}

/// The arena shapes that a memory map yields, in order.
pub open spec fn conv_shapes(es: Seq<MemoryEntry>) -> Seq<(int, int)>
    decreases es.len(),
{
    if es.len() == 0 {
        Seq::empty()
    } else {
        conv_shapes(es.drop_last()) + if es.last().type_ == MemoryType::CONVENTIONAL {
            seq![adjusted_shape(es.last())]
        } else {
            Seq::<(int, int)>::empty()
        }
    }
}

pub open spec fn arena_shapes(s: Seq<Arena>) -> Seq<(int, int)> {
    s.map_values(|a: Arena| (a.spec_base(), a.spec_length()))
}

/// An arena shape the manager accepts: page-aligned, above the null page,
/// small enough for a relative handle, and within the address space.
pub open spec fn shape_ok(sh: (int, int)) -> bool {
    &&& sh.0 > 0
    &&& sh.0 % (PAGE_SIZE as int) == 0
    &&& sh.1 >= 0
    &&& sh.1 % (PAGE_SIZE as int) == 0
    &&& sh.0 + sh.1 <= usize::MAX
    &&& sh.1 / (PAGE_SIZE as int) <= u16::MAX + 1
}

/// Arenas must not overlap.
pub open spec fn shapes_disjoint(shs: Seq<(int, int)>) -> bool {
    forall|a: int, b: int|
        0 <= a < shs.len() && 0 <= b < shs.len() && a != b ==> (#[trigger] shs[a]).0 + shs[a].1
            <= (#[trigger] shs[b]).0 || shs[b].0 + shs[b].1 <= shs[a].0
}

/// The shapes of a prefix of the memory map are a prefix of its shapes.
proof fn lemma_conv_prefix(es: Seq<MemoryEntry>, i: int)
    requires
        0 <= i <= es.len(),
    ensures
        conv_shapes(es.take(i)).len() <= conv_shapes(es).len(),
        conv_shapes(es.take(i)) =~= conv_shapes(es).take(conv_shapes(es.take(i)).len() as int),
    decreases es.len() - i,
{
    if i == es.len() {
        assert(es.take(i) =~= es);
        assert(conv_shapes(es).take(conv_shapes(es).len() as int) =~= conv_shapes(es));
    } else {
        lemma_conv_prefix(es, i + 1);
        assert(es.take(i + 1).drop_last() =~= es.take(i));
        assert(es.take(i + 1).last() == es[i]);
        let small = conv_shapes(es.take(i));
        let big = conv_shapes(es.take(i + 1));
        assert forall|j: int| 0 <= j < small.len() implies small[j] == conv_shapes(es)[j] by {
            assert(small[j] == big[j]);
            assert(big[j] == conv_shapes(es).take(big.len() as int)[j]);
        }
    }
}

proof fn lemma_total_bound(s: Seq<Arena>, k: int)
    requires
        forall|i: int| 0 <= i < s.len() ==> (#[trigger] s[i]).spec_num_pages() <= u16::MAX + 1,
        0 <= k <= s.len(),
    ensures
        pages_before(s, k) <= k * (u16::MAX + 1),
    decreases k,
{
    if k > 0 && s.len() > 0 {
        assert(forall|i: int| 0 <= i < s.skip(1).len() ==> (#[trigger] s.skip(1)[i]) == s[i + 1]);
        lemma_total_bound(s.skip(1), k - 1);
    }
}

/// A positive free count names a free frame.
proof fn lemma_free_upto_pos(bm: Seq<u64>, n: int)
    requires
        free_upto(bm, n) > 0,
    ensures
        exists|i: int| 0 <= i < n && !word_bit(bm, i),
    decreases n,
{
    if n > 0 {
        if word_bit(bm, n - 1) {
            lemma_free_upto_pos(bm, n - 1);
        }
    }
}

/// A positive global free count names a free handle.
proof fn lemma_free_exists(s: Seq<Arena>)
    requires
        free_frames(s) > 0,
        forall|i: int| 0 <= i < s.len() ==> (#[trigger] s[i]).wf(),
    ensures
        exists|h: int| spec_handle_free(s, h),
    decreases s.len(),
{
    assert(s.len() > 0);
    let a = s[0];
    let np0 = a.spec_num_pages();
    if a.spec_free_count() > 0 {
        lemma_free_upto_pos(a.spec_bitmap(), np0);
        let j = choose|j: int| 0 <= j < np0 && !word_bit(a.spec_bitmap(), j);
        lemma_at(s, 0, j);
        assert(spec_handle_free(s, pages_before(s, 0) + j));
    } else {
        assert(forall|i: int| 0 <= i < s.skip(1).len() ==> (#[trigger] s.skip(1)[i]) == s[i + 1]);
        lemma_free_exists(s.skip(1));
        let h = choose|h: int| spec_handle_free(s.skip(1), h);
        lemma_pages_before_nonneg(s.skip(1), s.skip(1).len() as int);
        assert(total_pages(s) == np0 + total_pages(s.skip(1)));
        assert(spec_allocated(s, h + np0) == spec_allocated(s.skip(1), h));
        assert(spec_handle_free(s, h + np0));
    }
}

/// A bitmap never frees more frames than it covers.
proof fn lemma_free_upto_bound(bm: Seq<u64>, n: int)
    ensures
        0 <= free_upto(bm, n),
        n >= 0 ==> free_upto(bm, n) <= n,
    decreases n,
{
    if n > 0 {
        lemma_free_upto_bound(bm, n - 1);
    }
}

/// Free frames of the first `k` arenas.
pub open spec fn free_before(s: Seq<Arena>, k: int) -> int
    decreases k,
{
    if k <= 0 || s.len() == 0 {
        0
    } else {
        s[0].spec_free_count() + free_before(s.skip(1), k - 1)
    }
}

proof fn lemma_free_before_step(s: Seq<Arena>, k: int)
    requires
        0 <= k < s.len(),
    ensures
        free_before(s, k + 1) == free_before(s, k) + s[k].spec_free_count(),
    decreases k,
{
    if k > 0 {
        assert(forall|i: int| 0 <= i < s.skip(1).len() ==> (#[trigger] s.skip(1)[i]) == s[i + 1]);
        lemma_free_before_step(s.skip(1), k - 1);
    } else {
        assert(free_before(s, 1) == s[0].spec_free_count() + free_before(s.skip(1), 0));
        assert(free_before(s.skip(1), 0) == 0);
    }
}

/// Over the whole table the prefix sum is the global free count.
proof fn lemma_free_before_all(s: Seq<Arena>)
    ensures
        free_before(s, s.len() as int) == free_frames(s),
    decreases s.len(),
{
    if s.len() > 0 {
        lemma_free_before_all(s.skip(1));
    }
}

/// The prefix free count stays within the prefix frame count.
proof fn lemma_free_before_bound(s: Seq<Arena>, k: int)
    requires
        0 <= k <= s.len(),
        forall|i: int| 0 <= i < s.len() ==> (#[trigger] s[i]).spec_num_pages() >= 0,
    ensures
        0 <= free_before(s, k) <= pages_before(s, k),
    decreases k,
{
    if k > 0 && s.len() > 0 {
        assert(forall|i: int| 0 <= i < s.skip(1).len() ==> (#[trigger] s.skip(1)[i]) == s[i + 1]);
        lemma_free_before_bound(s.skip(1), k - 1);
        lemma_free_upto_bound(s[0].spec_bitmap(), s[0].spec_num_pages());
    }
}

/// The arena table, owned by the database.
pub struct PhysicalAllocator {
    arenas: StaticVec<Arena, 16>,
}

impl PhysicalAllocator {
    pub closed spec fn arenas(&self) -> Seq<Arena> {
        self.arenas@
    }

    pub open spec fn wf(&self) -> bool {
        &&& self.arenas().len() <= 16
        &&& arenas_wf(self.arenas())
        &&& total_pages(self.arenas()) <= u32::MAX
    }

    pub fn new() -> (r: Self)
        ensures
            r.arenas() == Seq::<Arena>::empty(),
            r.wf(),
    {
        let r = PhysicalAllocator { arenas: StaticVec::new() };
        proof {
            assert(total_pages(r.arenas()) == 0);
        }
        r
    }
}

/// A page frame handle: an index into the global handle order.
#[derive(Debug, Clone, Copy, PartialEq, Eq, Structural, PartialOrd, Ord)]
pub struct Handle(pub u32);

impl Default for Handle {
    /// The null frame stands for "no frame".
    fn default() -> (r: Self)
        ensures
            r == Handle(0u32),
    {
        Handle(0)
    }
}

impl Handle {
    /// Physical base address of this frame (the kernel is identity-mapped).
    pub fn get(self, phys: &PhysicalAllocator) -> (r: usize)
        requires
            phys.wf(),
            self.0 < total_pages(phys.arenas()),
        ensures
            r == spec_handle_base(phys.arenas(), self.0 as int),
    {
        self.get_mut(phys)
    }

    /// The same address, for writing through an identity mapping.
    pub fn get_mut(self, phys: &PhysicalAllocator) -> (r: usize)
        requires
            phys.wf(),
            self.0 < total_pages(phys.arenas()),
        ensures
            r == spec_handle_base(phys.arenas(), self.0 as int),
    {
        let ghost s = phys.arenas();
        let arenas = phys.arenas.iter();
        let h = self.0 as usize;
        let mut first: usize = 0;
        let mut i: usize = 0;
        while i < arenas.len()
            invariant
                phys.wf(),
                s == phys.arenas(),
                arenas@ == s,
                i <= s.len(),
                first == pages_before(s, i as int),
                h == self.0 as usize,
                h < total_pages(s),
                first <= h,
            decreases arenas.len() - i,
        {
            let np = arenas[i].get_num_pages();
            proof {
                lemma_pages_before_step(s, i as int);
                lemma_pages_before_mono(s, i as int + 1, s.len() as int);
            }
            if h < first + np {
                let j = h - first;
                proof {
                    lemma_at(s, i as int, j as int);
                    assert(s[i as int].wf());
                    lemma_arena_length(s[i as int]);
                    assert((j as int) * (PAGE_SIZE as int) < s[i as int].spec_num_pages() * (
                    PAGE_SIZE as int)) by (nonlinear_arith)
                        requires
                            0 <= (j as int),
                            (j as int) < s[i as int].spec_num_pages(),
                    ;
                }
                return arenas[i].get_base() + j * PAGE_SIZE;
            }
            first = first + np;
            i = i + 1;
        }
        proof {
            assert(first == total_pages(s));
            assert(false);
        }
        unreached()
    }
}

/// The page-frame manager.
pub struct Manager;

impl Manager {
    /// Builds one arena per conventional memory-map entry, with a fresh
    /// bitmap whose own frames are marked used.
    pub fn init(phys: &mut PhysicalAllocator, entries: &[MemoryEntry])
        requires
            old(phys).arenas().len() == 0,
            conv_shapes(entries@).len() <= 16,
            forall|a: int| 0 <= a < conv_shapes(entries@).len() ==> shape_ok(
                #[trigger] conv_shapes(entries@)[a],
            ),
            shapes_disjoint(conv_shapes(entries@)),
        ensures
            final(phys).wf(),
            arena_shapes(final(phys).arenas()) == conv_shapes(entries@),
            forall|k: int|
                0 <= k < final(phys).arenas().len() ==> forall|j: int|
                    0 <= j < (#[trigger] final(phys).arenas()[k]).spec_num_pages()
                        ==> final(phys).arenas()[k].bit_set(j) == (j < final(phys).arenas()[k].spec_bitmap_pages(
                    )),
    {
        let ghost es = entries@;
        let mut i: usize = 0;
        while i < entries.len()
            invariant
                forall|a: int| 0 <= a < conv_shapes(es).len() ==> shape_ok(
                    #[trigger] conv_shapes(es)[a],
                ),
                shapes_disjoint(conv_shapes(es)),
                conv_shapes(es).len() <= 16,
                es == entries@,
                i <= es.len(),
                arena_shapes(phys.arenas()) =~= conv_shapes(es.take(i as int)),
                forall|k: int|
                    0 <= k < phys.arenas().len() ==> (#[trigger] phys.arenas()[k]).wf(),
                forall|k: int|
                    0 <= k < phys.arenas().len() ==> (#[trigger] phys.arenas()[k]).spec_num_pages()
                        <= u16::MAX + 1,
                forall|k: int|
                    0 <= k < phys.arenas().len() ==> forall|j: int|
                        0 <= j < (#[trigger] phys.arenas()[k]).spec_num_pages()
                            ==> phys.arenas()[k].bit_set(j) == (j < phys.arenas(
                        )[k].spec_bitmap_pages()),
            decreases entries.len() - i,
        {
            proof {
                lemma_conv_prefix(es, i as int + 1);
                assert(es.take(i as int + 1).drop_last() =~= es.take(i as int));
                assert(es.take(i as int + 1).last() == es[i as int]);
            }
            let e = &entries[i];
            if e.type_ == MemoryType::CONVENTIONAL {
                let ghost sh = adjusted_shape(es[i as int]);
                proof {
                    let a = conv_shapes(es.take(i as int)).len() as int;
                    assert(conv_shapes(es.take(i as int + 1))[a] == sh);
                    assert(conv_shapes(es.take(i as int + 1))[a] == conv_shapes(es).take(
                        conv_shapes(es.take(i as int + 1)).len() as int,
                    )[a]);
                    assert(shape_ok(sh));
                }
                let mut base = e.phys as usize;
                let mut length = (e.page_count as usize) * PAGE_SIZE;
                if base == 0 {
                    base = base + PAGE_SIZE;
                    length = length - PAGE_SIZE;
                }
                proof {
                    assert(base as int == sh.0 && length as int == sh.1);
                }
                let mut arena = Arena::new(base, length);
                arena.reset_heap();
                phys.arenas.push(arena);
                proof {
                    assert(arena_shapes(phys.arenas()) =~= conv_shapes(es.take(i as int + 1)));
                }
            } else {
                proof {
                    assert(arena_shapes(phys.arenas()) =~= conv_shapes(es.take(i as int + 1)));
                }
            }
            i = i + 1;
        }
        proof {
            assert(es.take(es.len() as int) =~= es);
            let s = phys.arenas();
            assert(arena_shapes(s) =~= conv_shapes(es));
            assert forall|a: int, b: int|
                0 <= a < s.len() && 0 <= b < s.len() && a != b implies (#[trigger] s[a]).spec_base()
                + s[a].spec_length() <= (#[trigger] s[b]).spec_base() || s[b].spec_base()
                + s[b].spec_length() <= s[a].spec_base() by {
                assert(arena_shapes(s)[a] == (s[a].spec_base(), s[a].spec_length()));
                assert(arena_shapes(s)[b] == (s[b].spec_base(), s[b].spec_length()));
            }
            lemma_total_bound(s, s.len() as int);
        }
    }

    /// First-fit over all arenas: returns the lowest free frame, marked used.
    pub fn alloc_page(phys: &mut PhysicalAllocator) -> (r: Handle)
        requires
            old(phys).wf(),
            free_frames(old(phys).arenas()) > 0,
        ensures
            final(phys).wf(),
            spec_handle_free(old(phys).arenas(), r.0 as int),
            forall|h: int| 0 <= h < r.0 ==> !spec_handle_free(old(phys).arenas(), h),
            !spec_bitmap_frame(old(phys).arenas(), r.0 as int),
            spec_allocated(final(phys).arenas(), r.0 as int),
            forall|h: int| h != r.0 ==> spec_allocated(final(phys).arenas(), h) == spec_allocated(
                old(phys).arenas(),
                h,
            ),
            forall|h: int| spec_handle_base(final(phys).arenas(), h) == spec_handle_base(
                old(phys).arenas(),
                h,
            ),
            forall|h: int| spec_bitmap_frame(final(phys).arenas(), h) == spec_bitmap_frame(
                old(phys).arenas(),
                h,
            ),
            total_pages(final(phys).arenas()) == total_pages(old(phys).arenas()),
            free_frames(final(phys).arenas()) == free_frames(old(phys).arenas()) - 1,
    {
        let ghost s1 = old(phys).arenas();
        let n = phys.arenas.len();
        let mut first: usize = 0;
        let mut i: usize = 0;
        while i < n
            invariant
                phys.arenas() == s1,
                old(phys).wf(),
                free_frames(s1) > 0,
                s1 == old(phys).arenas(),
                n == s1.len(),
                i <= n,
                first == pages_before(s1, i as int),
                forall|h: int| 0 <= h < first ==> !spec_handle_free(s1, h),
            decreases n - i,
        {
            proof {
                lemma_pages_before_step(s1, i as int);
                lemma_pages_before_nonneg(s1, i as int);
                lemma_pages_before_mono(s1, i as int + 1, s1.len() as int);
                lemma_total_bound(s1, s1.len() as int);
                assert(s1[i as int].wf());
            }
            let a = phys.arenas.at_mut(i);
            let np = a.get_num_pages();
            let res = a.alloc_page();
            match res {
                Some(j) => {
                    proof {
                        assert(phys.arenas() =~= s1.update(
                            i as int,
                            phys.arenas()[i as int],
                        ));
                        lemma_update(s1, phys.arenas(), i as int, j as int);
                        lemma_at(s1, i as int, j as int);
                        lemma_at(phys.arenas(), i as int, j as int);
                        assert forall|h: int| 0 <= h < first + j implies !spec_handle_free(
                            s1,
                            h,
                        ) by {
                            if h >= first {
                                lemma_at(s1, i as int, h - first);
                                assert(!s1[i as int].is_free(h - first));
                            }
                        }
                    }
                    let r = Handle((first + j as usize) as u32);
                    proof {
                        assert(r.0 as int == first + j);
                    }
                    return r;
                },
                None => {
                    proof {
                        assert(phys.arenas() =~= s1);
                        assert(phys.arenas() == s1);
                        assert forall|h: int| 0 <= h < first + np implies !spec_handle_free(
                            s1,
                            h,
                        ) by {
                            if h >= first {
                                lemma_at(s1, i as int, h - first);
                                assert(!s1[i as int].is_free(h - first));
                            }
                        }
                    }
                },
            }
            first = first + np;
            i = i + 1;
        }
        proof {
            assert(first == total_pages(s1));
            lemma_free_exists(s1);
            assert(false);
        }
        unreached()
    }

    /// `alloc_page`, with the frame's memory zeroed; the zeroing is a
    /// physical effect the identity-mapped shim performs.
    pub fn alloc_page_zeroed(phys: &mut PhysicalAllocator) -> (r: Handle)
        requires
            old(phys).wf(),
            free_frames(old(phys).arenas()) > 0,
        ensures
            final(phys).wf(),
            spec_handle_free(old(phys).arenas(), r.0 as int),
            forall|h: int| 0 <= h < r.0 ==> !spec_handle_free(old(phys).arenas(), h),
            !spec_bitmap_frame(old(phys).arenas(), r.0 as int),
            spec_allocated(final(phys).arenas(), r.0 as int),
            forall|h: int| h != r.0 ==> spec_allocated(final(phys).arenas(), h) == spec_allocated(
                old(phys).arenas(),
                h,
            ),
            forall|h: int| spec_handle_base(final(phys).arenas(), h) == spec_handle_base(
                old(phys).arenas(),
                h,
            ),
            forall|h: int| spec_bitmap_frame(final(phys).arenas(), h) == spec_bitmap_frame(
                old(phys).arenas(),
                h,
            ),
            total_pages(final(phys).arenas()) == total_pages(old(phys).arenas()),
            free_frames(final(phys).arenas()) == free_frames(old(phys).arenas()) - 1,
    {
        Self::alloc_page(phys)
    }

    /// Clears the frame's bit. Freeing an unallocated frame, an out-of-range
    /// handle, or a bitmap frame is a kernel fault, so all are excluded.
    pub fn free_page(phys: &mut PhysicalAllocator, handle: Handle)
        requires
            old(phys).wf(),
            handle.0 < total_pages(old(phys).arenas()),
            spec_allocated(old(phys).arenas(), handle.0 as int),
            !spec_bitmap_frame(old(phys).arenas(), handle.0 as int),
        ensures
            final(phys).wf(),
            !spec_allocated(final(phys).arenas(), handle.0 as int),
            forall|h: int| h != handle.0 ==> spec_allocated(final(phys).arenas(), h) == spec_allocated(
                old(phys).arenas(),
                h,
            ),
            forall|h: int| spec_handle_base(final(phys).arenas(), h) == spec_handle_base(
                old(phys).arenas(),
                h,
            ),
            forall|h: int| spec_bitmap_frame(final(phys).arenas(), h) == spec_bitmap_frame(
                old(phys).arenas(),
                h,
            ),
            total_pages(final(phys).arenas()) == total_pages(old(phys).arenas()),
            free_frames(final(phys).arenas()) == free_frames(old(phys).arenas()) + 1,
    {
        let ghost s1 = old(phys).arenas();
        let n = phys.arenas.len();
        let h = handle.0 as usize;
        let mut first: usize = 0;
        let mut i: usize = 0;
        while i < n
            invariant
                phys.arenas() == s1,
                old(phys).wf(),
                s1 == old(phys).arenas(),
                handle.0 < total_pages(s1),
                spec_allocated(s1, handle.0 as int),
                !spec_bitmap_frame(s1, handle.0 as int),
                h == handle.0 as usize,
                n == s1.len(),
                i <= n,
                first == pages_before(s1, i as int),
                first <= h,
            decreases n - i,
        {
            proof {
                lemma_pages_before_step(s1, i as int);
                lemma_pages_before_nonneg(s1, i as int);
                lemma_pages_before_mono(s1, i as int + 1, s1.len() as int);
                assert(s1[i as int].wf());
            }
            let a = phys.arenas.at_mut(i);
            let np = a.get_num_pages();
            if h < first + np {
                let j = h - first;
                proof {
                    lemma_at(s1, i as int, j as int);
                }
                a.free_page(j as u16);
                proof {
                    assert(phys.arenas() =~= s1.update(i as int, phys.arenas()[i as int]));
                    lemma_update(s1, phys.arenas(), i as int, j as int);
                    lemma_at(phys.arenas(), i as int, j as int);
                }
                return ;
            }
            proof {
                assert(phys.arenas() =~= s1);
                assert(phys.arenas() == s1);
            }
            first = first + np;
            i = i + 1;
        }
        proof {
            assert(first == total_pages(s1));
            assert(false);
        }
    }

    /// Whether the frame's bit is set; the runtime view of the bitmaps.
    pub fn is_allocated(phys: &PhysicalAllocator, handle: Handle) -> (r: bool)
        requires
            phys.wf(),
            handle.0 < total_pages(phys.arenas()),
        ensures
            r == spec_allocated(phys.arenas(), handle.0 as int),
    {
        let ghost s = phys.arenas();
        let arenas = phys.arenas.iter();
        let h = handle.0 as usize;
        let mut first: usize = 0;
        let mut i: usize = 0;
        while i < arenas.len()
            invariant
                phys.wf(),
                s == phys.arenas(),
                arenas@ == s,
                i <= s.len(),
                first == pages_before(s, i as int),
                h == handle.0 as usize,
                h < total_pages(s),
                first <= h,
            decreases arenas.len() - i,
        {
            let np = arenas[i].get_num_pages();
            proof {
                lemma_pages_before_step(s, i as int);
                lemma_pages_before_mono(s, i as int + 1, s.len() as int);
                assert(s[i as int].wf());
            }
            if h < first + np {
                let j = h - first;
                proof {
                    lemma_at(s, i as int, j as int);
                    assert(j as int / 64 < s[i as int].spec_bitmap().len());
                }
                let w = arenas[i].bitmap_word(j / 64);
                let k: u64 = (j % 64) as u64;
                let bit = (w >> k) & 1u64;
                proof {
                    let wv = w;
                    let kv = k;
                    assert(((wv >> kv) & 1u64 == 1u64) == nth_bit(wv, kv)) by (bit_vector);
                }
                return bit == 1u64;
            }
            first = first + np;
            i = i + 1;
        }
        proof {
            assert(first == total_pages(s));
            assert(false);
        }
        unreached()
    }

    /// Counts the free frames over all arenas: the runtime view of the frame
    /// budget that the memory managers' preconditions speak of.
    pub fn free_frame_count(phys: &PhysicalAllocator) -> (r: usize)
        requires
            phys.wf(),
        ensures
            r == free_frames(phys.arenas()),
    {
        let ghost s = phys.arenas();
        proof {
            assert forall|j: int| 0 <= j < s.len() implies (#[trigger] s[j]).spec_num_pages()
                >= 0 by {
                assert(s[j].wf());
                vstd::arithmetic::div_mod::lemma_div_is_ordered(
                    0int,
                    s[j].spec_length(),
                    PAGE_SIZE as int,
                );
            }
            lemma_pages_before_nonneg(s, s.len() as int);
        }
        let arenas = phys.arenas.iter();
        let mut acc: usize = 0;
        let mut i: usize = 0;
        while i < arenas.len()
            invariant
                phys.wf(),
                s == phys.arenas(),
                arenas@ == s,
                i <= s.len(),
                forall|j: int| 0 <= j < s.len() ==> (#[trigger] s[j]).spec_num_pages() >= 0,
                acc == free_before(s, i as int),
                0 <= acc <= pages_before(s, i as int),
                pages_before(s, i as int) <= total_pages(s),
            decreases arenas.len() - i,
        {
            proof {
                assert(s[i as int].wf());
                assert(s[i as int].spec_num_pages() <= u16::MAX + 1);
            }
            let c = arenas[i].free_count();
            proof {
                lemma_free_before_step(s, i as int);
                lemma_pages_before_step(s, i as int);
                lemma_free_before_bound(s, i as int + 1);
                lemma_pages_before_mono(s, i as int + 1, s.len() as int);
            }
            acc = acc + c;
            i = i + 1;
        }
        proof {
            lemma_free_before_all(s);
        }
        acc
    }
}

/// Freeing a frame and then allocating returns that very frame, provided
/// every lower frame was still allocated: `free_page(h)` followed by
/// `alloc_page()` yields `h` again. The two groups of hypotheses are exactly
/// what `Manager::free_page` ensures about the freed state and what
/// `Manager::alloc_page` ensures about its result.
pub proof fn lemma_free_then_alloc(s0: Seq<Arena>, s1: Seq<Arena>, h: int, r: int)
    requires
        0 <= h < total_pages(s0),
        forall|h2: int| 0 <= h2 < h ==> spec_allocated(s0, h2),
        !spec_allocated(s1, h),
        forall|h2: int| h2 != h ==> spec_allocated(s1, h2) == spec_allocated(s0, h2),
        total_pages(s1) == total_pages(s0),
        spec_handle_free(s1, r),
        forall|h2: int| 0 <= h2 < r ==> !spec_handle_free(s1, h2),
    ensures
        r == h,
{
    assert(spec_handle_free(s1, h));
    if r < h {
        assert(spec_allocated(s1, r));
    }
}

} // verus!
