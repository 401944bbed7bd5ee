//! Virtual memory manager: 4-level x86_64 page tables and address-space
//! handles.
//!
//! Every frame in use as a page table appears in `db.page_tables`, keyed by
//! its physical base and tagged with its depth (0 for a root PML4, 3 for a
//! leaf table). The four walk indices of an address are the three 9-bit
//! groups below bit 48 and the 9 bits above the page offset.

use vstd::prelude::*;
use vstd::pervasive::unreached;
use crate::db::Database;
use crate::pmm;

verus! {

/// Number of entries per table.
pub const NUM_ENTRIES: usize = 512;

/// A page-table entry: low 12 bits are flags, the rest the frame base.
#[derive(Debug, Clone, Copy, PartialEq, Eq, Structural)]
pub struct Page(pub u64);

impl Default for Page {
    fn default() -> (r: Self)
        ensures
            r.0 == 0,
    {
        Page(0)
    }
}

impl Page {
    pub const FLAG_MASK: u64 = 0xfff;
    pub const PRESENT: u64 = 0x01;
    pub const READ_WRITE: u64 = 0x02;
    /// Shared with ring 3.
    pub const USER_SUPERVISOR: u64 = 0x04;
    pub const WRITE_THROUGH: u64 = 0x08;

    pub fn is_present(self) -> (r: bool)
        ensures
            r == pte_present(self.0),
    {
        self.0 & Page::PRESENT != 0
    }

    pub fn get_physaddr(self) -> (r: u64)
        ensures
            r == pte_addr(self.0),
    {
        self.0 & !Page::FLAG_MASK
    }

    /// Clears the old flags and installs the new ones whole.
    pub fn override_flags(self, flags: u64) -> (r: Self)
        ensures
            r.0 == (self.0 & !Page::FLAG_MASK) | flags,
    {
        Page((self.0 & !Page::FLAG_MASK) | flags)
    }

    /// The low 12 bits are exactly `flags`.
    pub fn contains_flags(self, flags: u64) -> (r: bool)
        ensures
            r == (self.0 & Page::FLAG_MASK == flags),
    {
        self.0 & Page::FLAG_MASK == flags
    }
}

#[derive(Debug, Clone, Copy, PartialEq, Eq, Structural, PartialOrd, Ord)]
pub struct AddressSpaceHandle(pub u16);

impl Default for AddressSpaceHandle {
    fn default() -> (r: Self)
        ensures
            r == AddressSpaceHandle(0u16),
    {
        AddressSpaceHandle(0)
    }
}

impl AddressSpaceHandle {
    /// The kernel address space is always slot 1.
    pub fn get_kernel() -> (r: Self)
        ensures
            r == AddressSpaceHandle(1u16),
    {
        AddressSpaceHandle(1)
    }
}

/// One frame in use as a page table: its physical base, its depth in the
/// walk, and its 512 entries.
#[derive(Debug)]
pub struct PageTable {
    pub base: u64,
    pub level: usize,
    pub entries: Vec<u64>,
}

pub open spec fn pte_present(e: u64) -> bool {
    e & Page::PRESENT != 0
}

pub open spec fn pte_addr(e: u64) -> u64 {
    e & !Page::FLAG_MASK
}

/// The 9-bit walk index of `va` at the given shift (39, 30, 21 or 12).
pub open spec fn vindex(va: u64, shift: u64) -> int {
    ((va >> shift) & 0x1ffu64) as int
}

/// Index of the table with this base, or the length if there is none.
pub open spec fn table_index(ts: Seq<PageTable>, base: u64) -> int
    decreases ts.len(),
{
    if ts.len() == 0 {
        0
    } else if ts[0].base == base {
        0
    } else {
        1 + table_index(ts.skip(1), base)
    }
}

pub open spec fn is_table_base(ts: Seq<PageTable>, base: u64) -> bool {
    table_index(ts, base) < ts.len()
}

pub open spec fn level_of(ts: Seq<PageTable>, base: u64) -> int {
    ts[table_index(ts, base)].level as int
}

pub open spec fn entries_of(ts: Seq<PageTable>, base: u64) -> Seq<u64> {
    ts[table_index(ts, base)].entries@
}

/// The entry `idx` of the table at `base`, if that table exists.
pub open spec fn entry_at(ts: Seq<PageTable>, base: u64, idx: int) -> Option<u64> {
    if is_table_base(ts, base) && 0 <= idx < entries_of(ts, base).len() {
        Some(entries_of(ts, base)[idx])
    } else {
        None
    }
}

/// Follows one present entry down to the next table's base.
pub open spec fn step(ts: Seq<PageTable>, base: u64, idx: int) -> Option<u64> {
    match entry_at(ts, base, idx) {
        Some(e) => if pte_present(e) {
            Some(pte_addr(e))
        } else {
            None
        },
        None => None,
    }
}

/// The leaf PTE of `va` under the root table at `root`: the value the 4-level
/// walk ends on, or `None` when an inner level is absent.
pub open spec fn leaf_pte(ts: Seq<PageTable>, root: u64, va: u64) -> Option<u64> {
    match step(ts, root, vindex(va, 39)) {
        Some(b1) => match step(ts, b1, vindex(va, 30)) {
            Some(b2) => match step(ts, b2, vindex(va, 21)) {
                Some(b3) => entry_at(ts, b3, vindex(va, 12)),
                None => None,
            },
            None => None,
        },
        None => None,
    }
}

pub open spec fn mapping_present(ts: Seq<PageTable>, root: u64, va: u64) -> bool {
    match leaf_pte(ts, root, va) {
        Some(e) => pte_present(e),
        None => false,
    }
}

/// Two addresses walk through the same four cells.
pub open spec fn same_path(va: u64, vb: u64) -> bool {
    &&& vindex(va, 39) == vindex(vb, 39)
    &&& vindex(va, 30) == vindex(vb, 30)
    &&& vindex(va, 21) == vindex(vb, 21)
    &&& vindex(va, 12) == vindex(vb, 12)
}

pub open spec fn wf_table(t: PageTable) -> bool {
    &&& t.entries@.len() == NUM_ENTRIES
    &&& t.level <= 3
    &&& t.base % 4096 == 0
}

/// The table graph is sound on its own:
/// - every table is full sized, page aligned, at depth 0 to 3;
/// - bases are distinct;
/// - a present entry of an inner table points at a table one level deeper;
/// - no two distinct inner cells point at the same table.
pub open spec fn pt_wf(ts: Seq<PageTable>) -> bool {
    &&& forall|i: int| 0 <= i < ts.len() ==> wf_table(#[trigger] ts[i])
    &&& forall|i: int, j: int| 0 <= i < j < ts.len() ==> (#[trigger] ts[i]).base != (
    #[trigger] ts[j]).base
    &&& forall|i: int, e: int|
        0 <= i < ts.len() && (#[trigger] ts[i]).level < 3 && 0 <= e < 512 && pte_present(
            #[trigger] ts[i].entries@[e],
        ) ==> is_table_base(ts, pte_addr(ts[i].entries@[e])) && level_of(
            ts,
            pte_addr(ts[i].entries@[e]),
        ) == ts[i].level + 1
    &&& forall|i1: int, e1: int, i2: int, e2: int|
        0 <= i1 < ts.len() && 0 <= i2 < ts.len() && (#[trigger] ts[i1]).level < 3 && (
        #[trigger] ts[i2]).level < 3 && 0 <= e1 < 512 && 0 <= e2 < 512 && (i1 != i2 || e1 != e2)
            && pte_present(#[trigger] ts[i1].entries@[e1]) && pte_present(
            #[trigger] ts[i2].entries@[e2],
        ) ==> pte_addr(ts[i1].entries@[e1]) != pte_addr(ts[i2].entries@[e2])
}

/// The page-table store is sound and every table sits in an allocated frame.
pub open spec fn tables_wf(db: &Database) -> bool {
    let ts = db.page_tables@;
    let ar = db.phys.arenas();
    &&& db.phys.wf()
    &&& pt_wf(ts)
    &&& forall|i: int| 0 <= i < ts.len() ==> exists|h: int|
        0 <= h < pmm::total_pages(ar) && pmm::spec_allocated(ar, h) && pmm::spec_handle_base(
            ar,
            h,
        ) == (#[trigger] ts[i]).base
}

/// The physical base of an address space's root table.
pub open spec fn spec_root_base(db: &Database, aspace: AddressSpaceHandle) -> u64 {
    pmm::spec_handle_base(db.phys.arenas(), db.aspaces@[aspace.0 as int].0 as int) as u64
}

/// The handle names a registered root table.
pub open spec fn aspace_ok(db: &Database, aspace: AddressSpaceHandle) -> bool {
    &&& (aspace.0 as int) < db.aspaces@.len()
    &&& (db.aspaces@[aspace.0 as int].0 as int) < pmm::total_pages(db.phys.arenas())
    &&& is_table_base(db.page_tables@, spec_root_base(db, aspace))
    &&& level_of(db.page_tables@, spec_root_base(db, aspace)) == 0
}

/// Everything in the database except the memory subsystem is unchanged.
pub open spec fn mem_only_change(pre: &Database, post: &Database) -> bool {
    &&& post.workers@ == pre.workers@
    &&& post.policy_rule@ == pre.policy_rule@
    &&& post.vfs_nodes@ == pre.vfs_nodes@
    &&& post.vfs_providers@ == pre.vfs_providers@
    &&& post.users@ == pre.users@
    &&& post.groups@ == pre.groups@
    &&& post.kernel_start == pre.kernel_start
    &&& post.kernel_end == pre.kernel_end
}

/// The frame allocator evolved by allocations only: same arenas, same handle
/// geometry, no frame freed.
pub open spec fn phys_grows(pre: &Database, post: &Database) -> bool {
    &&& pmm::total_pages(post.phys.arenas()) == pmm::total_pages(pre.phys.arenas())
    &&& forall|h: int| pmm::spec_handle_base(post.phys.arenas(), h) == pmm::spec_handle_base(
        pre.phys.arenas(),
        h,
    )
    &&& forall|h: int| pmm::spec_allocated(pre.phys.arenas(), h) ==> pmm::spec_allocated(
        post.phys.arenas(),
        h,
    )
    &&& forall|h: int| pmm::spec_bitmap_frame(post.phys.arenas(), h) == pmm::spec_bitmap_frame(
        pre.phys.arenas(),
        h,
    )
}

/// Old tables survive with their base, level and (except `touched`) their
/// entries; at most new tables are appended.
pub open spec fn tables_grow(pre: Seq<PageTable>, post: Seq<PageTable>, touched: u64) -> bool {
    &&& forall|b: u64| #[trigger] is_table_base(pre, b) ==> is_table_base(post, b)
    &&& forall|b: u64| is_table_base(pre, b) ==> #[trigger] level_of(post, b) == level_of(pre, b)
    &&& forall|b: u64| is_table_base(pre, b) && b != touched ==> #[trigger] entries_of(post, b)
        == entries_of(pre, b)
}

proof fn lemma_table_index_props(ts: Seq<PageTable>, base: u64)
    ensures
        0 <= table_index(ts, base) <= ts.len(),
        table_index(ts, base) < ts.len() ==> ts[table_index(ts, base)].base == base,
        forall|j: int| 0 <= j < table_index(ts, base) ==> ts[j].base != base,
    decreases ts.len(),
{
    if ts.len() > 0 && ts[0].base != base {
        lemma_table_index_props(ts.skip(1), base);
        assert(forall|j: int| 0 <= j < ts.skip(1).len() ==> ts.skip(1)[j] == ts[j + 1]);
        assert forall|j: int| 0 <= j < table_index(ts, base) implies ts[j].base != base by {
            if j > 0 {
                assert(ts.skip(1)[j - 1].base != base);
            }
        }
    }
}

/// With distinct bases, the index of the table holding slot `i` is `i`.
proof fn lemma_table_index_of_slot(ts: Seq<PageTable>, i: int)
    requires
        0 <= i < ts.len(),
        forall|a: int, b: int| 0 <= a < b < ts.len() ==> (#[trigger] ts[a]).base != (
        #[trigger] ts[b]).base,
    ensures
        table_index(ts, ts[i].base) == i,
{
    lemma_table_index_props(ts, ts[i].base);
    let ti = table_index(ts, ts[i].base);
    if ti < i {
        assert(ts[ti].base == ts[i].base);
        assert(false);
    }
}

/// Updating a slot without changing its base leaves every lookup index
/// unchanged.
proof fn lemma_table_index_update(ts: Seq<PageTable>, i: int, t: PageTable, b: u64)
    requires
        0 <= i < ts.len(),
        t.base == ts[i].base,
    ensures
        table_index(ts.update(i, t), b) == table_index(ts, b),
    decreases ts.len(),
{
    if ts.len() > 0 {
        if i == 0 {
            assert(ts.update(0, t).skip(1) =~= ts.skip(1));
        } else if ts[0].base != b {
            assert(ts.update(i, t).skip(1) =~= ts.skip(1).update(i - 1, t));
            lemma_table_index_update(ts.skip(1), i - 1, t, b);
        }
    }
}

/// Appending a table changes no lookup of another base.
proof fn lemma_table_index_push(ts: Seq<PageTable>, t: PageTable, b: u64)
    ensures
        b != t.base ==> table_index(ts.push(t), b) == table_index(ts, b) || (!is_table_base(ts, b)
            && !is_table_base(ts.push(t), b)),
        b != t.base ==> is_table_base(ts.push(t), b) == is_table_base(ts, b),
        b != t.base && is_table_base(ts, b) ==> table_index(ts.push(t), b) == table_index(ts, b),
    decreases ts.len(),
{
    if ts.len() == 0 {
        if b != t.base {
            assert(table_index(ts.push(t), b) == 1 + table_index(ts.push(t).skip(1), b));
        }
    } else {
        assert(ts.push(t).skip(1) =~= ts.skip(1).push(t));
        if ts[0].base != b {
            lemma_table_index_push(ts.skip(1), t, b);
        }
    }
}

/// Looking up the just-appended base lands on the appended table, provided
/// no earlier table carries it.
proof fn lemma_table_index_push_new(ts: Seq<PageTable>, t: PageTable)
    requires
        !is_table_base(ts, t.base),
    ensures
        table_index(ts.push(t), t.base) == ts.len(),
        is_table_base(ts.push(t), t.base),
    decreases ts.len(),
{
    lemma_table_index_props(ts, t.base);
    if ts.len() == 0 {
    } else {
        assert(ts.push(t).skip(1) =~= ts.skip(1).push(t));
        assert(!is_table_base(ts.skip(1), t.base)) by {
            lemma_table_index_props(ts.skip(1), t.base);
            if is_table_base(ts.skip(1), t.base) {
                let j = table_index(ts.skip(1), t.base);
                assert(ts.skip(1)[j] == ts[j + 1]);
                assert(table_index(ts, t.base) <= j + 1) by {
                    lemma_table_index_props(ts, t.base);
                    if table_index(ts, t.base) > j + 1 {
                        assert(ts[j + 1].base != t.base);
                    }
                }
            }
        }
        lemma_table_index_push_new(ts.skip(1), t);
    }
}

/// Finds the slot of the table at `base`.
fn find_table(tables: &Vec<PageTable>, base: u64) -> (r: Option<usize>)
    ensures
        match r {
            Some(i) => i < tables@.len() && tables@[i as int].base == base && i as int
                == table_index(tables@, base),
            None => !is_table_base(tables@, base),
        },
{
    proof {
        lemma_table_index_props(tables@, base);
    }
    let n = tables.len();
    let mut i: usize = 0;
    while i < n
        invariant
            n == tables@.len(),
            i <= n,
            forall|j: int| 0 <= j < i ==> tables@[j].base != base,
        decreases n - i,
    {
        if tables[i].base == base {
            proof {
                lemma_table_index_skip_eq(tables@, base, i as int);
            }
            return Some(i);
        }
        i = i + 1;
    }
    proof {
        lemma_table_index_props(tables@, base);
        if is_table_base(tables@, base) {
            let j = table_index(tables@, base);
            assert(tables@[j].base == base);
        }
    }
    None
}

/// A scan that passed `a` misses finds the first match beyond them.
proof fn lemma_table_index_skip_eq(ts: Seq<PageTable>, base: u64, a: int)
    requires
        0 <= a < ts.len(),
        ts[a].base == base,
        forall|j: int| 0 <= j < a ==> ts[j].base != base,
    ensures
        table_index(ts, base) == a,
    decreases a,
{
    if a > 0 {
        assert(forall|j: int| 0 <= j < ts.skip(1).len() ==> ts.skip(1)[j] == ts[j + 1]);
        lemma_table_index_skip_eq(ts.skip(1), base, a - 1);
    }
}

/// A fresh table: 512 zero entries.
pub open spec fn zero_entries() -> Seq<u64> {
    Seq::new(512, |i: int| 0u64)
}

fn make_zero_entries() -> (r: Vec<u64>)
    ensures
        r@ == zero_entries(),
{
    let mut r: Vec<u64> = Vec::new();
    let mut i: usize = 0;
    while i < 512
        invariant
            i <= 512,
            r@.len() == i,
            forall|j: int| 0 <= j < i ==> r@[j] == 0u64,
        decreases 512 - i,
    {
        r.push(0u64);
        i = i + 1;
    }
    proof {
        assert(r@ =~= zero_entries());
    }
    r
}

/// Frame bases are page aligned and the whole frame fits the address space.
pub proof fn lemma_handle_base_aligned(s: Seq<pmm::Arena>, h: int)
    requires
        pmm::arenas_wf(s),
        0 <= h < pmm::total_pages(s),
    ensures
        pmm::spec_handle_base(s, h) % 4096 == 0,
        0 <= pmm::spec_handle_base(s, h),
        pmm::spec_handle_base(s, h) + 4096 <= usize::MAX,
    decreases s.len(),
{
    if s.len() > 0 {
        let np0 = s[0].spec_num_pages();
        assert(pmm::total_pages(s) == np0 + pmm::total_pages(s.skip(1))) by {
            pmm::lemma_total_unfold(s);
        }
        if h < np0 {
            assert(s[0].wf());
            assert((s[0].spec_base() + h * 4096) % 4096 == 0) by (nonlinear_arith)
                requires
                    s[0].spec_base() % 4096 == 0,
                    h >= 0,
            ;
            assert(s[0].spec_length() == np0 * 4096) by {
                pmm::lemma_arena_length_pub(s[0]);
            }
            assert(h * 4096 + 4096 <= np0 * 4096) by (nonlinear_arith)
                requires
                    0 <= h < np0,
            ;
        } else {
            assert(forall|i: int| 0 <= i < s.skip(1).len() ==> (#[trigger] s.skip(1)[i]) == s[i
                + 1]);
            lemma_handle_base_aligned(s.skip(1), h - np0);
        }
    }
}

/// The base of a frame that was just free differs from every table base.
proof fn lemma_fresh_base(db_ar: Seq<pmm::Arena>, ts: Seq<PageTable>, h: int)
    requires
        pmm::arenas_wf(db_ar),
        0 <= h < pmm::total_pages(db_ar),
        !pmm::spec_allocated(db_ar, h),
        forall|i: int| 0 <= i < ts.len() ==> exists|h2: int|
            0 <= h2 < pmm::total_pages(db_ar) && pmm::spec_allocated(db_ar, h2)
                && pmm::spec_handle_base(db_ar, h2) == (#[trigger] ts[i]).base,
    ensures
        forall|i: int| 0 <= i < ts.len() ==> (#[trigger] ts[i]).base != pmm::spec_handle_base(
            db_ar,
            h,
        ),
        !is_table_base(ts, pmm::spec_handle_base(db_ar, h) as u64),
{
    assert forall|i: int| 0 <= i < ts.len() implies (#[trigger] ts[i]).base
        != pmm::spec_handle_base(db_ar, h) by {
        let h2 = choose|h2: int|
            0 <= h2 < pmm::total_pages(db_ar) && pmm::spec_allocated(db_ar, h2)
                && pmm::spec_handle_base(db_ar, h2) == ts[i].base;
        assert(h2 != h);
        pmm::lemma_base_injective(db_ar, h, h2);
    }
    lemma_handle_base_aligned(db_ar, h);
    let b = pmm::spec_handle_base(db_ar, h) as u64;
    assert(b as int == pmm::spec_handle_base(db_ar, h));
    lemma_table_index_props(ts, b);
    if is_table_base(ts, b) {
        let i = table_index(ts, b);
        assert(ts[i].base == b);
        assert(false);
    }
}

/// Mutable access to one table slot.
fn table_at_mut(v: &mut Vec<PageTable>, i: usize) -> (r: &mut PageTable)
    requires
        i < old(v)@.len(),
    ensures
        *r == old(v)@[i as int],
        final(v)@ == old(v)@.update(i as int, *final(r)),
{
    &mut v[i]
}

/// Walks one inner level: returns the base of the next-level table, creating
/// it in a fresh zeroed frame when the entry is absent, and overriding the
/// entry's flags when they differ, exactly as the hardware walk helper does.
fn ensure_next(db: &mut Database, table_base: u64, idx: usize, flags: u64) -> (r: u64)
    requires
        tables_wf(old(db)),
        is_table_base(old(db).page_tables@, table_base),
        level_of(old(db).page_tables@, table_base) < 3,
        idx < 512,
        flags & !0xfffu64 == 0,
        pmm::free_frames(old(db).phys.arenas()) >= 1,
    ensures
        tables_wf(final(db)),
        mem_only_change(old(db), final(db)),
        final(db).aspaces@ == old(db).aspaces@,
        phys_grows(old(db), final(db)),
        pmm::free_frames(final(db).phys.arenas()) >= pmm::free_frames(old(db).phys.arenas()) - 1,
        tables_grow(old(db).page_tables@, final(db).page_tables@, table_base),
        forall|b: u64| is_table_base(final(db).page_tables@, b) ==> is_table_base(
            old(db).page_tables@,
            b,
        ) || b == r,
        r & 0xfffu64 == 0,
        entries_of(final(db).page_tables@, table_base) == entries_of(
            old(db).page_tables@,
            table_base,
        ).update(idx as int, r | flags),
        is_table_base(final(db).page_tables@, r),
        level_of(final(db).page_tables@, r) == level_of(old(db).page_tables@, table_base) + 1,
        pte_present(entries_of(old(db).page_tables@, table_base)[idx as int]) ==> r == pte_addr(
            entries_of(old(db).page_tables@, table_base)[idx as int],
        ) && final(db).page_tables@.len() == old(db).page_tables@.len() && final(db).phys == old(
            db,
        ).phys,
        !pte_present(entries_of(old(db).page_tables@, table_base)[idx as int]) ==> !is_table_base(
            old(db).page_tables@,
            r,
        ) && final(db).page_tables@.len() == old(db).page_tables@.len() + 1 && entries_of(
            final(db).page_tables@,
            r,
        ) == zero_entries(),
{
    proof {
        lemma_table_index_props(old(db).page_tables@, table_base);
    }
    let ghost ts0 = db.page_tables@;
    let ghost ts0_ar = db.phys.arenas();
    let ti = match find_table(&db.page_tables, table_base) {
        Some(i) => i,
        None => {
            proof {
                assert(false);
            }
            return 0;
        },
    };
    let entry = db.page_tables[ti].entries[idx];
    if entry & 1u64 != 0 {
        let addr = entry & !0xfffu64;
        proof {
            assert(pte_present(entry));
            let e = entry;
            let f = flags;
            assert(((e & !0xfffu64) | f) & !0xfffu64 == e & !0xfffu64 && (e & !0xfffu64)
                & 0xfffu64 == 0u64 && (e & 0xfffu64 == f ==> e == (e & !0xfffu64) | f)) by (
            bit_vector)
                requires
                    f & !0xfffu64 == 0,
            ;
        }
        if entry & 0xfffu64 != flags {
            let t = table_at_mut(&mut db.page_tables, ti);
            t.entries.set(idx, addr | flags);
        }
        proof {
            let ts1 = db.page_tables@;
            assert(ts1 =~= ts0.update(ti as int, ts1[ti as int]));
            assert(ts1[ti as int].base == ts0[ti as int].base);
            assert(ts1[ti as int].level == ts0[ti as int].level);
            assert(ts1[ti as int].entries@ =~= ts0[ti as int].entries@.update(
                idx as int,
                addr | flags,
            ));
            assert(ts1[ti as int].base == table_base);
            assert(forall|j: int| 0 <= j < ts1.len() && j != ti as int ==> #[trigger] ts1[j]
                == ts0[j]);
            assert(forall|j: int| 0 <= j < ts1.len() ==> (#[trigger] ts1[j]).level == ts0[j].level
                && ts1[j].base == ts0[j].base);
            assert forall|b: u64| #[trigger] table_index(ts1, b) == table_index(ts0, b) by {
                lemma_table_index_update(ts0, ti as int, ts1[ti as int], b);
            }
            assert forall|b: u64| is_table_base(ts0, b) implies #[trigger] level_of(ts1, b)
                == level_of(ts0, b) by {
                lemma_table_index_props(ts0, b);
                assert(table_index(ts1, b) == table_index(ts0, b));
            }
            assert(entries_of(ts1, table_base) =~= entries_of(ts0, table_base).update(
                idx as int,
                addr | flags,
            ));
            assert forall|b: u64| is_table_base(ts0, b) && b != table_base implies
                #[trigger] entries_of(ts1, b) == entries_of(ts0, b) by {
                lemma_table_index_props(ts0, b);
                assert(table_index(ts1, b) == table_index(ts0, b));
                assert(table_index(ts0, b) != ti as int);
            }
            // the pointed-to table is one level deeper, straight from pt_wf
            assert(is_table_base(ts0, addr) && level_of(ts0, addr) == ts0[ti as int].level + 1);
            assert(level_of(ts1, addr) == level_of(ts0, table_base) + 1) by {
                assert(table_index(ts1, addr) == table_index(ts0, addr));
                assert(level_of(ts0, table_base) == ts0[ti as int].level);
            }
            // soundness is preserved: the only changed cell keeps its address
            assert forall|i: int, e: int|
                0 <= i < ts1.len() && (#[trigger] ts1[i]).level < 3 && 0 <= e < 512 && pte_present(
                    #[trigger] ts1[i].entries@[e],
                ) implies is_table_base(ts1, pte_addr(ts1[i].entries@[e])) && level_of(
                ts1,
                pte_addr(ts1[i].entries@[e]),
            ) == ts1[i].level + 1 by {
                if i == ti as int && e == idx as int {
                    assert(pte_addr(ts1[i].entries@[e]) == addr);
                    assert(table_index(ts1, addr) == table_index(ts0, addr));
                } else {
                    assert(ts1[i].entries@[e] == ts0[i].entries@[e]);
                    assert(ts0[i].level < 3);
                    if pte_present(ts0[i].entries@[e]) {
                        let a = pte_addr(ts0[i].entries@[e]);
                        assert(is_table_base(ts0, a) && level_of(ts0, a) == ts0[i].level + 1);
                        assert(table_index(ts1, a) == table_index(ts0, a));
                    }
                }
            }
            assert forall|i1: int, e1: int, i2: int, e2: int|
                0 <= i1 < ts1.len() && 0 <= i2 < ts1.len() && (#[trigger] ts1[i1]).level < 3 && (
                #[trigger] ts1[i2]).level < 3 && 0 <= e1 < 512 && 0 <= e2 < 512 && (i1 != i2 || e1
                != e2) && pte_present(#[trigger] ts1[i1].entries@[e1]) && pte_present(
                #[trigger] ts1[i2].entries@[e2],
            ) implies pte_addr(ts1[i1].entries@[e1]) != pte_addr(ts1[i2].entries@[e2]) by {
                assert(pte_addr(ts1[i1].entries@[e1]) == pte_addr(ts0[i1].entries@[e1]));
                assert(pte_addr(ts1[i2].entries@[e2]) == pte_addr(ts0[i2].entries@[e2]));
                assert(pte_present(ts0[i1].entries@[e1]));
                assert(pte_present(ts0[i2].entries@[e2]));
            }
            assert forall|i: int| 0 <= i < ts1.len() implies wf_table(#[trigger] ts1[i]) by {
                assert(wf_table(ts0[i]));
                if i == ti as int {
                    assert(ts1[i].entries@.len() == 512);
                }
            }
            let arp = db.phys.arenas();
            assert forall|i: int| 0 <= i < ts1.len() implies exists|h2: int|
                0 <= h2 < pmm::total_pages(arp) && pmm::spec_allocated(arp, h2)
                    && pmm::spec_handle_base(arp, h2) == (#[trigger] ts1[i]).base by {
                let h2 = choose|h2: int|
                    0 <= h2 < pmm::total_pages(ts0_ar) && pmm::spec_allocated(ts0_ar, h2)
                        && pmm::spec_handle_base(ts0_ar, h2) == ts0[i].base;
                assert(0 <= h2 < pmm::total_pages(arp) && pmm::spec_allocated(arp, h2)
                    && pmm::spec_handle_base(arp, h2) == ts1[i].base);
            }
        }
        addr
    } else {
        let ghost ar0 = db.phys.arenas();
        let h = pmm::Manager::alloc_page_zeroed(&mut db.phys);
        let base_usize = h.get(&db.phys);
        let base = base_usize as u64;
        proof {
            assert(pmm::spec_handle_base(db.phys.arenas(), h.0 as int) == pmm::spec_handle_base(
                ar0,
                h.0 as int,
            ));
            lemma_fresh_base(ar0, ts0, h.0 as int);
            lemma_handle_base_aligned(ar0, h.0 as int);
            let b64 = base;
            let f = flags;
            assert((b64 | f) & !0xfffu64 == b64 && (b64 & 0xfffu64 == 0u64)) by (bit_vector)
                requires
                    f & !0xfffu64 == 0,
                    b64 % 4096 == 0,
            ;
        }
        let entries = make_zero_entries();
        let lvl = db.page_tables[ti].level + 1;
        db.page_tables.push(PageTable { base, level: lvl, entries });
        let t = table_at_mut(&mut db.page_tables, ti);
        t.entries.set(idx, base | flags);
        proof {
            let ts2 = db.page_tables@;
            assert(ts2.len() == ts0.len() + 1);
            assert(ts2[ts0.len() as int].base == base);
            assert(ts2[ts0.len() as int].level == ts0[ti as int].level + 1);
            assert(ts2[ts0.len() as int].entries@ == zero_entries());
            assert(ts2[ti as int].base == table_base);
            assert(ts2[ti as int].entries@ =~= ts0[ti as int].entries@.update(
                idx as int,
                base | flags,
            ));
            assert(forall|i: int| 0 <= i < ts0.len() && i != ti as int ==> ts2[i] == ts0[i]);
            // lookups: old bases resolve as before, the fresh base to the new slot
            assert forall|b: u64| is_table_base(ts0, b) implies #[trigger] table_index(ts2, b)
                == table_index(ts0, b) && is_table_base(ts2, b) by {
                lemma_table_index_stable(ts0, ts2, b);
            }
            assert(!is_table_base(ts0, base));
            assert(forall|j: int| 0 <= j < ts0.len() ==> ts2[j].base != base);
            lemma_table_index_skip_eq(ts2, base, ts0.len() as int);
            assert(table_index(ts2, base) == ts0.len() as int);
            assert forall|b: u64| is_table_base(ts2, b) implies is_table_base(ts0, b) || b
                == base by {
                if b != base {
                    lemma_table_index_back(ts0, ts2, b);
                }
            }
            // distinct bases
            assert forall|i: int, j: int| 0 <= i < j < ts2.len() implies (#[trigger] ts2[i]).base
                != (#[trigger] ts2[j]).base by {
                if j == ts0.len() as int {
                    assert(ts2[i].base == ts0[i].base);
                    assert(ts0[i].base != base);
                }
            }
            assert(forall|j: int| 0 <= j < ts0.len() ==> (#[trigger] ts2[j]).level
                == ts0[j].level && ts2[j].base == ts0[j].base);
            assert forall|b: u64| is_table_base(ts0, b) implies #[trigger] level_of(ts2, b)
                == level_of(ts0, b) by {
                lemma_table_index_props(ts0, b);
                lemma_table_index_stable(ts0, ts2, b);
            }
            assert forall|b: u64| is_table_base(ts0, b) && b != table_base implies
                #[trigger] entries_of(ts2, b) == entries_of(ts0, b) by {
                lemma_table_index_props(ts0, b);
                lemma_table_index_stable(ts0, ts2, b);
                assert(table_index(ts0, b) != ti as int);
            }
            let pf = (base | flags);
            let bv = base;
            let fv = flags;
            assert(pte_addr(pf) == bv) by (bit_vector)
                requires
                    pf == (bv | fv),
                    fv & !0xfffu64 == 0,
                    bv & 0xfffu64 == 0,
            ;
            assert(level_of(ts2, base) == ts2[ts0.len() as int].level);
            assert(level_of(ts2, table_base) == level_of(ts0, table_base));
            // child levels
            assert forall|i: int, e: int|
                0 <= i < ts2.len() && (#[trigger] ts2[i]).level < 3 && 0 <= e < 512 && pte_present(
                    #[trigger] ts2[i].entries@[e],
                ) implies is_table_base(ts2, pte_addr(ts2[i].entries@[e])) && level_of(
                ts2,
                pte_addr(ts2[i].entries@[e]),
            ) == ts2[i].level + 1 by {
                if i == ts0.len() as int {
                    assert(ts2[i].entries@[e] == 0u64);
                    lemma_zero_absent();
                } else if i == ti as int && e == idx as int {
                    assert(pte_addr(ts2[i].entries@[e]) == base);
                    assert(level_of(ts2, base) == ts0[ti as int].level + 1);
                } else {
                    assert(ts2[i].entries@[e] == ts0[i].entries@[e]);
                    assert(ts0[i].level < 3);
                    if pte_present(ts0[i].entries@[e]) {
                        let a = pte_addr(ts0[i].entries@[e]);
                        assert(is_table_base(ts0, a) && level_of(ts0, a) == ts0[i].level + 1);
                        lemma_table_index_stable(ts0, ts2, a);
                    }
                }
            }
            assert forall|i: int| 0 <= i < ts2.len() implies wf_table(#[trigger] ts2[i]) by {
                if i < ts0.len() {
                    assert(wf_table(ts0[i]));
                    if i == ti as int {
                        assert(ts2[i].entries@.len() == 512);
                    }
                } else {
                    assert(ts2[i].base == base);
                    assert(ts2[i].level == ts0[ti as int].level + 1);
                    assert(ts2[i].entries@.len() == 512);
                    assert(base % 4096 == 0);
                }
            }
            // every table still sits in an allocated frame
            let ar1 = db.phys.arenas();
            assert forall|i: int| 0 <= i < ts2.len() implies exists|h2: int|
                0 <= h2 < pmm::total_pages(ar1) && pmm::spec_allocated(ar1, h2)
                    && pmm::spec_handle_base(ar1, h2) == (#[trigger] ts2[i]).base by {
                if i < ts0.len() {
                    let h2 = choose|h2: int|
                        0 <= h2 < pmm::total_pages(ar0) && pmm::spec_allocated(ar0, h2)
                            && pmm::spec_handle_base(ar0, h2) == ts0[i].base;
                    assert(pmm::spec_allocated(ar1, h2) && pmm::spec_handle_base(ar1, h2)
                        == ts2[i].base && 0 <= h2 < pmm::total_pages(ar1));
                } else {
                    assert(pmm::spec_allocated(ar1, h.0 as int) && pmm::spec_handle_base(
                        ar1,
                        h.0 as int,
                    ) == ts2[i].base && 0 <= (h.0 as int) < pmm::total_pages(ar1));
                }
            }
            // injectivity: the only new present inner cell points at the fresh
            // base, which no old cell can reach
            assert forall|i1: int, e1: int, i2: int, e2: int|
                0 <= i1 < ts2.len() && 0 <= i2 < ts2.len() && (#[trigger] ts2[i1]).level < 3 && (
                #[trigger] ts2[i2]).level < 3 && 0 <= e1 < 512 && 0 <= e2 < 512 && (i1 != i2 || e1
                != e2) && pte_present(#[trigger] ts2[i1].entries@[e1]) && pte_present(
                #[trigger] ts2[i2].entries@[e2],
            ) implies pte_addr(ts2[i1].entries@[e1]) != pte_addr(ts2[i2].entries@[e2]) by {
                lemma_inj_case(ts0, ts2, ti as int, idx as int, base, i1, e1, i2, e2);
            }
            // the backing facts survive: all old witnesses stay allocated
            assert(entries_of(ts2, table_base) =~= entries_of(ts0, table_base).update(
                idx as int,
                base | flags,
            ));
        }
        base
    }
}

/// Lookups of bases present in a prefix are stable when the prefix's bases
/// are unchanged.
proof fn lemma_table_index_stable(tsa: Seq<PageTable>, tsb: Seq<PageTable>, b: u64)
    requires
        tsa.len() <= tsb.len(),
        forall|i: int| 0 <= i < tsa.len() ==> (#[trigger] tsb[i]).base == tsa[i].base,
        is_table_base(tsa, b),
    ensures
        table_index(tsb, b) == table_index(tsa, b),
        is_table_base(tsb, b),
    decreases tsa.len(),
{
    lemma_table_index_props(tsa, b);
    if tsa[0].base == b {
        assert(tsb[0].base == b);
    } else {
        assert(forall|i: int| 0 <= i < tsa.skip(1).len() ==> tsa.skip(1)[i] == tsa[i + 1]);
        assert(forall|i: int| 0 <= i < tsb.skip(1).len() ==> tsb.skip(1)[i] == tsb[i + 1]);
        assert(is_table_base(tsa.skip(1), b)) by {
            lemma_table_index_props(tsa.skip(1), b);
            assert(table_index(tsa, b) == 1 + table_index(tsa.skip(1), b));
        }
        lemma_table_index_stable(tsa.skip(1), tsb.skip(1), b);
    }
}

/// A base found after one append, other than the appended one, was already
/// there.
proof fn lemma_table_index_back(tsa: Seq<PageTable>, tsb: Seq<PageTable>, b: u64)
    requires
        tsb.len() == tsa.len() + 1,
        forall|i: int| 0 <= i < tsa.len() ==> (#[trigger] tsb[i]).base == tsa[i].base,
        tsb[tsa.len() as int].base != b,
        is_table_base(tsb, b),
    ensures
        is_table_base(tsa, b),
{
    lemma_table_index_props(tsb, b);
    let j = table_index(tsb, b);
    assert(j < tsa.len());
    assert(tsa[j].base == b);
    lemma_table_index_props(tsa, b);
    if table_index(tsa, b) > j {
        assert(tsa[j].base != b);
    }
}

/// Distinctness of the addresses behind two present inner cells, after the
/// walk wrote one cell to point at a frame no old table sits in.
proof fn lemma_inj_case(
    ts0: Seq<PageTable>,
    ts2: Seq<PageTable>,
    ti: int,
    idx: int,
    base: u64,
    i1: int,
    e1: int,
    i2: int,
    e2: int,
)
    requires
        pt_wf(ts0),
        ts2.len() == ts0.len() + 1,
        0 <= ti < ts0.len(),
        0 <= idx < 512,
        forall|i: int| 0 <= i < ts0.len() && i != ti ==> #[trigger] ts2[i] == ts0[i],
        ts2[ti].level == ts0[ti].level,
        ts2[ti].entries@.len() == 512,
        ts0[ti].entries@.len() == 512,
        forall|e: int| 0 <= e < 512 && e != idx ==> ts2[ti].entries@[e] == ts0[ti].entries@[e],
        pte_addr(ts2[ti].entries@[idx]) == base,
        forall|e: int| 0 <= e < 512 ==> ts2[ts0.len() as int].entries@[e] == 0u64,
        !is_table_base(ts0, base),
        0 <= i1 < ts2.len(),
        0 <= i2 < ts2.len(),
        ts2[i1].level < 3,
        ts2[i2].level < 3,
        0 <= e1 < 512,
        0 <= e2 < 512,
        i1 != i2 || e1 != e2,
        pte_present(ts2[i1].entries@[e1]),
        pte_present(ts2[i2].entries@[e2]),
    ensures
        pte_addr(ts2[i1].entries@[e1]) != pte_addr(ts2[i2].entries@[e2]),
{
    lemma_zero_absent();
    assert(i1 != ts0.len() && i2 != ts0.len());
    if i1 == ti && e1 == idx {
        // the new cell points at the fresh frame; the other cell is an old
        // cell whose address is an old table base
        let a2 = pte_addr(ts2[i2].entries@[e2]);
        assert(ts2[i2].entries@[e2] == ts0[i2].entries@[e2]);
        assert(is_table_base(ts0, a2));
        lemma_table_index_props(ts0, a2);
        lemma_table_index_props(ts0, base);
    } else if i2 == ti && e2 == idx {
        let a1 = pte_addr(ts2[i1].entries@[e1]);
        assert(ts2[i1].entries@[e1] == ts0[i1].entries@[e1]);
        assert(is_table_base(ts0, a1));
        lemma_table_index_props(ts0, a1);
        lemma_table_index_props(ts0, base);
    } else {
        assert(ts2[i1].entries@[e1] == ts0[i1].entries@[e1]);
        assert(ts2[i2].entries@[e2] == ts0[i2].entries@[e2]);
        assert(ts0[i1].level < 3 && ts0[i2].level < 3);
    }
}

/// Writes one leaf entry; the table must be a leaf table, whose cells the
/// walk never follows.
fn write_leaf(db: &mut Database, table_base: u64, idx: usize, value: u64)
    requires
        tables_wf(old(db)),
        is_table_base(old(db).page_tables@, table_base),
        level_of(old(db).page_tables@, table_base) == 3,
        idx < 512,
    ensures
        tables_wf(final(db)),
        mem_only_change(old(db), final(db)),
        final(db).aspaces@ == old(db).aspaces@,
        final(db).phys == old(db).phys,
        final(db).page_tables@.len() == old(db).page_tables@.len(),
        tables_grow(old(db).page_tables@, final(db).page_tables@, table_base),
        forall|b: u64| is_table_base(final(db).page_tables@, b) == is_table_base(
            old(db).page_tables@,
            b,
        ),
        entries_of(final(db).page_tables@, table_base) == entries_of(
            old(db).page_tables@,
            table_base,
        ).update(idx as int, value),
{
    proof {
        lemma_table_index_props(old(db).page_tables@, table_base);
    }
    let ghost ts0 = db.page_tables@;
    let ghost ts0_ar = db.phys.arenas();
    let ti = match find_table(&db.page_tables, table_base) {
        Some(i) => i,
        None => {
            proof {
                assert(false);
            }
            return ;
        },
    };
    let t = table_at_mut(&mut db.page_tables, ti);
    t.entries.set(idx, value);
    proof {
        let ts1 = db.page_tables@;
        assert(ts1[ti as int].base == ts0[ti as int].base);
        assert(ts1[ti as int].level == ts0[ti as int].level);
        assert(ts1[ti as int].entries@ =~= ts0[ti as int].entries@.update(idx as int, value));
        assert(forall|j: int| 0 <= j < ts1.len() && j != ti as int ==> #[trigger] ts1[j]
            == ts0[j]);
        assert(forall|j: int| 0 <= j < ts1.len() ==> (#[trigger] ts1[j]).level == ts0[j].level
            && ts1[j].base == ts0[j].base);
        assert forall|b: u64| #[trigger] table_index(ts1, b) == table_index(ts0, b) by {
            lemma_table_index_update(ts0, ti as int, ts1[ti as int], b);
        }
        assert forall|b: u64| is_table_base(ts0, b) implies #[trigger] level_of(ts1, b)
            == level_of(ts0, b) by {
            lemma_table_index_props(ts0, b);
        }
        assert forall|b: u64| is_table_base(ts0, b) && b != table_base implies
            #[trigger] entries_of(ts1, b) == entries_of(ts0, b) by {
            lemma_table_index_props(ts0, b);
            assert(table_index(ts0, b) != ti as int);
        }
        assert(entries_of(ts1, table_base) =~= entries_of(ts0, table_base).update(
            idx as int,
            value,
        ));
        // the changed cell is in a leaf table, which no walk follows
        assert forall|i: int, e: int|
            0 <= i < ts1.len() && (#[trigger] ts1[i]).level < 3 && 0 <= e < 512 && pte_present(
                #[trigger] ts1[i].entries@[e],
            ) implies is_table_base(ts1, pte_addr(ts1[i].entries@[e])) && level_of(
            ts1,
            pte_addr(ts1[i].entries@[e]),
        ) == ts1[i].level + 1 by {
            assert(i != ti as int);
            assert(ts1[i].entries@[e] == ts0[i].entries@[e]);
            let a = pte_addr(ts0[i].entries@[e]);
            assert(is_table_base(ts0, a) && level_of(ts0, a) == ts0[i].level + 1);
        }
        assert forall|i1: int, e1: int, i2: int, e2: int|
            0 <= i1 < ts1.len() && 0 <= i2 < ts1.len() && (#[trigger] ts1[i1]).level < 3 && (
            #[trigger] ts1[i2]).level < 3 && 0 <= e1 < 512 && 0 <= e2 < 512 && (i1 != i2 || e1
            != e2) && pte_present(#[trigger] ts1[i1].entries@[e1]) && pte_present(
            #[trigger] ts1[i2].entries@[e2],
        ) implies pte_addr(ts1[i1].entries@[e1]) != pte_addr(ts1[i2].entries@[e2]) by {
            assert(i1 != ti as int && i2 != ti as int);
            assert(ts1[i1].entries@[e1] == ts0[i1].entries@[e1]);
            assert(ts1[i2].entries@[e2] == ts0[i2].entries@[e2]);
        }
        assert forall|i: int| 0 <= i < ts1.len() implies wf_table(#[trigger] ts1[i]) by {
            assert(wf_table(ts0[i]));
            if i == ti as int {
                assert(ts1[i].entries@.len() == 512);
            }
        }
        assert forall|i: int| 0 <= i < ts1.len() implies exists|h2: int|
            0 <= h2 < pmm::total_pages(ts0_ar) && pmm::spec_allocated(ts0_ar, h2)
                && pmm::spec_handle_base(ts0_ar, h2) == (#[trigger] ts1[i]).base by {
            let h2 = choose|h2: int|
                0 <= h2 < pmm::total_pages(ts0_ar) && pmm::spec_allocated(ts0_ar, h2)
                    && pmm::spec_handle_base(ts0_ar, h2) == ts0[i].base;
            assert(0 <= h2 < pmm::total_pages(ts0_ar) && pmm::spec_allocated(ts0_ar, h2)
                && pmm::spec_handle_base(ts0_ar, h2) == ts1[i].base);
        }
        assert(forall|a: int, b: int| 0 <= a < b < ts1.len() ==> (#[trigger] ts1[a]).base != (
        #[trigger] ts1[b]).base);
        assert(db.phys.wf());
        assert(db.phys.arenas() == ts0_ar);
        assert(pt_wf(ts1));
        assert(tables_wf(db));
    }
}

/// A zero entry is never present.
pub proof fn lemma_zero_absent()
    ensures
        !pte_present(0u64),
{
    assert(0u64 & 0x1u64 == 0u64) by (bit_vector);
}

/// Walk indices are always below 512.
proof fn lemma_vindex_range(va: u64)
    ensures
        0 <= vindex(va, 39) < 512,
        0 <= vindex(va, 30) < 512,
        0 <= vindex(va, 21) < 512,
        0 <= vindex(va, 12) < 512,
{
    assert((va >> 39u64) & 0x1ffu64 < 512 && (va >> 30u64) & 0x1ffu64 < 512 && (va
        >> 21u64) & 0x1ffu64 < 512 && (va >> 12u64) & 0x1ffu64 < 512) by (bit_vector);
}

/// After one page is mapped, every address that walks through a different
/// cell keeps its presence, and keeps its leaf PTE if it was present.
#[verifier::rlimit(60)]
proof fn lemma_preserve(
    ts0: Seq<PageTable>,
    ts4: Seq<PageTable>,
    root: u64,
    i0: int,
    i1: int,
    i2: int,
    i3: int,
    b1: u64,
    b2: u64,
    b3: u64,
    leafv: u64,
    flags: u64,
    va: u64,
)
    requires
        pt_wf(ts0),
        pt_wf(ts4),
        flags & !0xfffu64 == 0,
        flags & 0x1u64 != 0,
        0 <= i0 < 512,
        0 <= i1 < 512,
        0 <= i2 < 512,
        0 <= i3 < 512,
        is_table_base(ts0, root),
        level_of(ts0, root) == 0,
        // lookups survive, with their levels
        forall|b: u64| #[trigger] is_table_base(ts0, b) ==> is_table_base(ts4, b),
        forall|b: u64| is_table_base(ts0, b) ==> #[trigger] level_of(ts4, b) == level_of(ts0, b),
        // untouched tables keep their entries
        forall|b: u64| is_table_base(ts0, b) && b != root && b != b1 && b != b2 && b != b3
            ==> #[trigger] entries_of(ts4, b) == entries_of(ts0, b),
        // the walked chain in the new state
        is_table_base(ts4, b1) && level_of(ts4, b1) == 1,
        is_table_base(ts4, b2) && level_of(ts4, b2) == 2,
        is_table_base(ts4, b3) && level_of(ts4, b3) == 3,
        entries_of(ts4, root) == entries_of(ts0, root).update(i0, b1 | flags),
        pte_addr(b1 | flags) == b1 && pte_present(b1 | flags),
        pte_addr(b2 | flags) == b2 && pte_present(b2 | flags),
        pte_addr(b3 | flags) == b3 && pte_present(b3 | flags),
        // each level: either the entry existed (same address) or the table is fresh
        is_table_base(ts0, b1) ==> pte_present(entries_of(ts0, root)[i0]) && pte_addr(
            entries_of(ts0, root)[i0],
        ) == b1,
        !is_table_base(ts0, b1) ==> !pte_present(entries_of(ts0, root)[i0]),
        entries_of(ts4, b1) == (if is_table_base(ts0, b1) {
            entries_of(ts0, b1)
        } else {
            zero_entries()
        }).update(i1, b2 | flags),
        is_table_base(ts0, b2) ==> is_table_base(ts0, b1) && pte_present(
            entries_of(ts0, b1)[i1],
        ) && pte_addr(entries_of(ts0, b1)[i1]) == b2,
        is_table_base(ts0, b1) && !is_table_base(ts0, b2) ==> !pte_present(
            entries_of(ts0, b1)[i1],
        ),
        !is_table_base(ts0, b1) ==> !is_table_base(ts0, b2),
        entries_of(ts4, b2) == (if is_table_base(ts0, b2) {
            entries_of(ts0, b2)
        } else {
            zero_entries()
        }).update(i2, b3 | flags),
        is_table_base(ts0, b3) ==> is_table_base(ts0, b2) && pte_present(
            entries_of(ts0, b2)[i2],
        ) && pte_addr(entries_of(ts0, b2)[i2]) == b3,
        is_table_base(ts0, b2) && !is_table_base(ts0, b3) ==> !pte_present(
            entries_of(ts0, b2)[i2],
        ),
        !is_table_base(ts0, b2) ==> !is_table_base(ts0, b3),
        entries_of(ts4, b3) == (if is_table_base(ts0, b3) {
            entries_of(ts0, b3)
        } else {
            zero_entries()
        }).update(i3, leafv),
        // the address walks through some other cell
        !(vindex(va, 39) == i0 && vindex(va, 30) == i1 && vindex(va, 21) == i2 && vindex(va, 12)
            == i3),
    ensures
        mapping_present(ts4, root, va) == mapping_present(ts0, root, va),
        mapping_present(ts0, root, va) ==> leaf_pte(ts4, root, va) == leaf_pte(ts0, root, va),
{
    lemma_vindex_range(va);
    lemma_zero_absent();
    let a0 = vindex(va, 39);
    let a1 = vindex(va, 30);
    let a2 = vindex(va, 21);
    let a3 = vindex(va, 12);
    let tr = table_index(ts0, root);
    lemma_table_index_props(ts0, root);
    lemma_table_index_props(ts0, b1);
    lemma_table_index_props(ts0, b2);
    lemma_table_index_props(ts0, b3);
    lemma_table_index_props(ts4, root);
    // the four written tables are pairwise distinct: their depths differ
    assert(level_of(ts4, root) == 0);
    assert(root != b1 && root != b2 && root != b3 && b1 != b2 && b1 != b3 && b2 != b3);
    assert(wf_table(ts0[tr]));
    if a0 != i0 {
        // diverges at the root
        let e0 = entries_of(ts0, root)[a0];
        assert(entries_of(ts4, root)[a0] == e0);
        if !pte_present(e0) {
            assert(leaf_pte(ts0, root, va) is None && leaf_pte(ts4, root, va) is None);
        } else {
            let vb1 = pte_addr(e0);
            assert(is_table_base(ts0, vb1) && level_of(ts0, vb1) == 1) by {
                assert(pte_present(ts0[tr].entries@[a0]));
            }
            assert(vb1 != b1) by {
                if is_table_base(ts0, b1) {
                    assert(pte_addr(ts0[tr].entries@[a0]) != pte_addr(ts0[tr].entries@[i0]));
                }
            }
            assert(vb1 != root && vb1 != b2 && vb1 != b3) by {
                assert(level_of(ts4, vb1) == 1);
            }
            lemma_tail2(ts0, ts4, vb1, a1, a2, a3, i1, i2, i3, b1, b2, b3, root);
        }
    } else if a1 != i1 {
        let e0 = entries_of(ts0, root)[i0];
        if !pte_present(e0) {
            // the whole chain below the root is fresh
            assert(!is_table_base(ts0, b1));
            assert(leaf_pte(ts0, root, va) is None);
            assert(entries_of(ts4, root)[i0] == (b1 | flags));
            assert(entries_of(ts4, b1)[a1] == 0u64);
            assert(leaf_pte(ts4, root, va) is None);
        } else {
            assert(is_table_base(ts0, b1) && pte_addr(e0) == b1);
            assert(entries_of(ts4, root)[i0] == (b1 | flags));
            let eva1_old = entries_of(ts0, b1)[a1];
            assert(entries_of(ts4, b1)[a1] == eva1_old);
            if !pte_present(eva1_old) {
                assert(leaf_pte(ts0, root, va) is None && leaf_pte(ts4, root, va) is None);
            } else {
                let vb2 = pte_addr(eva1_old);
                let tb1 = table_index(ts0, b1);
                assert(pte_present(ts0[tb1].entries@[a1]));
                assert(is_table_base(ts0, vb2) && level_of(ts0, vb2) == 2);
                assert(vb2 != b2) by {
                    if is_table_base(ts0, b2) {
                        assert(pte_addr(ts0[tb1].entries@[a1]) != pte_addr(
                            ts0[tb1].entries@[i1],
                        ));
                    }
                }
                assert(vb2 != root && vb2 != b1 && vb2 != b3) by {
                    assert(level_of(ts4, vb2) == 2);
                }
                lemma_tail1(ts0, ts4, vb2, a2, a3, i2, i3, b1, b2, b3, root);
            }
        }
    } else if a2 != i2 {
        let e0 = entries_of(ts0, root)[i0];
        if !pte_present(e0) {
            assert(!is_table_base(ts0, b1) && !is_table_base(ts0, b2));
            assert(leaf_pte(ts0, root, va) is None);
            assert(entries_of(ts4, root)[i0] == (b1 | flags));
            assert(entries_of(ts4, b1)[i1] == (b2 | flags));
            assert(entries_of(ts4, b2)[a2] == 0u64);
            assert(leaf_pte(ts4, root, va) is None);
        } else {
            assert(is_table_base(ts0, b1) && pte_addr(e0) == b1);
            let e1 = entries_of(ts0, b1)[i1];
            if !pte_present(e1) {
                assert(!is_table_base(ts0, b2));
                assert(leaf_pte(ts0, root, va) is None);
                assert(entries_of(ts4, root)[i0] == (b1 | flags));
                assert(entries_of(ts4, b1)[i1] == (b2 | flags));
                assert(entries_of(ts4, b2)[a2] == 0u64);
                assert(leaf_pte(ts4, root, va) is None);
            } else {
                assert(is_table_base(ts0, b2) && pte_addr(e1) == b2);
                let eva2_old = entries_of(ts0, b2)[a2];
                assert(entries_of(ts4, b2)[a2] == eva2_old);
                if !pte_present(eva2_old) {
                    assert(leaf_pte(ts0, root, va) is None && leaf_pte(ts4, root, va) is None);
                } else {
                    let vb3 = pte_addr(eva2_old);
                    let tb2 = table_index(ts0, b2);
                    assert(pte_present(ts0[tb2].entries@[a2]));
                    assert(is_table_base(ts0, vb3) && level_of(ts0, vb3) == 3);
                    assert(vb3 != b3) by {
                        if is_table_base(ts0, b3) {
                            assert(pte_addr(ts0[tb2].entries@[a2]) != pte_addr(
                                ts0[tb2].entries@[i2],
                            ));
                        }
                    }
                    assert(vb3 != root && vb3 != b1 && vb3 != b2) by {
                        assert(level_of(ts4, vb3) == 3);
                    }
                    assert(entries_of(ts4, vb3) == entries_of(ts0, vb3));
                    assert(leaf_pte(ts4, root, va) == leaf_pte(ts0, root, va));
                }
            }
        }
    } else {
        assert(a3 != i3);
        let e0 = entries_of(ts0, root)[i0];
        if pte_present(e0) && is_table_base(ts0, b1) && pte_present(entries_of(ts0, b1)[i1])
            && is_table_base(ts0, b2) && pte_present(entries_of(ts0, b2)[i2]) && is_table_base(
            ts0,
            b3,
        ) {
            assert(pte_addr(e0) == b1);
            assert(pte_addr(entries_of(ts0, b1)[i1]) == b2);
            assert(pte_addr(entries_of(ts0, b2)[i2]) == b3);
            assert(entries_of(ts4, b3)[a3] == entries_of(ts0, b3)[a3]);
            assert(leaf_pte(ts0, root, va) == Some(entries_of(ts0, b3)[a3])) by {
                assert(wf_table(ts0[table_index(ts0, b3)]));
            }
            assert(leaf_pte(ts4, root, va) == Some(entries_of(ts0, b3)[a3]));
        } else {
            // the old walk dies before the leaf; the new leaf cell reads zero
            assert(leaf_pte(ts0, root, va) is None);
            assert(entries_of(ts4, root)[i0] == (b1 | flags));
            assert(entries_of(ts4, b1)[i1] == (b2 | flags));
            assert(entries_of(ts4, b2)[i2] == (b3 | flags));
            if pte_present(e0) {
                assert(is_table_base(ts0, b1));
                if pte_present(entries_of(ts0, b1)[i1]) {
                    assert(is_table_base(ts0, b2));
                    assert(!pte_present(entries_of(ts0, b2)[i2]) || !is_table_base(ts0, b3));
                    assert(!is_table_base(ts0, b3));
                    assert(entries_of(ts4, b3)[a3] == 0u64);
                } else {
                    assert(!is_table_base(ts0, b2) && !is_table_base(ts0, b3));
                    assert(entries_of(ts4, b3)[a3] == 0u64);
                }
            } else {
                assert(!is_table_base(ts0, b1) && !is_table_base(ts0, b2) && !is_table_base(
                    ts0,
                    b3,
                ));
                assert(entries_of(ts4, b3)[a3] == 0u64);
            }
            assert(leaf_pte(ts4, root, va) == Some(0u64));
            assert(!mapping_present(ts4, root, va));
        }
    }
}

/// The walk below an untouched level-1 table reads only untouched tables.
proof fn lemma_tail2(
    ts0: Seq<PageTable>,
    ts4: Seq<PageTable>,
    vb1: u64,
    a1: int,
    a2: int,
    a3: int,
    i1: int,
    i2: int,
    i3: int,
    b1: u64,
    b2: u64,
    b3: u64,
    root: u64,
)
    requires
        pt_wf(ts0),
        pt_wf(ts4),
        0 <= a1 < 512,
        0 <= a2 < 512,
        0 <= a3 < 512,
        forall|b: u64| #[trigger] is_table_base(ts0, b) ==> is_table_base(ts4, b),
        forall|b: u64| is_table_base(ts0, b) ==> #[trigger] level_of(ts4, b) == level_of(ts0, b),
        forall|b: u64| is_table_base(ts0, b) && b != root && b != b1 && b != b2 && b != b3
            ==> #[trigger] entries_of(ts4, b) == entries_of(ts0, b),
        0 <= i1 < 512,
        0 <= i2 < 512,
        is_table_base(ts0, vb1),
        level_of(ts0, vb1) == 1,
        vb1 != root && vb1 != b1 && vb1 != b2 && vb1 != b3,
        is_table_base(ts0, root),
        level_of(ts0, root) == 0,
        is_table_base(ts4, b1) && level_of(ts4, b1) == 1,
        is_table_base(ts4, b2) && level_of(ts4, b2) == 2,
        is_table_base(ts4, b3) && level_of(ts4, b3) == 3,
        is_table_base(ts0, b2) ==> is_table_base(ts0, b1) && pte_present(
            entries_of(ts0, b1)[i1],
        ) && pte_addr(entries_of(ts0, b1)[i1]) == b2,
        is_table_base(ts0, b3) ==> is_table_base(ts0, b2) && pte_present(
            entries_of(ts0, b2)[i2],
        ) && pte_addr(entries_of(ts0, b2)[i2]) == b3,
    ensures
        ({
            let old_w = match step2(ts0, vb1, a1, a2, a3) {
                Some(e) => Some(e),
                None => None,
            };
            step2(ts4, vb1, a1, a2, a3) == step2(ts0, vb1, a1, a2, a3)
        }),
{
    assert(entries_of(ts4, vb1) == entries_of(ts0, vb1));
    lemma_table_index_props(ts0, vb1);
    assert(wf_table(ts0[table_index(ts0, vb1)]));
    let e1 = entries_of(ts0, vb1)[a1];
    if pte_present(e1) {
        let vb2 = pte_addr(e1);
        let tv1 = table_index(ts0, vb1);
        assert(pte_present(ts0[tv1].entries@[a1]));
        assert(is_table_base(ts0, vb2) && level_of(ts0, vb2) == 2);
        assert(vb2 != b2) by {
            if is_table_base(ts0, b2) {
                let tb1 = table_index(ts0, b1);
                lemma_table_index_props(ts0, b1);
                assert(level_of(ts0, b1) == 1);
                assert(ts0[tb1].level == 1);
                assert(wf_table(ts0[tb1]));
                assert(pte_present(ts0[tb1].entries@[i1]));
                assert(tv1 != tb1 || a1 != i1) by {
                    if tv1 == tb1 {
                        assert(ts0[tv1].base == vb1 && ts0[tb1].base == b1);
                    }
                }
                assert(pte_addr(ts0[tv1].entries@[a1]) != pte_addr(ts0[tb1].entries@[i1]));
            }
        }
        assert(vb2 != root && vb2 != b1 && vb2 != b3) by {
            assert(level_of(ts4, vb2) == 2);
            assert(level_of(ts4, root) == 0);
        }
        lemma_tail1(ts0, ts4, vb2, a2, a3, i2, i3, b1, b2, b3, root);
    }
}

/// The walk below an untouched level-2 table reads only untouched tables.
proof fn lemma_tail1(
    ts0: Seq<PageTable>,
    ts4: Seq<PageTable>,
    vb2: u64,
    a2: int,
    a3: int,
    i2: int,
    i3: int,
    b1: u64,
    b2: u64,
    b3: u64,
    root: u64,
)
    requires
        pt_wf(ts0),
        pt_wf(ts4),
        0 <= a2 < 512,
        0 <= a3 < 512,
        forall|b: u64| #[trigger] is_table_base(ts0, b) ==> is_table_base(ts4, b),
        forall|b: u64| is_table_base(ts0, b) ==> #[trigger] level_of(ts4, b) == level_of(ts0, b),
        forall|b: u64| is_table_base(ts0, b) && b != root && b != b1 && b != b2 && b != b3
            ==> #[trigger] entries_of(ts4, b) == entries_of(ts0, b),
        0 <= i2 < 512,
        is_table_base(ts0, vb2),
        level_of(ts0, vb2) == 2,
        vb2 != root && vb2 != b1 && vb2 != b2 && vb2 != b3,
        is_table_base(ts0, root),
        level_of(ts0, root) == 0,
        is_table_base(ts4, b1) && level_of(ts4, b1) == 1,
        is_table_base(ts4, b2) && level_of(ts4, b2) == 2,
        is_table_base(ts4, b3) && level_of(ts4, b3) == 3,
        is_table_base(ts0, b3) ==> is_table_base(ts0, b2) && pte_present(
            entries_of(ts0, b2)[i2],
        ) && pte_addr(entries_of(ts0, b2)[i2]) == b3,
    ensures
        step1(ts4, vb2, a2, a3) == step1(ts0, vb2, a2, a3),
{
    assert(entries_of(ts4, vb2) == entries_of(ts0, vb2));
    lemma_table_index_props(ts0, vb2);
    assert(wf_table(ts0[table_index(ts0, vb2)]));
    let e2 = entries_of(ts0, vb2)[a2];
    if pte_present(e2) {
        let vb3 = pte_addr(e2);
        let tv2 = table_index(ts0, vb2);
        assert(pte_present(ts0[tv2].entries@[a2]));
        assert(is_table_base(ts0, vb3) && level_of(ts0, vb3) == 3);
        assert(vb3 != b3) by {
            if is_table_base(ts0, b3) {
                let tb2 = table_index(ts0, b2);
                lemma_table_index_props(ts0, b2);
                assert(level_of(ts0, b2) == 2);
                assert(ts0[tb2].level == 2);
                assert(wf_table(ts0[tb2]));
                assert(pte_present(ts0[tb2].entries@[i2]));
                assert(tv2 != tb2 || a2 != i2) by {
                    if tv2 == tb2 {
                        assert(ts0[tv2].base == vb2 && ts0[tb2].base == b2);
                    }
                }
                assert(pte_addr(ts0[tv2].entries@[a2]) != pte_addr(ts0[tb2].entries@[i2]));
            }
        }
        assert(vb3 != root && vb3 != b1 && vb3 != b2) by {
            assert(level_of(ts4, vb3) == 3);
            assert(level_of(ts4, root) == 0);
        }
        assert(entries_of(ts4, vb3) == entries_of(ts0, vb3));
        lemma_table_index_props(ts0, vb3);
        assert(wf_table(ts0[table_index(ts0, vb3)]));
    }
}

/// The tail of the walk from a level-1 table.
pub open spec fn step2(ts: Seq<PageTable>, b: u64, a1: int, a2: int, a3: int) -> Option<u64> {
    match step(ts, b, a1) {
        Some(nb) => step1(ts, nb, a2, a3),
        None => None,
    }
}

/// The tail of the walk from a level-2 table.
pub open spec fn step1(ts: Seq<PageTable>, b: u64, a2: int, a3: int) -> Option<u64> {
    match step(ts, b, a2) {
        Some(nb) => entry_at(ts, nb, a3),
        None => None,
    }
}

/// The manager (zero sized); tables and address spaces live in the database.
pub struct Manager;

impl Manager {
    /// Nothing to build up front: address spaces are registered as they are
    /// created.
    pub fn init(db: &mut Database)
        ensures
            *final(db) == *old(db),
    {
        let _ = db;
    }

    /// Maps a single page: walks the four levels, allocating zeroed frames
    /// for absent inner tables and overriding differing inner flags, then
    /// writes the leaf PTE. The TLB is not flushed; callers reload it.
    #[verifier::rlimit(100)]
    #[verifier::spinoff_prover]
    pub fn map_single(
        db: &mut Database,
        aspace: AddressSpaceHandle,
        paddr: u64,
        vaddr: u64,
        flags: u64,
    )
        requires
            tables_wf(old(db)),
            aspace_ok(old(db), aspace),
            flags & !0xfffu64 == 0,
            pmm::free_frames(old(db).phys.arenas()) >= 3,
        ensures
            tables_wf(final(db)),
            mem_only_change(old(db), final(db)),
            final(db).aspaces@ == old(db).aspaces@,
            phys_grows(old(db), final(db)),
            pmm::free_frames(final(db).phys.arenas()) >= pmm::free_frames(old(db).phys.arenas())
                - 3,
            forall|b: u64| #[trigger] is_table_base(old(db).page_tables@, b) ==> is_table_base(
                final(db).page_tables@,
                b,
            ),
            forall|a: AddressSpaceHandle| aspace_ok(old(db), a) ==> aspace_ok(final(db), a),
            spec_root_base(final(db), aspace) == spec_root_base(old(db), aspace),
            flags & 0x1u64 != 0 ==> leaf_pte(
                final(db).page_tables@,
                spec_root_base(old(db), aspace),
                vaddr,
            ) == Some((paddr & !0xfffu64) | flags),
            flags & 0x1u64 != 0 ==> mapping_present(
                final(db).page_tables@,
                spec_root_base(old(db), aspace),
                vaddr,
            ),
            flags & 0x1u64 == 0 ==> !mapping_present(
                final(db).page_tables@,
                spec_root_base(old(db), aspace),
                vaddr,
            ),
            flags & 0x1u64 != 0 ==> forall|va: u64| !same_path(va, vaddr) ==> (mapping_present(
                final(db).page_tables@,
                spec_root_base(old(db), aspace),
                va,
            ) == mapping_present(old(db).page_tables@, spec_root_base(old(db), aspace), va)
                && (mapping_present(old(db).page_tables@, spec_root_base(old(db), aspace), va)
                ==> leaf_pte(final(db).page_tables@, spec_root_base(old(db), aspace), va)
                == leaf_pte(old(db).page_tables@, spec_root_base(old(db), aspace), va))),
    {
        let ghost ts0 = db.page_tables@;
        let ghost ar0 = db.phys.arenas();
        let root_handle = match db.aspaces.get(aspace.0 as usize) {
            Some(h) => *h,
            None => {
                proof {
                    assert(false);
                }
                return ;
            },
        };
        let root = root_handle.get(&db.phys) as u64;
        proof {
            lemma_handle_base_aligned(ar0, root_handle.0 as int);
            assert(root == spec_root_base(old(db), aspace));
            lemma_vindex_range(vaddr);
        }
        let i0 = ((vaddr >> 39) & 0x1ff) as usize;
        let i1 = ((vaddr >> 30) & 0x1ff) as usize;
        let i2 = ((vaddr >> 21) & 0x1ff) as usize;
        let i3 = ((vaddr >> 12) & 0x1ff) as usize;
        proof {
            let v = vaddr;
            assert((v >> 39u64) & 0x1ffu64 < 512 && (v >> 30u64) & 0x1ffu64 < 512 && (v
                >> 21u64) & 0x1ffu64 < 512 && (v >> 12u64) & 0x1ffu64 < 512) by (bit_vector);
        }
        let ghost e0_old = entries_of(ts0, root)[i0 as int];
        let b1 = ensure_next(db, root, i0, flags);
        let ghost ts1 = db.page_tables@;
        let ghost e1_old = entries_of(ts1, b1)[i1 as int];
        let b2 = ensure_next(db, b1, i1, flags);
        let ghost ts2 = db.page_tables@;
        let ghost e2_old = entries_of(ts2, b2)[i2 as int];
        let b3 = ensure_next(db, b2, i2, flags);
        let ghost ts3 = db.page_tables@;
        let leaf = (paddr & !0xfffu64) | flags;
        write_leaf(db, b3, i3, leaf);
        let ghost ts4 = db.page_tables@;
        proof {
            let ghost d1 = pte_present(e0_old);
            let ghost d2 = pte_present(e1_old);
            let ghost d3 = pte_present(e2_old);
            lemma_zero_absent();
            // levels of the touched tables in every later state
            assert(level_of(ts1, b1) == 1 && level_of(ts1, root) == 0);
            assert(level_of(ts2, b1) == 1 && level_of(ts2, root) == 0 && level_of(ts2, b2) == 2);
            assert(level_of(ts3, b1) == 1 && level_of(ts3, root) == 0 && level_of(ts3, b2) == 2
                && level_of(ts3, b3) == 3);
            assert(level_of(ts4, b1) == 1 && level_of(ts4, root) == 0 && level_of(ts4, b2) == 2
                && level_of(ts4, b3) == 3);
            assert(root != b1 && root != b2 && root != b3 && b1 != b2 && b1 != b3 && b2 != b3);
            assert(is_table_base(ts1, root) && is_table_base(ts2, root) && is_table_base(
                ts3,
                root,
            ));
            assert(is_table_base(ts2, b1) && is_table_base(ts3, b1));
            assert(is_table_base(ts3, b2));
            // entries of the touched tables, end to end
            assert(entries_of(ts2, root) == entries_of(ts1, root));
            assert(entries_of(ts3, root) == entries_of(ts2, root));
            assert(entries_of(ts4, root) == entries_of(ts3, root));
            assert(entries_of(ts4, root) == entries_of(ts0, root).update(i0 as int, b1 | flags));
            assert(entries_of(ts3, b1) == entries_of(ts2, b1));
            assert(entries_of(ts4, b1) == entries_of(ts3, b1));
            assert(entries_of(ts4, b1) == entries_of(ts1, b1).update(i1 as int, b2 | flags));
            assert(entries_of(ts4, b2) == entries_of(ts3, b2));
            assert(entries_of(ts4, b2) == entries_of(ts2, b2).update(i2 as int, b3 | flags));
            assert(entries_of(ts4, b3) == entries_of(ts3, b3).update(i3 as int, leaf));
            // tie the case switches to the initial state
            lemma_table_index_props(ts0, root);
            assert(wf_table(ts0[table_index(ts0, root)]));
            assert(d1 ==> pte_present(ts0[table_index(ts0, root)].entries@[i0 as int]));
            assert(d1 == is_table_base(ts0, b1)) by {
                if d1 {
                    assert(b1 == pte_addr(e0_old));
                    assert(is_table_base(ts0, pte_addr(e0_old)));
                }
            }
            assert(entries_of(ts1, b1) == (if d1 {
                entries_of(ts0, b1)
            } else {
                zero_entries()
            })) by {
                if d1 {
                    assert(is_table_base(ts0, b1));
                }
            }
            assert(!d1 ==> !d2) by {
                if !d1 {
                    assert(e1_old == zero_entries()[i1 as int]);
                }
            }
            assert(d2 ==> d1 && pte_present(entries_of(ts0, b1)[i1 as int]) && pte_addr(
                entries_of(ts0, b1)[i1 as int],
            ) == b2);
            assert(d2 == is_table_base(ts0, b2)) by {
                if d2 {
                    lemma_table_index_props(ts0, b1);
                    assert(wf_table(ts0[table_index(ts0, b1)]));
                    assert(pte_present(ts0[table_index(ts0, b1)].entries@[i1 as int]));
                    assert(is_table_base(ts0, b2));
                } else {
                    if is_table_base(ts0, b2) {
                        assert(is_table_base(ts1, b2));
                        assert(!is_table_base(ts1, b2));
                    }
                }
            }
            assert(entries_of(ts2, b2) == (if d2 {
                entries_of(ts0, b2)
            } else {
                zero_entries()
            })) by {
                if d2 {
                    assert(is_table_base(ts0, b2) && is_table_base(ts1, b2));
                    assert(entries_of(ts1, b2) == entries_of(ts0, b2));
                    assert(entries_of(ts2, b2) == entries_of(ts1, b2));
                }
            }
            assert(!d2 ==> !d3) by {
                if !d2 {
                    assert(e2_old == zero_entries()[i2 as int]);
                }
            }
            assert(d3 ==> d2 && pte_present(entries_of(ts0, b2)[i2 as int]) && pte_addr(
                entries_of(ts0, b2)[i2 as int],
            ) == b3);
            assert(d3 == is_table_base(ts0, b3)) by {
                if d3 {
                    lemma_table_index_props(ts0, b2);
                    assert(wf_table(ts0[table_index(ts0, b2)]));
                    assert(pte_present(ts0[table_index(ts0, b2)].entries@[i2 as int]));
                    assert(is_table_base(ts0, b3));
                } else {
                    if is_table_base(ts0, b3) {
                        assert(is_table_base(ts1, b3) && is_table_base(ts2, b3));
                        assert(!is_table_base(ts2, b3));
                    }
                }
            }
            assert(entries_of(ts3, b3) == (if d3 {
                entries_of(ts0, b3)
            } else {
                zero_entries()
            })) by {
                if d3 {
                    assert(is_table_base(ts0, b3) && is_table_base(ts1, b3) && is_table_base(
                        ts2,
                        b3,
                    ));
                    assert(entries_of(ts1, b3) == entries_of(ts0, b3));
                    assert(entries_of(ts2, b3) == entries_of(ts1, b3));
                    assert(entries_of(ts3, b3) == entries_of(ts2, b3));
                }
            }
            // untouched tables keep their entries
            assert forall|b: u64| is_table_base(ts0, b) && b != root && b != b1 && b != b2 && b
                != b3 implies #[trigger] entries_of(ts4, b) == entries_of(ts0, b) by {
                assert(is_table_base(ts1, b) && is_table_base(ts2, b) && is_table_base(ts3, b));
            }
            assert(forall|b: u64| #[trigger] is_table_base(ts0, b) ==> is_table_base(ts4, b));
            assert forall|b: u64| is_table_base(ts0, b) implies #[trigger] level_of(ts4, b)
                == level_of(ts0, b) by {
                assert(is_table_base(ts1, b) && is_table_base(ts2, b) && is_table_base(ts3, b));
            }
            // presence of the written inner entries
            let fp = flags;
            let w1 = b1;
            let w2 = b2;
            let w3 = b3;
            assert(fp & 0x1u64 != 0 ==> pte_present(w1 | fp) && pte_present(w2 | fp)
                && pte_present(w3 | fp)) by (bit_vector);
            assert(fp & 0x1u64 == 0 ==> !pte_present(w1 | fp)) by (bit_vector)
                requires
                    w1 & 0xfffu64 == 0,
            ;
            assert(pte_addr(w1 | fp) == w1 && pte_addr(w2 | fp) == w2 && pte_addr(w3 | fp)
                == w3) by (bit_vector)
                requires
                    w1 & 0xfffu64 == 0,
                    w2 & 0xfffu64 == 0,
                    w3 & 0xfffu64 == 0,
                    fp & !0xfffu64 == 0,
            ;
            lemma_table_index_props(ts4, root);
            assert(wf_table(ts4[table_index(ts4, root)]));
            lemma_table_index_props(ts4, b1);
            assert(wf_table(ts4[table_index(ts4, b1)]));
            lemma_table_index_props(ts4, b2);
            assert(wf_table(ts4[table_index(ts4, b2)]));
            lemma_table_index_props(ts4, b3);
            assert(wf_table(ts4[table_index(ts4, b3)]));
            assert(entries_of(ts4, root).len() == 512 && entries_of(ts4, b1).len() == 512
                && entries_of(ts4, b2).len() == 512 && entries_of(ts4, b3).len() == 512);
            assert(pt_wf(ts0) && pt_wf(ts1) && pt_wf(ts2) && pt_wf(ts3));
            assert(entries_of(ts1, b1).len() == 512) by {
                lemma_table_index_props(ts1, b1);
                assert(wf_table(ts1[table_index(ts1, b1)]));
            }
            assert(entries_of(ts2, b2).len() == 512) by {
                lemma_table_index_props(ts2, b2);
                assert(wf_table(ts2[table_index(ts2, b2)]));
            }
            assert(entries_of(ts3, b3).len() == 512) by {
                lemma_table_index_props(ts3, b3);
                assert(wf_table(ts3[table_index(ts3, b3)]));
            }
            assert(entries_of(ts0, root).len() == 512);
            assert(entries_of(ts4, root)[i0 as int] == (b1 | flags));
            assert(entries_of(ts4, b1)[i1 as int] == (b2 | flags));
            assert(entries_of(ts4, b2)[i2 as int] == (b3 | flags));
            assert(entries_of(ts4, b3)[i3 as int] == leaf);
            if flags & 0x1u64 != 0 {
                assert(leaf_pte(ts4, root, vaddr) == Some(leaf)) by {
                    assert(entries_of(ts4, root)[i0 as int] == (b1 | flags));
                    assert(entries_of(ts4, b1)[i1 as int] == (b2 | flags));
                    assert(entries_of(ts4, b2)[i2 as int] == (b3 | flags));
                    assert(entries_of(ts4, b3)[i3 as int] == leaf);
                }
                assert(pte_present(leaf)) by (bit_vector)
                    requires
                        leaf == (paddr & !0xfffu64) | flags,
                        flags & 0x1u64 != 0,
                ;
                assert(entries_of(ts4, b1) == (if is_table_base(ts0, b1) {
                    entries_of(ts0, b1)
                } else {
                    zero_entries()
                }).update(i1 as int, b2 | flags));
                assert(entries_of(ts4, b2) == (if is_table_base(ts0, b2) {
                    entries_of(ts0, b2)
                } else {
                    zero_entries()
                }).update(i2 as int, b3 | flags));
                assert(entries_of(ts4, b3) == (if is_table_base(ts0, b3) {
                    entries_of(ts0, b3)
                } else {
                    zero_entries()
                }).update(i3 as int, leaf));
                assert forall|va: u64| !same_path(va, vaddr) implies (mapping_present(
                    ts4,
                    root,
                    va,
                ) == mapping_present(ts0, root, va) && (mapping_present(ts0, root, va)
                    ==> leaf_pte(ts4, root, va) == leaf_pte(ts0, root, va))) by {
                    lemma_preserve(
                        ts0,
                        ts4,
                        root,
                        i0 as int,
                        i1 as int,
                        i2 as int,
                        i3 as int,
                        b1,
                        b2,
                        b3,
                        leaf,
                        flags,
                        va,
                    );
                }
            } else {
                assert(entries_of(ts4, root)[i0 as int] == (b1 | flags));
                assert(!pte_present(b1 | flags));
                assert(!mapping_present(ts4, root, vaddr));
            }
            assert(spec_root_base(final(db), aspace) == spec_root_base(old(db), aspace));
            assert forall|a: AddressSpaceHandle| aspace_ok(old(db), a) implies aspace_ok(
                final(db),
                a,
            ) by {
                assert(spec_root_base(final(db), a) == spec_root_base(old(db), a));
            }
        }
    }
}

/// Pages of one mapping run never share all four walk indices.
proof fn lemma_page_paths_differ(base: u64, j: int, k: int)
    requires
        0 <= j < k,
        base + k * 4096 < 0x1000000000000,
    ensures
        !same_path((base + j * 4096) as u64, (base + k * 4096) as u64),
{
    let a = (base + j * 4096) as u64;
    let b = (base + k * 4096) as u64;
    assert(a == base + j * 4096 && b == base + k * 4096);
    vstd::arithmetic::div_mod::lemma_mod_multiples_vanish(j, base as int, 4096);
    vstd::arithmetic::div_mod::lemma_mod_multiples_vanish(k, base as int, 4096);
    assert((base + j * 4096) % 4096 == base % 4096);
    assert((base + k * 4096) % 4096 == base % 4096);
    assert(a % 4096 == b % 4096);
    assert(a != b);
    assert(!((a >> 39u64) & 0x1ffu64 == (b >> 39u64) & 0x1ffu64 && (a >> 30u64) & 0x1ffu64 == (b
        >> 30u64) & 0x1ffu64 && (a >> 21u64) & 0x1ffu64 == (b >> 21u64) & 0x1ffu64 && (a
        >> 12u64) & 0x1ffu64 == (b >> 12u64) & 0x1ffu64)) by (bit_vector)
        requires
            a < 0x1000000000000u64,
            b < 0x1000000000000u64,
            a != b,
            a % 4096u64 == b % 4096u64,
    ;
}

/// Distinct page-aligned canonical addresses never share all four walk
/// indices.
pub proof fn lemma_distinct_pages_differ(a: u64, b: u64)
    requires
        a % 4096 == 0,
        b % 4096 == 0,
        a != b,
        a < 0x1000000000000,
        b < 0x1000000000000,
    ensures
        !same_path(a, b),
{
    assert(!((a >> 39u64) & 0x1ffu64 == (b >> 39u64) & 0x1ffu64 && (a >> 30u64) & 0x1ffu64 == (b
        >> 30u64) & 0x1ffu64 && (a >> 21u64) & 0x1ffu64 == (b >> 21u64) & 0x1ffu64 && (a
        >> 12u64) & 0x1ffu64 == (b >> 12u64) & 0x1ffu64)) by (bit_vector)
        requires
            a < 0x1000000000000u64,
            b < 0x1000000000000u64,
            a != b,
            a % 4096u64 == b % 4096u64,
    ;
}

/// Mapping the same page again leaves the leaf PTE unchanged: any two states
/// that hold the mapping of `(vaddr, paddr, flags)` agree on its leaf.
pub proof fn lemma_map_idempotent(
    ts_a: Seq<PageTable>,
    ts_b: Seq<PageTable>,
    root: u64,
    vaddr: u64,
    paddr: u64,
    flags: u64,
)
    requires
        flags & 0x1u64 != 0,
        leaf_pte(ts_a, root, vaddr) == Some((paddr & !0xfffu64) | flags),
        leaf_pte(ts_b, root, vaddr) == Some((paddr & !0xfffu64) | flags),
    ensures
        leaf_pte(ts_b, root, vaddr) == leaf_pte(ts_a, root, vaddr),
{
}

impl Manager {
    /// Maps `count` consecutive pages, advancing both addresses by 4 KiB per
    /// page.
    pub fn map(
        db: &mut Database,
        aspace: AddressSpaceHandle,
        paddr: u64,
        vaddr: u64,
        count: usize,
        flags: u64,
    )
        requires
            tables_wf(old(db)),
            aspace_ok(old(db), aspace),
            flags & !0xfffu64 == 0,
            pmm::free_frames(old(db).phys.arenas()) >= 3 * count,
            vaddr + count * 4096 < 0x1000000000000,
            paddr + count * 4096 <= u64::MAX,
        ensures
            tables_wf(final(db)),
            mem_only_change(old(db), final(db)),
            final(db).aspaces@ == old(db).aspaces@,
            phys_grows(old(db), final(db)),
            pmm::free_frames(final(db).phys.arenas()) >= pmm::free_frames(old(db).phys.arenas())
                - 3 * count,
            forall|b: u64| #[trigger] is_table_base(old(db).page_tables@, b) ==> is_table_base(
                final(db).page_tables@,
                b,
            ),
            forall|a: AddressSpaceHandle| aspace_ok(old(db), a) ==> aspace_ok(final(db), a),
            spec_root_base(final(db), aspace) == spec_root_base(old(db), aspace),
            flags & 0x1u64 != 0 ==> forall|k: int| 0 <= k < count ==> #[trigger] leaf_pte(
                final(db).page_tables@,
                spec_root_base(old(db), aspace),
                (vaddr + k * 4096) as u64,
            ) == Some(((paddr + k * 4096) as u64 & !0xfffu64) | flags),
            flags & 0x1u64 != 0 ==> forall|k: int| 0 <= k < count ==> #[trigger] mapping_present(
                final(db).page_tables@,
                spec_root_base(old(db), aspace),
                (vaddr + k * 4096) as u64,
            ),
    {
        let ghost root = spec_root_base(old(db), aspace);
        let mut p = paddr;
        let mut v = vaddr;
        let mut k: usize = 0;
        while k < count
            invariant
                tables_wf(db),
                aspace_ok(db, aspace),
                flags & !0xfffu64 == 0,
                k <= count,
                p == paddr + k * 4096,
                v == vaddr + k * 4096,
                vaddr + count * 4096 < 0x1000000000000,
                paddr + count * 4096 <= u64::MAX,
                pmm::free_frames(db.phys.arenas()) >= 3 * (count - k),
                mem_only_change(old(db), db),
                db.aspaces@ == old(db).aspaces@,
                phys_grows(old(db), db),
                pmm::free_frames(db.phys.arenas()) >= pmm::free_frames(old(db).phys.arenas()) - 3
                    * k,
                forall|b: u64| #[trigger] is_table_base(old(db).page_tables@, b)
                    ==> is_table_base(db.page_tables@, b),
                forall|a: AddressSpaceHandle| aspace_ok(old(db), a) ==> aspace_ok(db, a),
                spec_root_base(db, aspace) == root,
                flags & 0x1u64 != 0 ==> forall|j: int| 0 <= j < k ==> #[trigger] leaf_pte(
                    db.page_tables@,
                    root,
                    (vaddr + j * 4096) as u64,
                ) == Some(((paddr + j * 4096) as u64 & !0xfffu64) | flags),
            decreases count - k,
        {
            let ghost pre = db.page_tables@;
            Self::map_single(db, aspace, p, v, flags);
            proof {
                if flags & 0x1u64 != 0 {
                    let lf = ((paddr + k * 4096) as u64 & !0xfffu64) | flags;
                    assert(leaf_pte(db.page_tables@, root, (vaddr + k * 4096) as u64) == Some(
                        lf,
                    )) by {
                        assert(p & !0xfffu64 == (paddr + k * 4096) as u64 & !0xfffu64);
                    }
                    assert forall|j: int| 0 <= j < k implies #[trigger] leaf_pte(
                        db.page_tables@,
                        root,
                        (vaddr + j * 4096) as u64,
                    ) == Some(((paddr + j * 4096) as u64 & !0xfffu64) | flags) by {
                        lemma_page_paths_differ(vaddr, j, k as int);
                        let va = (vaddr + j * 4096) as u64;
                        assert(!same_path(va, v));
                        assert(mapping_present(pre, root, va)) by {
                            let pj = (paddr + j * 4096) as u64;
                            let e = (pj & !0xfffu64) | flags;
                            assert(pte_present(e)) by (bit_vector)
                                requires
                                    flags & 0x1u64 != 0,
                                    e == (pj & !0xfffu64) | flags,
                            ;
                        }
                    }
                }
            }
            p = p + 4096;
            v = v + 4096;
            k = k + 1;
        }
        proof {
            if flags & 0x1u64 != 0 {
                assert forall|kk: int| 0 <= kk < count implies #[trigger] mapping_present(
                    db.page_tables@,
                    root,
                    (vaddr + kk * 4096) as u64,
                ) by {
                    let pj = (paddr + kk * 4096) as u64;
                    let e = (pj & !0xfffu64) | flags;
                    assert(leaf_pte(db.page_tables@, root, (vaddr + kk * 4096) as u64) == Some(
                        e,
                    ));
                    assert(pte_present(e)) by (bit_vector)
                        requires
                            flags & 0x1u64 != 0,
                            e == (pj & !0xfffu64) | flags,
                    ;
                }
            }
        }
    }

    /// Walks without allocating: the leaf's PRESENT bit, or false when any
    /// level is absent.
    pub fn has_mapping_present(db: &Database, aspace: AddressSpaceHandle, vaddr: u64) -> (r: bool)
        requires
            tables_wf(db),
            aspace_ok(db, aspace),
        ensures
            r == mapping_present(db.page_tables@, spec_root_base(db, aspace), vaddr),
    {
        let ghost ts = db.page_tables@;
        let root_handle = match db.aspaces.get(aspace.0 as usize) {
            Some(h) => *h,
            None => {
                proof {
                    assert(false);
                }
                return false;
            },
        };
        let root = root_handle.get(&db.phys) as u64;
        proof {
            lemma_handle_base_aligned(db.phys.arenas(), root_handle.0 as int);
            assert(root == spec_root_base(db, aspace));
            lemma_vindex_range(vaddr);
            let w = vaddr;
            assert((w >> 39u64) & 0x1ffu64 < 512 && (w >> 30u64) & 0x1ffu64 < 512 && (w
                >> 21u64) & 0x1ffu64 < 512 && (w >> 12u64) & 0x1ffu64 < 512) by (bit_vector);
        }
        let i0 = ((vaddr >> 39) & 0x1ff) as usize;
        let i1 = ((vaddr >> 30) & 0x1ff) as usize;
        let i2 = ((vaddr >> 21) & 0x1ff) as usize;
        let i3 = ((vaddr >> 12) & 0x1ff) as usize;
        let t0 = match find_table(&db.page_tables, root) {
            Some(i) => i,
            None => {
                proof {
                    assert(false);
                }
                return false;
            },
        };
        proof {
            assert(wf_table(ts[t0 as int]));
            lemma_table_index_props(ts, root);
        }
        let e0 = db.page_tables[t0].entries[i0];
        if e0 & 1u64 == 0 {
            proof {
                assert(!pte_present(e0));
            }
            return false;
        }
        let b1 = e0 & !0xfffu64;
        proof {
            assert(pte_present(ts[t0 as int].entries@[i0 as int]) && ts[t0 as int].level < 3);
            assert(is_table_base(ts, b1));
        }
        let t1 = match find_table(&db.page_tables, b1) {
            Some(i) => i,
            None => {
                proof {
                    assert(false);
                }
                return false;
            },
        };
        proof {
            assert(wf_table(ts[t1 as int]));
            lemma_table_index_props(ts, b1);
        }
        let e1 = db.page_tables[t1].entries[i1];
        if e1 & 1u64 == 0 {
            proof {
                assert(!pte_present(e1));
            }
            return false;
        }
        let b2 = e1 & !0xfffu64;
        proof {
            assert(level_of(ts, b1) == ts[t0 as int].level + 1);
            assert(pte_present(ts[t1 as int].entries@[i1 as int]) && ts[t1 as int].level < 3);
            assert(is_table_base(ts, b2));
        }
        let t2 = match find_table(&db.page_tables, b2) {
            Some(i) => i,
            None => {
                proof {
                    assert(false);
                }
                return false;
            },
        };
        proof {
            assert(wf_table(ts[t2 as int]));
            lemma_table_index_props(ts, b2);
        }
        let e2 = db.page_tables[t2].entries[i2];
        if e2 & 1u64 == 0 {
            proof {
                assert(!pte_present(e2));
            }
            return false;
        }
        let b3 = e2 & !0xfffu64;
        proof {
            assert(level_of(ts, b2) == ts[t1 as int].level + 1);
            assert(pte_present(ts[t2 as int].entries@[i2 as int]) && ts[t2 as int].level < 3);
            assert(is_table_base(ts, b3));
        }
        let t3 = match find_table(&db.page_tables, b3) {
            Some(i) => i,
            None => {
                proof {
                    assert(false);
                }
                return false;
            },
        };
        proof {
            assert(wf_table(ts[t3 as int]));
            lemma_table_index_props(ts, b3);
        }
        let e3 = db.page_tables[t3].entries[i3];
        proof {
            assert(entry_at(ts, b3, i3 as int) == Some(e3));
            assert(leaf_pte(ts, root, vaddr) == Some(e3));
        }
        e3 & 1u64 != 0
    }

    /// Registers a frame as the root of a new address space and identity-maps
    /// the kernel image into it, so kernel code keeps running after a reload.
    pub fn new_address_space(db: &mut Database, pgtable: pmm::Handle) -> (r: AddressSpaceHandle)
        requires
            tables_wf(old(db)),
            old(db).aspaces@.len() < 64,
            pgtable.0 < pmm::total_pages(old(db).phys.arenas()),
            pmm::spec_allocated(old(db).phys.arenas(), pgtable.0 as int),
            !is_table_base(
                old(db).page_tables@,
                pmm::spec_handle_base(old(db).phys.arenas(), pgtable.0 as int) as u64,
            ),
            old(db).kernel_start <= old(db).kernel_end,
            old(db).kernel_end < 0x1000000000000 - 4096,
            pmm::free_frames(old(db).phys.arenas()) >= 3 * (((old(db).kernel_end - old(
                db,
            ).kernel_start) + 4095) / 4096),
            ((old(db).kernel_end - old(db).kernel_start) + 4095) / 4096 <= usize::MAX,
        ensures
            tables_wf(final(db)),
            final(db).aspaces@ == old(db).aspaces@.push(pgtable),
            r.0 == old(db).aspaces@.len(),
            aspace_ok(final(db), r),
            mem_only_change(old(db), final(db)),
            phys_grows(old(db), final(db)),
            forall|b: u64| #[trigger] is_table_base(old(db).page_tables@, b) ==> is_table_base(
                final(db).page_tables@,
                b,
            ),
            forall|k: int| 0 <= k < ((old(db).kernel_end - old(db).kernel_start) + 4095) / 4096
                ==> #[trigger] mapping_present(
                final(db).page_tables@,
                spec_root_base(final(db), r),
                (old(db).kernel_start + k * 4096) as u64,
            ),
            forall|k: int| 0 <= k < ((old(db).kernel_end - old(db).kernel_start) + 4095) / 4096
                ==> #[trigger] leaf_pte(
                final(db).page_tables@,
                spec_root_base(final(db), r),
                (old(db).kernel_start + k * 4096) as u64,
            ) == Some(((old(db).kernel_start + k * 4096) as u64 & !0xfffu64) | (Page::PRESENT
                | Page::READ_WRITE)),
            pmm::free_frames(final(db).phys.arenas()) >= pmm::free_frames(old(db).phys.arenas())
                - 3 * (((old(db).kernel_end - old(db).kernel_start) + 4095) / 4096),
    {
        let ghost ts0 = db.page_tables@;
        let ghost ar0 = db.phys.arenas();
        let id = db.aspaces.len() as u16;
        db.aspaces.push(pgtable);
        let aspace = AddressSpaceHandle(id);
        let base_usize = pgtable.get(&db.phys);
        let base = base_usize as u64;
        proof {
            lemma_handle_base_aligned(ar0, pgtable.0 as int);
        }
        let entries = make_zero_entries();
        db.page_tables.push(PageTable { base, level: 0, entries });
        proof {
            let ts1 = db.page_tables@;
            assert(ts1.len() == ts0.len() + 1);
            assert(forall|i: int| 0 <= i < ts0.len() ==> ts1[i] == ts0[i]);
            assert forall|b: u64| is_table_base(ts0, b) implies #[trigger] table_index(ts1, b)
                == table_index(ts0, b) && is_table_base(ts1, b) by {
                lemma_table_index_stable(ts0, ts1, b);
            }
            assert(forall|j: int| 0 <= j < ts0.len() ==> ts1[j].base != base) by {
                assert forall|j: int| 0 <= j < ts0.len() implies ts1[j].base != base by {
                    let h2 = choose|h2: int|
                        0 <= h2 < pmm::total_pages(ar0) && pmm::spec_allocated(ar0, h2)
                            && pmm::spec_handle_base(ar0, h2) == ts0[j].base;
                    if ts0[j].base == base {
                        assert(is_table_base(ts0, base)) by {
                            lemma_table_index_props(ts0, base);
                            if table_index(ts0, base) > j {
                                assert(ts0[j].base != base);
                            }
                        }
                    }
                }
            }
            lemma_table_index_skip_eq(ts1, base, ts0.len() as int);
            assert(is_table_base(ts1, base) && level_of(ts1, base) == 0);
            assert(entries_of(ts1, base) == zero_entries());
            lemma_zero_absent();
            // the appended root is sound: zero entries point nowhere
            assert forall|i: int, e: int|
                0 <= i < ts1.len() && (#[trigger] ts1[i]).level < 3 && 0 <= e < 512 && pte_present(
                    #[trigger] ts1[i].entries@[e],
                ) implies is_table_base(ts1, pte_addr(ts1[i].entries@[e])) && level_of(
                ts1,
                pte_addr(ts1[i].entries@[e]),
            ) == ts1[i].level + 1 by {
                if i == ts0.len() as int {
                    assert(ts1[i].entries@[e] == 0u64);
                } else {
                    assert(ts1[i] == ts0[i]);
                    let a = pte_addr(ts0[i].entries@[e]);
                    assert(is_table_base(ts0, a) && level_of(ts0, a) == ts0[i].level + 1);
                    lemma_table_index_props(ts0, a);
                    lemma_table_index_stable(ts0, ts1, a);
                }
            }
            assert forall|i1: int, e1: int, i2: int, e2: int|
                0 <= i1 < ts1.len() && 0 <= i2 < ts1.len() && (#[trigger] ts1[i1]).level < 3 && (
                #[trigger] ts1[i2]).level < 3 && 0 <= e1 < 512 && 0 <= e2 < 512 && (i1 != i2 || e1
                != e2) && pte_present(#[trigger] ts1[i1].entries@[e1]) && pte_present(
                #[trigger] ts1[i2].entries@[e2],
            ) implies pte_addr(ts1[i1].entries@[e1]) != pte_addr(ts1[i2].entries@[e2]) by {
                assert(i1 != ts0.len() && i2 != ts0.len());
                assert(ts1[i1] == ts0[i1] && ts1[i2] == ts0[i2]);
            }
            assert forall|i: int, j: int| 0 <= i < j < ts1.len() implies (#[trigger] ts1[i]).base
                != (#[trigger] ts1[j]).base by {
                if j == ts0.len() as int {
                    assert(ts1[i].base == ts0[i].base);
                }
            }
            assert forall|i: int| 0 <= i < ts1.len() implies wf_table(#[trigger] ts1[i]) by {
                if i < ts0.len() {
                    assert(wf_table(ts0[i]));
                } else {
                    assert(ts1[i].entries@.len() == 512);
                    assert(base % 4096 == 0);
                }
            }
            assert forall|i: int| 0 <= i < ts1.len() implies exists|h2: int|
                0 <= h2 < pmm::total_pages(ar0) && pmm::spec_allocated(ar0, h2)
                    && pmm::spec_handle_base(ar0, h2) == (#[trigger] ts1[i]).base by {
                if i < ts0.len() {
                    let h2 = choose|h2: int|
                        0 <= h2 < pmm::total_pages(ar0) && pmm::spec_allocated(ar0, h2)
                            && pmm::spec_handle_base(ar0, h2) == ts0[i].base;
                    assert(0 <= h2 < pmm::total_pages(ar0) && pmm::spec_allocated(ar0, h2)
                        && pmm::spec_handle_base(ar0, h2) == ts1[i].base);
                } else {
                    assert(pmm::spec_allocated(ar0, pgtable.0 as int) && pmm::spec_handle_base(
                        ar0,
                        pgtable.0 as int,
                    ) == ts1[i].base && 0 <= (pgtable.0 as int) < pmm::total_pages(ar0));
                }
            }
            assert(tables_wf(db));
            assert(aspace_ok(db, aspace)) by {
                assert(db.aspaces@[id as int] == pgtable);
                assert(spec_root_base(db, aspace) == base);
            }
        }
        let ghost ts_mid = db.page_tables@;
        let kernel_start = db.kernel_start;
        let kernel_end = db.kernel_end;
        let kernel_pages = (((kernel_end - kernel_start) + 4095) / 4096) as usize;
        proof {
            assert(Page::PRESENT | Page::READ_WRITE == 3u64 && 3u64 & !0xfffu64 == 0 && 3u64
                & 0x1u64 != 0) by (bit_vector);
            assert(kernel_pages * 4096 <= (kernel_end - kernel_start) + 4095);
            assert(kernel_start + kernel_pages * 4096 < 0x1000000000000);
        }
        Self::map(
            db,
            aspace,
            kernel_start,
            kernel_start,
            kernel_pages,
            Page::PRESENT | Page::READ_WRITE,
        );
        proof {
            assert(spec_root_base(final(db), aspace) == base);
            assert forall|b: u64| #[trigger] is_table_base(ts0, b) implies is_table_base(
                final(db).page_tables@,
                b,
            ) by {
                assert(is_table_base(ts_mid, b));
            }
            assert forall|k: int| 0 <= k < ((old(db).kernel_end - old(db).kernel_start) + 4095)
                / 4096 implies #[trigger] mapping_present(
                final(db).page_tables@,
                spec_root_base(final(db), aspace),
                (old(db).kernel_start + k * 4096) as u64,
            ) by {
                assert(mapping_present(
                    final(db).page_tables@,
                    spec_root_base(final(db), aspace),
                    (kernel_start + k * 4096) as u64,
                ));
            }
            assert forall|k: int| 0 <= k < ((old(db).kernel_end - old(db).kernel_start) + 4095)
                / 4096 implies #[trigger] leaf_pte(
                final(db).page_tables@,
                spec_root_base(final(db), aspace),
                (old(db).kernel_start + k * 4096) as u64,
            ) == Some(((old(db).kernel_start + k * 4096) as u64 & !0xfffu64) | (Page::PRESENT
                | Page::READ_WRITE)) by {
                assert(leaf_pte(
                    final(db).page_tables@,
                    spec_root_base(final(db), aspace),
                    (kernel_start + k * 4096) as u64,
                ) == Some(((kernel_start + k * 4096) as u64 & !0xfffu64) | (Page::PRESENT
                    | Page::READ_WRITE)));
            }
        }
        aspace
    }

    /// The physical root-table address the shim loads into the page-table
    /// base register; reloading flushes the whole TLB.
    pub fn reload_cr3(db: &Database, aspace: AddressSpaceHandle) -> (r: u64)
        requires
            tables_wf(db),
            aspace_ok(db, aspace),
        ensures
            r == spec_root_base(db, aspace),
    {
        let root_handle = match db.aspaces.get(aspace.0 as usize) {
            Some(h) => *h,
            None => {
                proof {
                    assert(false);
                }
                return 0;
            },
        };
        proof {
            lemma_handle_base_aligned(db.phys.arenas(), root_handle.0 as int);
        }
        root_handle.get(&db.phys) as u64
    }
}

} // verus!
