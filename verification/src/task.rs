//! Task manager: workers (address-space owners) and tasks (register
//! contexts), plus the round-robin scheduling hint.

use vstd::prelude::*;
use crate::containers::StaticVec;
use crate::db::{Database, ObjectHandle};
use crate::{elf, pmm, vmm};

verus! {

/// Default per-task user stack base, mapped per worker.
pub const TASK_STACK_BASE: u64 = 0x1100_0000;

/// Convention for flat user images (`.bin`-style), unused by the ELF path.
pub const PROGRAM_IMAGE_BASE: u64 = 0x1000_0000;

/// A register-context snapshot bound to a worker.
#[derive(Debug, Clone, Copy)]
pub struct Task {
    gpr: [u64; 16],
    stack_page: pmm::Handle,
}

impl Task {
    pub fn new() -> (r: Self)
        ensures
            forall|i: int| 0 <= i < 16 ==> r.spec_gpr()[i] == 0u64,
            r.spec_stack_page() == pmm::Handle(0u32),
    {
        Task::default()
    }

    pub closed spec fn spec_gpr(self) -> Seq<u64> {
        self.gpr@
    }

    pub closed spec fn spec_stack_page(self) -> pmm::Handle {
        self.stack_page
    }

}

impl Default for Task {
    fn default() -> (r: Self)
        ensures
            forall|i: int| 0 <= i < 16 ==> r.spec_gpr()[i] == 0u64,
            r.spec_stack_page() == pmm::Handle(0u32),
    {
        Task { gpr: [0u64; 16], stack_page: pmm::Handle(0) }
    }
}

#[derive(Default, Debug, Clone, Copy, PartialEq, Eq, Structural)]
pub struct TaskHandle(pub u8);

/// A kernel object owning an address space and up to four tasks.
#[derive(Debug)]
pub struct Worker {
    aspace: vmm::AddressSpaceHandle,
    entry_point: u64,
    tasks: StaticVec<Task, 4>,
    flags: u8,
}

impl Worker {
    pub const SLEEP: u8 = 0x40;
    pub const ACTIVE: u8 = 0x80;

    pub closed spec fn spec_aspace(self) -> vmm::AddressSpaceHandle {
        self.aspace
    }

    pub closed spec fn spec_entry_point(self) -> u64 {
        self.entry_point
    }

    pub closed spec fn spec_tasks(self) -> Seq<Task> {
        self.tasks@
    }

    pub closed spec fn spec_flags(self) -> u8 {
        self.flags
    }

    pub open spec fn spec_is_active(self) -> bool {
        self.spec_flags() & Worker::ACTIVE != 0
    }

    pub fn new(aspace: vmm::AddressSpaceHandle) -> (r: Self)
        ensures
            r.spec_aspace() == aspace,
            r.spec_entry_point() == 0,
            r.spec_tasks() == Seq::<Task>::empty(),
            r.spec_flags() == 0,
    {
        Worker { aspace, entry_point: 0, tasks: StaticVec::new(), flags: 0 }
    }

    /// Sets or clears one flag bit, leaving the rest alone.
    fn set_flag<const FLAG: u8>(&mut self, v: bool)
        ensures
            final(self).spec_flags() == if v {
                old(self).spec_flags() & !FLAG | FLAG
            } else {
                old(self).spec_flags() & !FLAG
            },
            final(self).spec_aspace() == old(self).spec_aspace(),
            final(self).spec_entry_point() == old(self).spec_entry_point(),
            final(self).spec_tasks() == old(self).spec_tasks(),
    {
        if v {
            self.flags = (self.flags & !FLAG) | FLAG;
        } else {
            self.flags = self.flags & !FLAG;
        }
    }

    /// Appends a task; a full task list is a kernel fault.
    pub(crate) fn push_task(&mut self, t: Task)
        requires
            old(self).spec_tasks().len() < 4,
        ensures
            final(self).spec_tasks() == old(self).spec_tasks().push(t),
            final(self).spec_aspace() == old(self).spec_aspace(),
            final(self).spec_entry_point() == old(self).spec_entry_point(),
            final(self).spec_flags() == old(self).spec_flags(),
    {
        self.tasks.push(t);
    }

    /// Records the image entry point.
    pub(crate) fn set_entry_point(&mut self, e: u64)
        ensures
            final(self).spec_entry_point() == e,
            final(self).spec_aspace() == old(self).spec_aspace(),
            final(self).spec_tasks() == old(self).spec_tasks(),
            final(self).spec_flags() == old(self).spec_flags(),
    {
        self.entry_point = e;
    }

    pub fn is_active(&self) -> (r: bool)
        ensures
            r == self.spec_is_active(),
    {
        self.flags & Worker::ACTIVE != 0
    }

    pub fn set_active(&mut self, v: bool)
        ensures
            final(self).spec_is_active() == v,
            final(self).spec_flags() == if v {
                old(self).spec_flags() & !Worker::ACTIVE | Worker::ACTIVE
            } else {
                old(self).spec_flags() & !Worker::ACTIVE
            },
            final(self).spec_aspace() == old(self).spec_aspace(),
            final(self).spec_entry_point() == old(self).spec_entry_point(),
            final(self).spec_tasks() == old(self).spec_tasks(),
    {
        self.set_flag::<0x80>(v);  // Worker::ACTIVE
        proof {
            let f = old(self).spec_flags();
            if v {
                assert((f & !0x80u8 | 0x80u8) & 0x80u8 != 0) by (bit_vector);
            } else {
                assert((f & !0x80u8) & 0x80u8 == 0) by (bit_vector);
            }
        }
    }
}

/// The index the scheduler regards as current: the first active worker, or 0
/// when none is active.
pub open spec fn spec_current_worker(ws: Seq<Worker>) -> int {
    if exists|i: int| 0 <= i < ws.len() && (#[trigger] ws[i]).spec_is_active() {
        first_active(ws, 0)
    } else {
        0
    }
}

/// The first active worker at or after `i`, or the length when none is.
pub open spec fn first_active(ws: Seq<Worker>, i: int) -> int
    decreases ws.len() - i,
{
    if i < 0 || i >= ws.len() {
        ws.len() as int
    } else if ws[i].spec_is_active() {
        i
    } else {
        first_active(ws, i + 1)
    }
}

proof fn lemma_first_active_skip(ws: Seq<Worker>, a: int, b: int)
    requires
        0 <= a <= b <= ws.len(),
        forall|j: int| a <= j < b ==> !(#[trigger] ws[j]).spec_is_active(),
    ensures
        first_active(ws, a) == first_active(ws, b),
    decreases b - a,
{
    if a < b {
        lemma_first_active_skip(ws, a + 1, b);
    }
}

/// The task manager (zero sized); workers live in the database.
pub struct Manager;

impl Manager {
    /// Nothing to set up in the model; programming the fast-syscall MSRs is
    /// the shim's work.
    pub fn init(db: &mut Database)
        ensures
            *final(db) == *old(db),
    {
        let _ = db;
    }

    /// Appends a worker bound to `aspace`; a full worker table is a kernel
    /// fault.
    pub fn new_worker(db: &mut Database, aspace: vmm::AddressSpaceHandle) -> (r: ObjectHandle)
        requires
            old(db).workers@.len() < 64,
        ensures
            final(db).workers@.len() == old(db).workers@.len() + 1,
            forall|i: int| 0 <= i < old(db).workers@.len() ==> final(db).workers@[i] == old(
                db,
            ).workers@[i],
            final(db).workers@[old(db).workers@.len() as int].spec_aspace() == aspace,
            final(db).workers@[old(db).workers@.len() as int].spec_entry_point() == 0,
            final(db).workers@[old(db).workers@.len() as int].spec_tasks() == Seq::<Task>::empty(),
            final(db).workers@[old(db).workers@.len() as int].spec_flags() == 0,
            r.spec_id() == old(db).workers@.len(),
            r.spec_type() == ObjectHandle::WORKER,
            final(db).policy_rule@ == old(db).policy_rule@,
            final(db).vfs_nodes@ == old(db).vfs_nodes@,
            final(db).vfs_providers@ == old(db).vfs_providers@,
            final(db).aspaces@ == old(db).aspaces@,
            final(db).users@ == old(db).users@,
            final(db).groups@ == old(db).groups@,
            final(db).phys == old(db).phys,
            final(db).page_tables@ == old(db).page_tables@,
            final(db).kernel_start == old(db).kernel_start,
            final(db).kernel_end == old(db).kernel_end,
    {
        let worker = Worker::new(aspace);
        let id = db.workers.len() as u16;
        db.workers.push(worker);
        ObjectHandle::new::<1>(id)
    }

    /// The worker's address space, or the default one for an unknown id.
    pub fn get_worker_aspace(db: &Database, id: ObjectHandle) -> (r: vmm::AddressSpaceHandle)
        ensures
            id.spec_id() < db.workers@.len() ==> r == db.workers@[id.spec_id() as int].spec_aspace(),
            id.spec_id() >= db.workers@.len() ==> r == vmm::AddressSpaceHandle(0u16),
    {
        match db.workers.get(id.get_id() as usize) {
            Some(w) => w.aspace,
            None => vmm::AddressSpaceHandle::default(),
        }
    }

    /// Round robin: clears the ACTIVE flag on the current worker and sets it
    /// on the next one; scheduling without workers is a kernel fault.
    pub fn scheduler_tick(db: &mut Database) -> (r: ObjectHandle)
        requires
            old(db).workers.wf(),
            old(db).workers@.len() > 0,
        ensures
            ({
                let ws = old(db).workers@;
                let cur = spec_current_worker(ws);
                let next = (cur + 1) % (ws.len() as int);
                &&& r.spec_id() == next
                &&& r.spec_type() == ObjectHandle::WORKER
                &&& next == cur ==> final(db).workers@ == ws
                &&& next != cur ==> final(db).workers@.len() == ws.len()
                    && !final(db).workers@[cur].spec_is_active()
                    && final(db).workers@[next].spec_is_active()
                    && final(db).workers@[cur].spec_flags() == ws[cur].spec_flags()
                        & !Worker::ACTIVE
                    && final(db).workers@[cur].spec_aspace() == ws[cur].spec_aspace()
                    && final(db).workers@[cur].spec_entry_point() == ws[cur].spec_entry_point()
                    && final(db).workers@[cur].spec_tasks() == ws[cur].spec_tasks()
                    && final(db).workers@[next].spec_flags() == (ws[next].spec_flags()
                        & !Worker::ACTIVE) | Worker::ACTIVE
                    && final(db).workers@[next].spec_aspace() == ws[next].spec_aspace()
                    && final(db).workers@[next].spec_entry_point() == ws[next].spec_entry_point()
                    && final(db).workers@[next].spec_tasks() == ws[next].spec_tasks()
                    && (forall|i: int| 0 <= i < ws.len() && i != cur && i != next
                        ==> final(db).workers@[i] == ws[i])
            }),
            final(db).policy_rule@ == old(db).policy_rule@,
            final(db).vfs_nodes@ == old(db).vfs_nodes@,
            final(db).vfs_providers@ == old(db).vfs_providers@,
            final(db).aspaces@ == old(db).aspaces@,
            final(db).users@ == old(db).users@,
            final(db).groups@ == old(db).groups@,
            final(db).phys == old(db).phys,
            final(db).page_tables@ == old(db).page_tables@,
            final(db).kernel_start == old(db).kernel_start,
            final(db).kernel_end == old(db).kernel_end,
    {
        let ghost ws = old(db).workers@;
        let n = db.workers.len();
        let mut active_index: usize = 0;
        let mut i: usize = 0;
        let mut found = false;
        while i < n && !found
            invariant
                ws == db.workers@,
                n == ws.len(),
                i <= n,
                !found ==> active_index == 0,
                !found ==> forall|j: int| 0 <= j < i ==> !(#[trigger] ws[j]).spec_is_active(),
                found ==> active_index < n && ws[active_index as int].spec_is_active()
                    && first_active(ws, 0) == active_index,
            decreases n - i + if found {
                0int
            } else {
                1int
            },
        {
            let active = match db.workers.get(i) {
                Some(w) => w.is_active(),
                None => {
                    proof {
                        assert(false);
                    }
                    false
                },
            };
            if active {
                proof {
                    lemma_first_active_skip(ws, 0, i as int);
                }
                active_index = i;
                found = true;
            } else {
                i = i + 1;
            }
        }
        proof {
            if !found {
                lemma_first_active_skip(ws, 0, n as int);
                assert(forall|j: int| 0 <= j < ws.len() ==> !(#[trigger] ws[j]).spec_is_active());
                assert(spec_current_worker(ws) == 0);
            } else {
                assert(ws[active_index as int].spec_is_active());
                assert(spec_current_worker(ws) == active_index);
            }
        }
        let next_index = (active_index + 1) % n;
        if next_index != active_index {
            let a = db.workers.at_mut(active_index);
            a.set_active(false);
            let b = db.workers.at_mut(next_index);
            b.set_active(true);
        }
        ObjectHandle::new::<1>(next_index as u16)
    }
}

/// How a worker's address space must stand in the database for the task
/// manager to map into it.
pub open spec fn worker_aspace_ok(db: &Database, id: ObjectHandle) -> bool {
    &&& (id.spec_id() as int) < db.workers@.len()
    &&& vmm::aspace_ok(db, db.workers@[id.spec_id() as int].spec_aspace())
}

/// Pages a loadable segment spans, counting the offset within its first page.
pub open spec fn seg_pages(b: Seq<u8>, i: int) -> int {
    (elf::spec_ph_vaddr(b, i) % 4096 + elf::spec_ph_mem_size(b, i) + 4095) / 4096
}

/// Frames all loadable segments among the first `i` headers need.
pub open spec fn load_pages_upto(b: Seq<u8>, i: int) -> int
    decreases i,
{
    if i <= 0 {
        0
    } else {
        load_pages_upto(b, i - 1) + if elf::spec_ph_type(b, i - 1) == elf::PT_LOAD {
            seg_pages(b, i - 1)
        } else {
            0
        }
    }
}

/// Bounds one loadable segment must respect: the image data lies inside the
/// file and the segment fits the canonical address range.
pub open spec fn seg_bounds_ok(b: Seq<u8>, i: int) -> bool {
    &&& elf::spec_ph_file_size(b, i) <= elf::spec_ph_mem_size(b, i)
    &&& elf::spec_ph_file_offset(b, i) + elf::spec_ph_file_size(b, i) <= b.len()
    &&& elf::spec_ph_vaddr(b, i) + elf::spec_ph_mem_size(b, i) + 8192 < 0x1000000000000
}

/// The page-aligned start of the segment's page span.
pub open spec fn seg_base(b: Seq<u8>, i: int) -> int {
    elf::spec_ph_vaddr(b, i) - elf::spec_ph_vaddr(b, i) % 4096
}

/// What every loadable segment must respect: its bounds, and pairwise
/// disjoint page spans, so that no page is mapped twice.
pub open spec fn segs_ok(b: Seq<u8>) -> bool {
    &&& forall|i: int| 0 <= i < elf::spec_ph_count(b) && #[trigger] elf::spec_ph_type(b, i)
        == elf::PT_LOAD ==> seg_bounds_ok(b, i)
    &&& forall|i: int, j: int|
        #![trigger elf::spec_ph_type(b, i), elf::spec_ph_type(b, j)]
        0 <= i < elf::spec_ph_count(b) && 0 <= j < elf::spec_ph_count(b) && i != j
            && elf::spec_ph_type(b, i) == elf::PT_LOAD && elf::spec_ph_type(b, j) == elf::PT_LOAD
            ==> seg_base(b, i) + seg_pages(b, i) * 4096 <= seg_base(b, j) || seg_base(b, j)
            + seg_pages(b, j) * 4096 <= seg_base(b, i)
}

/// Plan slot `x` holds page `kk` of loadable segment `si`.
pub open spec fn plan_slot(b: Seq<u8>, si: int, kk: int, x: int) -> bool {
    &&& 0 <= si < elf::spec_ph_count(b)
    &&& elf::spec_ph_type(b, si) == elf::PT_LOAD
    &&& 0 <= kk < seg_pages(b, si)
    &&& x == load_pages_upto(b, si) + kk
}

/// Slot `x` belongs to some loadable segment's page.
pub open spec fn planned(b: Seq<u8>, x: int) -> bool {
    exists|si: int, kk: int| plan_slot(b, si, kk, x)
}

/// The page span of loadable segment `i`: its aligned base and one-past end.
fn seg_span(ph: &elf::ProgramHeader, Ghost(b): Ghost<Seq<u8>>, Ghost(i): Ghost<int>) -> (r: (
    u64,
    u64,
))
    requires
        ph.virtual_addr == elf::spec_ph_vaddr(b, i),
        ph.mem_size == elf::spec_ph_mem_size(b, i),
        seg_bounds_ok(b, i),
    ensures
        r.0 == seg_base(b, i),
        r.1 == seg_base(b, i) + seg_pages(b, i) * 4096,
        r.0 <= r.1,
{
    proof {
        let v = ph.virtual_addr as int;
        vstd::arithmetic::div_mod::lemma_fundamental_div_mod(v, 4096);
        vstd::arithmetic::div_mod::lemma_mod_bound(v, 4096);
        vstd::arithmetic::div_mod::lemma_div_is_ordered(0int, v, 4096);
        assert(v % 4096 <= v);
    }
    let po = ph.virtual_addr % 4096;
    let a = ph.virtual_addr - po;
    proof {
        let t = (po + ph.mem_size + 4095) as int;
        vstd::arithmetic::div_mod::lemma_fundamental_div_mod(t, 4096);
        vstd::arithmetic::div_mod::lemma_mod_bound(t, 4096);
        vstd::arithmetic::div_mod::lemma_div_is_ordered(0int, t, 4096);
        assert(4096 * (t / 4096) <= t);
    }
    let np = (po + ph.mem_size + 4095) / 4096;
    let e = a + np * 4096;
    proof {
        assert(np == seg_pages(b, i));
        assert(a == seg_base(b, i));
    }
    (a, e)
}

/// Whether the image's loadable segments respect `segs_ok`: the runtime gate
/// for images that arrive from outside the kernel.
pub fn check_segs(bytes: &[u8]) -> (r: bool)
    requires
        elf::valid_elf64(bytes@),
    ensures
        r == segs_ok(bytes@),
{
    let ghost b = bytes@;
    let count = elf::ph_count(bytes);
    let blen = bytes.len() as u64;
    let mut i: usize = 0;
    while i < count
        invariant
            elf::valid_elf64(b),
            b == bytes@,
            blen == b.len(),
            count == elf::spec_ph_count(b),
            i <= count,
            forall|si: int| 0 <= si < i && #[trigger] elf::spec_ph_type(b, si) == elf::PT_LOAD
                ==> seg_bounds_ok(b, si),
        decreases count - i,
    {
        let ph = elf::program_header(bytes, i);
        if ph.p_type == elf::PT_LOAD {
            if ph.file_size > ph.mem_size {
                proof {
                    assert(!seg_bounds_ok(b, i as int));
                }
                return false;
            }
            if ph.offset > blen || ph.file_size > blen - ph.offset {
                proof {
                    assert(!seg_bounds_ok(b, i as int));
                }
                return false;
            }
            if ph.virtual_addr >= 0x1000000000000 || ph.mem_size >= 0x1000000000000 {
                proof {
                    assert(!seg_bounds_ok(b, i as int));
                }
                return false;
            }
            if ph.virtual_addr + ph.mem_size + 8192 >= 0x1000000000000 {
                proof {
                    assert(!seg_bounds_ok(b, i as int));
                }
                return false;
            }
            proof {
                assert(seg_bounds_ok(b, i as int));
            }
        }
        i = i + 1;
    }
    let mut x: usize = 0;
    while x < count
        invariant
            elf::valid_elf64(b),
            b == bytes@,
            count == elf::spec_ph_count(b),
            x <= count,
            forall|si: int| 0 <= si < count && #[trigger] elf::spec_ph_type(b, si) == elf::PT_LOAD
                ==> seg_bounds_ok(b, si),
            forall|si: int, sj: int|
                #![trigger elf::spec_ph_type(b, si), elf::spec_ph_type(b, sj)]
                0 <= si < x && 0 <= sj < count && si != sj && elf::spec_ph_type(b, si)
                    == elf::PT_LOAD && elf::spec_ph_type(b, sj) == elf::PT_LOAD ==> seg_base(b, si)
                    + seg_pages(b, si) * 4096 <= seg_base(b, sj) || seg_base(b, sj) + seg_pages(
                    b,
                    sj,
                ) * 4096 <= seg_base(b, si),
        decreases count - x,
    {
        let phx = elf::program_header(bytes, x);
        if phx.p_type == elf::PT_LOAD {
            let (ax, ex) = seg_span(&phx, Ghost(b), Ghost(x as int));
            let mut j: usize = 0;
            while j < count
                invariant
                    elf::valid_elf64(b),
                    b == bytes@,
                    count == elf::spec_ph_count(b),
                    x < count,
                    j <= count,
                    elf::spec_ph_type(b, x as int) == elf::PT_LOAD,
                    ax == seg_base(b, x as int),
                    ex == seg_base(b, x as int) + seg_pages(b, x as int) * 4096,
                    forall|si: int| 0 <= si < count && #[trigger] elf::spec_ph_type(b, si)
                        == elf::PT_LOAD ==> seg_bounds_ok(b, si),
                    forall|sj: int|
                        0 <= sj < j && sj != x && #[trigger] elf::spec_ph_type(b, sj)
                            == elf::PT_LOAD ==> seg_base(b, x as int) + seg_pages(b, x as int)
                            * 4096 <= seg_base(b, sj) || seg_base(b, sj) + seg_pages(b, sj) * 4096
                            <= seg_base(b, x as int),
                decreases count - j,
            {
                if j != x {
                    let phj = elf::program_header(bytes, j);
                    if phj.p_type == elf::PT_LOAD {
                        let (aj, ej) = seg_span(&phj, Ghost(b), Ghost(j as int));
                        if !(ex <= aj || ej <= ax) {
                            proof {
                                assert(!segs_ok(b)) by {
                                    if segs_ok(b) {
                                        assert(seg_base(b, x as int) + seg_pages(b, x as int)
                                            * 4096 <= seg_base(b, j as int) || seg_base(
                                            b,
                                            j as int,
                                        ) + seg_pages(b, j as int) * 4096 <= seg_base(
                                            b,
                                            x as int,
                                        ));
                                    }
                                }
                            }
                            return false;
                        }
                    }
                }
                j = j + 1;
            }
        }
        x = x + 1;
    }
    true
}

/// A leaf written with the user-load flags is present.
proof fn lemma_flags7_present(f: u64)
    ensures
        vmm::pte_present(
            f | (vmm::Page::PRESENT | vmm::Page::READ_WRITE | vmm::Page::USER_SUPERVISOR),
        ),
{
    assert((f | (0x1u64 | 0x2u64 | 0x4u64)) & 0x1u64 != 0u64) by (bit_vector);
    assert(vmm::Page::PRESENT == 0x1u64 && vmm::Page::READ_WRITE == 0x2u64
        && vmm::Page::USER_SUPERVISOR == 0x4u64);
}

/// Page `kk` of segment `si` is page-aligned and canonical.
proof fn lemma_seg_page_bounds(b: Seq<u8>, si: int, kk: int)
    requires
        seg_bounds_ok(b, si),
        0 <= kk < seg_pages(b, si),
    ensures
        (seg_base(b, si) + kk * 4096) % 4096 == 0,
        0 <= seg_base(b, si),
        seg_base(b, si) + kk * 4096 + 4096 <= seg_base(b, si) + seg_pages(b, si) * 4096,
        seg_base(b, si) + seg_pages(b, si) * 4096 < 0x1000000000000,
{
    let v = elf::spec_ph_vaddr(b, si);
    let m = elf::spec_ph_mem_size(b, si);
    let po = v % 4096;
    assert(v >= 0 && m >= 0);
    vstd::arithmetic::div_mod::lemma_fundamental_div_mod(v, 4096);
    vstd::arithmetic::div_mod::lemma_mod_bound(v, 4096);
    assert(v / 4096 >= 0) by {
        vstd::arithmetic::div_mod::lemma_div_is_ordered(0int, v, 4096);
    }
    vstd::arithmetic::div_mod::lemma_mod_multiples_vanish(v / 4096, 0int, 4096);
    assert(seg_base(b, si) == 4096 * (v / 4096));
    assert(seg_base(b, si) % 4096 == 0);
    vstd::arithmetic::div_mod::lemma_mod_multiples_vanish(kk, seg_base(b, si), 4096);
    assert((4096 * kk + seg_base(b, si)) % 4096 == seg_base(b, si) % 4096);
    assert(seg_base(b, si) + kk * 4096 == 4096 * kk + seg_base(b, si));
    assert(seg_base(b, si) >= 0) by (nonlinear_arith)
        requires
            seg_base(b, si) == 4096 * (v / 4096),
            v / 4096 >= 0,
    ;
    assert(kk * 4096 + 4096 <= seg_pages(b, si) * 4096) by (nonlinear_arith)
        requires
            0 <= kk < seg_pages(b, si),
    ;
    let t = po + m + 4095;
    vstd::arithmetic::div_mod::lemma_fundamental_div_mod(t, 4096);
    vstd::arithmetic::div_mod::lemma_mod_bound(t, 4096);
    assert(seg_pages(b, si) * 4096 == 4096 * (t / 4096));
    assert(4096 * (t / 4096) <= t);
    assert(seg_base(b, si) + t == v + m + 4095);
}

/// One page of a loaded segment: where its frame sits, which file bytes the
/// shim copies into it, and which tail it zeroes.
#[derive(Debug, Clone, Copy, PartialEq, Eq, Structural)]
pub struct LoadedPage {
    /// Page-aligned virtual address the frame is mapped at.
    pub vaddr: u64,
    /// Physical base of the fresh frame.
    pub frame_addr: u64,
    /// Offset inside the page where the copied bytes start.
    pub copy_dst: u64,
    /// Offset inside the image file the bytes come from.
    pub src_off: u64,
    pub copy_len: u64,
    /// Offset inside the page where the zeroed tail starts.
    pub zero_dst: u64,
    pub zero_len: u64,
}

/// The copy window of page `k` of segment `i`: the intersection of the page
/// with the file-backed bytes, in segment-local coordinates.
pub open spec fn copy_window(b: Seq<u8>, i: int, k: int) -> (int, int) {
    let po = elf::spec_ph_vaddr(b, i) % 4096;
    let lo = if k * 4096 > po {
        k * 4096
    } else {
        po
    };
    let hi = if (k * 4096 + 4096) < po + elf::spec_ph_file_size(b, i) {
        k * 4096 + 4096
    } else {
        po + elf::spec_ph_file_size(b, i)
    };
    (lo, hi)
}

/// The zero window of page `k` of segment `i`: the intersection of the page
/// with the zero-filled tail.
pub open spec fn zero_window(b: Seq<u8>, i: int, k: int) -> (int, int) {
    let po = elf::spec_ph_vaddr(b, i) % 4096;
    let lo = if k * 4096 > po + elf::spec_ph_file_size(b, i) {
        k * 4096
    } else {
        po + elf::spec_ph_file_size(b, i)
    };
    let hi = if (k * 4096 + 4096) < po + elf::spec_ph_mem_size(b, i) {
        k * 4096 + 4096
    } else {
        po + elf::spec_ph_mem_size(b, i)
    };
    (lo, hi)
}

/// The page `k` of segment `i` is planned right: mapped at the right
/// address, copying exactly the file window, zeroing exactly the tail
/// window, everything within one page and within the file.
pub open spec fn page_plan_ok(b: Seq<u8>, i: int, k: int, p: LoadedPage) -> bool {
    let po = elf::spec_ph_vaddr(b, i) % 4096;
    let aligned = elf::spec_ph_vaddr(b, i) - po;
    let (clo, chi) = copy_window(b, i, k);
    let (zlo, zhi) = zero_window(b, i, k);
    &&& p.vaddr == aligned + k * 4096
    &&& p.frame_addr % 4096 == 0
    &&& (chi > clo ==> p.copy_len == chi - clo && p.copy_dst == clo - k * 4096 && p.src_off
        == elf::spec_ph_file_offset(b, i) + (clo - po))
    &&& (chi <= clo ==> p.copy_len == 0)
    &&& (zhi > zlo ==> p.zero_len == zhi - zlo && p.zero_dst == zlo - k * 4096)
    &&& (zhi <= zlo ==> p.zero_len == 0)
    &&& p.copy_dst + p.copy_len <= 4096
    &&& p.zero_dst + p.zero_len <= 4096
    &&& p.src_off + p.copy_len <= b.len()
}

impl Manager {
    /// Pushes a fresh task into the worker (capacity four; overflow is a
    /// kernel fault) and maps a zeroed stack frame at the default stack base
    /// in the worker's address space. An unknown worker yields `None`.
    pub fn new_task(db: &mut Database, id: ObjectHandle) -> (r: Option<TaskHandle>)
        requires
            vmm::tables_wf(old(db)),
            (id.spec_id() as int) < old(db).workers@.len() ==> {
                &&& old(db).workers@[id.spec_id() as int].spec_tasks().len() < 4
                &&& worker_aspace_ok(old(db), id)
                &&& pmm::free_frames(old(db).phys.arenas()) >= 4
            },
        ensures
            vmm::tables_wf(final(db)),
            (id.spec_id() as int) >= old(db).workers@.len() ==> r is None && *final(db) == *old(
                db,
            ),
            (id.spec_id() as int) < old(db).workers@.len() ==> {
                let w0 = old(db).workers@[id.spec_id() as int];
                let w1 = final(db).workers@[id.spec_id() as int];
                &&& r == Some(TaskHandle(w0.spec_tasks().len() as u8))
                &&& final(db).workers@.len() == old(db).workers@.len()
                &&& w1.spec_tasks().len() == w0.spec_tasks().len() + 1
                &&& w1.spec_aspace() == w0.spec_aspace()
                &&& (forall|i: int| 0 <= i < old(db).workers@.len() && i != id.spec_id()
                    ==> final(db).workers@[i] == old(db).workers@[i])
                &&& vmm::mapping_present(
                    final(db).page_tables@,
                    vmm::spec_root_base(final(db), w0.spec_aspace()),
                    TASK_STACK_BASE,
                )
                &&& exists|h: int|
                    {
                        &&& 0 <= h < pmm::total_pages(old(db).phys.arenas())
                        &&& !pmm::spec_allocated(old(db).phys.arenas(), h)
                        &&& pmm::spec_allocated(final(db).phys.arenas(), h)
                        &&& vmm::leaf_pte(
                            final(db).page_tables@,
                            vmm::spec_root_base(final(db), w0.spec_aspace()),
                            TASK_STACK_BASE,
                        ) == Some((pmm::spec_handle_base(final(db).phys.arenas(), h) as u64) | (
                        vmm::Page::PRESENT | vmm::Page::READ_WRITE))
                    }
                &&& final(db).policy_rule@ == old(db).policy_rule@
                &&& final(db).vfs_nodes@ == old(db).vfs_nodes@
                &&& final(db).vfs_providers@ == old(db).vfs_providers@
                &&& final(db).users@ == old(db).users@
                &&& final(db).groups@ == old(db).groups@
                &&& final(db).aspaces@ == old(db).aspaces@
            },
    {
        let idx = id.get_id() as usize;
        if idx >= db.workers.len() {
            return None;
        }
        let task_id;
        {
            let w = db.workers.at_mut(idx);
            task_id = TaskHandle(w.tasks.len() as u8);
            w.push_task(Task::new());
        }
        let aspace = Self::get_worker_aspace(db, id);
        let ghost ar0 = db.phys.arenas();
        let stack_page = pmm::Manager::alloc_page_zeroed(&mut db.phys);
        proof {
            assert(vmm::Page::PRESENT | vmm::Page::READ_WRITE == 3u64 && 3u64 & !0xfffu64 == 0
                && 3u64 & 0x1u64 != 0) by (bit_vector);
            let ar1 = db.phys.arenas();
            let ts = db.page_tables@;
            assert forall|i: int| 0 <= i < ts.len() implies exists|h2: int|
                0 <= h2 < pmm::total_pages(ar1) && pmm::spec_allocated(ar1, h2)
                    && pmm::spec_handle_base(ar1, h2) == (#[trigger] ts[i]).base by {
                let h2 = choose|h2: int|
                    0 <= h2 < pmm::total_pages(ar0) && pmm::spec_allocated(ar0, h2)
                        && pmm::spec_handle_base(ar0, h2) == ts[i].base;
                assert(0 <= h2 < pmm::total_pages(ar1) && pmm::spec_allocated(ar1, h2)
                    && pmm::spec_handle_base(ar1, h2) == ts[i].base);
            }
            assert(vmm::tables_wf(db));
            assert(vmm::aspace_ok(db, aspace));
            vmm::lemma_handle_base_aligned(ar1, stack_page.0 as int);
        }
        let frame = stack_page.get(&db.phys) as u64;
        vmm::Manager::map(
            db,
            aspace,
            frame,
            TASK_STACK_BASE,
            1,
            vmm::Page::PRESENT | vmm::Page::READ_WRITE,
        );
        proof {
            assert(vmm::mapping_present(
                db.page_tables@,
                vmm::spec_root_base(db, aspace),
                (TASK_STACK_BASE + 0 * 4096) as u64,
            ));
            assert((TASK_STACK_BASE + 0 * 4096) as u64 == TASK_STACK_BASE);
            let h = stack_page.0 as int;
            assert(!pmm::spec_allocated(ar0, h) && 0 <= h < pmm::total_pages(ar0));
            assert(pmm::spec_allocated(db.phys.arenas(), h));
            assert(pmm::spec_handle_base(db.phys.arenas(), h) == frame);
            assert(frame & !0xfffu64 == frame) by (bit_vector)
                requires
                    frame % 4096 == 0,
            ;
            assert(vmm::leaf_pte(
                db.page_tables@,
                vmm::spec_root_base(db, aspace),
                TASK_STACK_BASE,
            ) == Some(frame | (vmm::Page::PRESENT | vmm::Page::READ_WRITE)));
        }
        Some(task_id)
    }
}


/// Allocates and maps one page of a loadable segment and returns its
/// copy/zero plan.
#[verifier::rlimit(100)]
#[verifier::spinoff_prover]
fn load_seg_page(
    db: &mut Database,
    aspace: vmm::AddressSpaceHandle,
    ph: elf::ProgramHeader,
    k: usize,
    Ghost(b): Ghost<Seq<u8>>,
    Ghost(i): Ghost<int>,
) -> (page: LoadedPage)
    requires
        vmm::tables_wf(old(db)),
        vmm::aspace_ok(old(db), aspace),
        pmm::free_frames(old(db).phys.arenas()) >= 4,
        0 <= i < elf::spec_ph_count(b),
        elf::spec_ph_type(b, i) == elf::PT_LOAD,
        ph.virtual_addr == elf::spec_ph_vaddr(b, i),
        ph.mem_size == elf::spec_ph_mem_size(b, i),
        ph.file_size == elf::spec_ph_file_size(b, i),
        ph.offset == elf::spec_ph_file_offset(b, i),
        ph.file_size <= ph.mem_size,
        ph.offset + ph.file_size <= b.len(),
        ph.offset + ph.file_size <= usize::MAX,
        ph.virtual_addr + ph.mem_size + 8192 < 0x1000000000000,
        0 <= (k as int) < seg_pages(b, i),
    ensures
        vmm::tables_wf(final(db)),
        vmm::mem_only_change(old(db), final(db)),
        final(db).aspaces@ == old(db).aspaces@,
        vmm::phys_grows(old(db), final(db)),
        pmm::free_frames(final(db).phys.arenas()) >= pmm::free_frames(old(db).phys.arenas()) - 4,
        forall|bb: u64| #[trigger] vmm::is_table_base(old(db).page_tables@, bb)
            ==> vmm::is_table_base(final(db).page_tables@, bb),
        forall|a: vmm::AddressSpaceHandle| vmm::aspace_ok(old(db), a) ==> vmm::aspace_ok(
            final(db),
            a,
        ),
        vmm::spec_root_base(final(db), aspace) == vmm::spec_root_base(old(db), aspace),
        page_plan_ok(b, i, k as int, page),
        vmm::mapping_present(
            final(db).page_tables@,
            vmm::spec_root_base(old(db), aspace),
            page.vaddr,
        ),
        vmm::leaf_pte(final(db).page_tables@, vmm::spec_root_base(old(db), aspace), page.vaddr)
            == Some(page.frame_addr | (vmm::Page::PRESENT | vmm::Page::READ_WRITE
            | vmm::Page::USER_SUPERVISOR)),
        page.vaddr == elf::spec_ph_vaddr(b, i) - elf::spec_ph_vaddr(b, i) % 4096 + k * 4096,
        forall|va: u64| !vmm::same_path(va, page.vaddr) ==> (vmm::mapping_present(
            final(db).page_tables@,
            vmm::spec_root_base(old(db), aspace),
            va,
        ) == vmm::mapping_present(
            old(db).page_tables@,
            vmm::spec_root_base(old(db), aspace),
            va,
        ) && (vmm::mapping_present(
            old(db).page_tables@,
            vmm::spec_root_base(old(db), aspace),
            va,
        ) ==> vmm::leaf_pte(final(db).page_tables@, vmm::spec_root_base(old(db), aspace), va)
            == vmm::leaf_pte(old(db).page_tables@, vmm::spec_root_base(old(db), aspace), va))),
{
    let virt_addr = ph.virtual_addr;
    let page_offset = virt_addr % 4096;
    let aligned_virt_addr = virt_addr - page_offset;
    let ghost ar0 = db.phys.arenas();
    let handle = pmm::Manager::alloc_page(&mut db.phys);
    proof {
        let ar1 = db.phys.arenas();
        let ts = db.page_tables@;
        assert forall|ii: int| 0 <= ii < ts.len() implies exists|h2: int|
            0 <= h2 < pmm::total_pages(ar1) && pmm::spec_allocated(ar1, h2)
                && pmm::spec_handle_base(ar1, h2) == (#[trigger] ts[ii]).base by {
            let h2 = choose|h2: int|
                0 <= h2 < pmm::total_pages(ar0) && pmm::spec_allocated(ar0, h2)
                    && pmm::spec_handle_base(ar0, h2) == ts[ii].base;
            assert(0 <= h2 < pmm::total_pages(ar1) && pmm::spec_allocated(ar1, h2)
                && pmm::spec_handle_base(ar1, h2) == ts[ii].base);
        }
        assert(vmm::tables_wf(db));
        vmm::lemma_handle_base_aligned(ar1, handle.0 as int);
        assert(vmm::Page::PRESENT | vmm::Page::READ_WRITE | vmm::Page::USER_SUPERVISOR == 7u64
            && 7u64 & !0xfffu64 == 0 && 7u64 & 0x1u64 != 0) by (bit_vector);
        assert((k as int) * 4096 + 4096 <= seg_pages(b, i) * 4096) by (nonlinear_arith)
            requires
                0 <= (k as int) < seg_pages(b, i),
        ;
        assert(seg_pages(b, i) * 4096 <= elf::spec_ph_vaddr(b, i) % 4096 + elf::spec_ph_mem_size(
            b,
            i,
        ) + 4095) by (nonlinear_arith)
            requires
                seg_pages(b, i) == (elf::spec_ph_vaddr(b, i) % 4096 + elf::spec_ph_mem_size(b, i)
                    + 4095) / 4096,
                elf::spec_ph_vaddr(b, i) % 4096 + elf::spec_ph_mem_size(b, i) + 4095 >= 0,
        ;
    }
    let ptr = handle.get_mut(&db.phys) as u64;
    let page_vaddr = aligned_virt_addr + (k as u64) * 4096;
    vmm::Manager::map_single(
        db,
        aspace,
        ptr,
        page_vaddr,
        vmm::Page::PRESENT | vmm::Page::READ_WRITE | vmm::Page::USER_SUPERVISOR,
    );
    let win_lo = (k as u64) * 4096;
    let win_hi = win_lo + 4096;
    let clo = if win_lo > page_offset {
        win_lo
    } else {
        page_offset
    };
    let chi = if win_hi < page_offset + ph.file_size {
        win_hi
    } else {
        page_offset + ph.file_size
    };
    let zlo = if win_lo > page_offset + ph.file_size {
        win_lo
    } else {
        page_offset + ph.file_size
    };
    let zhi = if win_hi < page_offset + ph.mem_size {
        win_hi
    } else {
        page_offset + ph.mem_size
    };
    let page = LoadedPage {
        vaddr: page_vaddr,
        frame_addr: ptr,
        copy_dst: if chi > clo {
            clo - win_lo
        } else {
            0
        },
        src_off: if chi > clo {
            ph.offset + (clo - page_offset)
        } else {
            0
        },
        copy_len: if chi > clo {
            chi - clo
        } else {
            0
        },
        zero_dst: if zhi > zlo {
            zlo - win_lo
        } else {
            0
        },
        zero_len: if zhi > zlo {
            zhi - zlo
        } else {
            0
        },
    };
    proof {
        assert(page_plan_ok(b, i, k as int, page));
        let pv = ptr;
        assert(pv & !0xfffu64 == pv) by (bit_vector)
            requires
                pv % 4096 == 0,
        ;
        assert(vmm::leaf_pte(db.page_tables@, vmm::spec_root_base(old(db), aspace), page.vaddr)
            == Some(page.frame_addr | (vmm::Page::PRESENT | vmm::Page::READ_WRITE
            | vmm::Page::USER_SUPERVISOR)));
    }
    page
}

impl Manager {
    /// Loads every `PT_LOAD` segment of the image into the worker's address
    /// space: one fresh frame per page, mapped user-writable, and a copy/zero
    /// plan for the shim, which moves the bytes through the identity mapping.
    /// When `main` is set, the image entry point is recorded on the worker.
    /// A malformed image is a kernel fault, so it is excluded.
    #[verifier::rlimit(100)]
    #[verifier::spinoff_prover]
    pub fn load_elf_into_worker(
        db: &mut Database,
        id: ObjectHandle,
        bytes: &[u8],
        main: bool,
    ) -> (r: Vec<LoadedPage>)
        requires
            vmm::tables_wf(old(db)),
            elf::valid_elf64(bytes@),
            segs_ok(bytes@),
            worker_aspace_ok(old(db), id),
            pmm::free_frames(old(db).phys.arenas()) >= 4 * load_pages_upto(
                bytes@,
                elf::spec_ph_count(bytes@),
            ),
            load_pages_upto(bytes@, elf::spec_ph_count(bytes@)) <= usize::MAX,
        ensures
            vmm::tables_wf(final(db)),
            final(db).workers@.len() == old(db).workers@.len(),
            forall|i: int| 0 <= i < old(db).workers@.len() && i != id.spec_id()
                ==> final(db).workers@[i] == old(db).workers@[i],
            ({
                let w0 = old(db).workers@[id.spec_id() as int];
                let w1 = final(db).workers@[id.spec_id() as int];
                &&& w1.spec_aspace() == w0.spec_aspace()
                &&& w1.spec_tasks() == w0.spec_tasks()
                &&& w1.spec_flags() == w0.spec_flags()
                &&& (main ==> w1.spec_entry_point() == elf::spec_entry_point(bytes@))
                &&& (!main ==> w1.spec_entry_point() == w0.spec_entry_point())
            }),
            final(db).policy_rule@ == old(db).policy_rule@,
            final(db).vfs_nodes@ == old(db).vfs_nodes@,
            final(db).vfs_providers@ == old(db).vfs_providers@,
            final(db).users@ == old(db).users@,
            final(db).groups@ == old(db).groups@,
            final(db).aspaces@ == old(db).aspaces@,
            r@.len() == load_pages_upto(bytes@, elf::spec_ph_count(bytes@)),
            forall|i: int, k: int|
                0 <= i < elf::spec_ph_count(bytes@) && #[trigger] elf::spec_ph_type(bytes@, i)
                    == elf::PT_LOAD && 0 <= k < seg_pages(bytes@, i) ==> page_plan_ok(
                    bytes@,
                    i,
                    k,
                    #[trigger] r@[load_pages_upto(bytes@, i) + k],
                ),
            forall|i: int, k: int|
                0 <= i < elf::spec_ph_count(bytes@) && elf::spec_ph_type(bytes@, i)
                    == elf::PT_LOAD && 0 <= k < seg_pages(bytes@, i)
                    ==> #[trigger] vmm::mapping_present(
                    final(db).page_tables@,
                    vmm::spec_root_base(
                        final(db),
                        old(db).workers@[id.spec_id() as int].spec_aspace(),
                    ),
                    (elf::spec_ph_vaddr(bytes@, i) - elf::spec_ph_vaddr(bytes@, i) % 4096 + k
                        * 4096) as u64,
                ),
            forall|i: int, k: int|
                0 <= i < elf::spec_ph_count(bytes@) && elf::spec_ph_type(bytes@, i)
                    == elf::PT_LOAD && 0 <= k < seg_pages(bytes@, i) ==> #[trigger] vmm::leaf_pte(
                    final(db).page_tables@,
                    vmm::spec_root_base(
                        final(db),
                        old(db).workers@[id.spec_id() as int].spec_aspace(),
                    ),
                    (elf::spec_ph_vaddr(bytes@, i) - elf::spec_ph_vaddr(bytes@, i) % 4096 + k
                        * 4096) as u64,
                ) == Some(r@[load_pages_upto(bytes@, i) + k].frame_addr | (vmm::Page::PRESENT
                    | vmm::Page::READ_WRITE | vmm::Page::USER_SUPERVISOR)),
    {
        let ghost b = bytes@;
        let ghost nseg = elf::spec_ph_count(bytes@);
        let aspace = Self::get_worker_aspace(db, id);
        let ghost root = vmm::spec_root_base(db, aspace);
        let blen = bytes.len();
        let count = elf::ph_count(bytes);
        let mut plan: Vec<LoadedPage> = Vec::new();
        proof {
            assert(forall|si: int| #[trigger] seg_pages(b, si) >= 0);
            lemma_load_pages_mono(b, 0, nseg);
        }
        let mut i: usize = 0;
        while i < count
            invariant
                vmm::tables_wf(db),
                vmm::aspace_ok(db, aspace),
                vmm::spec_root_base(db, aspace) == root,
                elf::valid_elf64(b),
                segs_ok(b),
                b == bytes@,
                blen == b.len(),
                count == nseg,
                nseg == elf::spec_ph_count(b),
                i <= count,
                load_pages_upto(b, nseg) <= usize::MAX,
                plan@.len() == load_pages_upto(b, i as int),
                load_pages_upto(b, i as int) <= load_pages_upto(b, nseg),
                pmm::free_frames(db.phys.arenas()) >= 4 * (load_pages_upto(b, nseg)
                    - load_pages_upto(b, i as int)),
                db.workers@ == old(db).workers@,
                db.aspaces@ == old(db).aspaces@,
                db.policy_rule@ == old(db).policy_rule@,
                db.vfs_nodes@ == old(db).vfs_nodes@,
                db.vfs_providers@ == old(db).vfs_providers@,
                db.users@ == old(db).users@,
                db.groups@ == old(db).groups@,
                db.kernel_start == old(db).kernel_start,
                db.kernel_end == old(db).kernel_end,
                aspace == old(db).workers@[id.spec_id() as int].spec_aspace(),
                (id.spec_id() as int) < db.workers@.len(),
                forall|si: int, kk: int|
                    0 <= si < i && #[trigger] elf::spec_ph_type(b, si) == elf::PT_LOAD && 0 <= kk
                        < seg_pages(b, si) ==> page_plan_ok(
                        b,
                        si,
                        kk,
                        #[trigger] plan@[load_pages_upto(b, si) + kk],
                    ),
                forall|x: int| 0 <= x < plan@.len() ==> #[trigger] planned(b, x),
                forall|x: int| 0 <= x < plan@.len() ==> #[trigger] vmm::leaf_pte(
                    db.page_tables@,
                    root,
                    plan@[x].vaddr,
                ) == Some(plan@[x].frame_addr | (vmm::Page::PRESENT | vmm::Page::READ_WRITE
                    | vmm::Page::USER_SUPERVISOR)),
            decreases count - i,
        {
            let ph = elf::program_header(bytes, i);
            let ghost plan_base = plan@.len() as int;
            let ghost seg_start_plan = plan@;
            if ph.p_type == elf::PT_LOAD {
                let virt_addr = ph.virtual_addr;
                let page_offset = virt_addr % 4096;
                let aligned_virt_addr = virt_addr - page_offset;
                let total_size = page_offset + ph.mem_size;
                let np64 = (total_size + 4095) / 4096;
                proof {
                    assert(np64 == seg_pages(b, i as int));
                    assert(load_pages_upto(b, i as int + 1) == load_pages_upto(b, i as int)
                        + seg_pages(b, i as int));
                    assert(forall|si: int| #[trigger] seg_pages(b, si) >= 0);
                    lemma_load_pages_mono(b, i as int + 1, nseg);
                    lemma_load_pages_nonneg(b, i as int);
                    assert(np64 <= usize::MAX);
                }
                let num_pages = np64 as usize;
                let mut k: usize = 0;
                while k < num_pages
                    invariant
                        vmm::tables_wf(db),
                        vmm::aspace_ok(db, aspace),
                        vmm::spec_root_base(db, aspace) == root,
                        elf::valid_elf64(b),
                        segs_ok(b),
                        b == bytes@,
                        blen == b.len(),
                        i < count,
                        count == nseg,
                        nseg == elf::spec_ph_count(b),
                        k <= num_pages,
                        elf::spec_ph_type(b, i as int) == elf::PT_LOAD,
                        ph.virtual_addr == elf::spec_ph_vaddr(b, i as int),
                        ph.mem_size == elf::spec_ph_mem_size(b, i as int),
                        ph.file_size == elf::spec_ph_file_size(b, i as int),
                        ph.offset == elf::spec_ph_file_offset(b, i as int),
                        num_pages == seg_pages(b, i as int),
                        load_pages_upto(b, i as int) + num_pages <= load_pages_upto(b, nseg),
                        load_pages_upto(b, nseg) <= usize::MAX,
                        plan_base == load_pages_upto(b, i as int),
                        seg_start_plan.len() == plan_base,
                        plan@.len() == plan_base + k,
                        forall|x: int| 0 <= x < plan_base ==> #[trigger] plan@[x]
                            == seg_start_plan[x],
                        pmm::free_frames(db.phys.arenas()) >= 4 * (load_pages_upto(b, nseg)
                            - load_pages_upto(b, i as int) - k),
                        db.workers@ == old(db).workers@,
                        db.aspaces@ == old(db).aspaces@,
                        db.policy_rule@ == old(db).policy_rule@,
                        db.vfs_nodes@ == old(db).vfs_nodes@,
                        db.vfs_providers@ == old(db).vfs_providers@,
                        db.users@ == old(db).users@,
                        db.groups@ == old(db).groups@,
                        db.kernel_start == old(db).kernel_start,
                        db.kernel_end == old(db).kernel_end,
                        aspace == old(db).workers@[id.spec_id() as int].spec_aspace(),
                        (id.spec_id() as int) < db.workers@.len(),
                        forall|kk: int| 0 <= kk < k ==> page_plan_ok(
                            b,
                            i as int,
                            kk,
                            #[trigger] plan@[plan_base + kk],
                        ),
                        forall|si: int, kk: int|
                            0 <= si < i && #[trigger] elf::spec_ph_type(b, si) == elf::PT_LOAD
                                && 0 <= kk < seg_pages(b, si) ==> page_plan_ok(
                                b,
                                si,
                                kk,
                                #[trigger] plan@[load_pages_upto(b, si) + kk],
                            ),
                        forall|x: int| 0 <= x < plan@.len() ==> #[trigger] planned(b, x),
                        forall|x: int| 0 <= x < plan@.len() ==> #[trigger] vmm::leaf_pte(
                            db.page_tables@,
                            root,
                            plan@[x].vaddr,
                        ) == Some(plan@[x].frame_addr | (vmm::Page::PRESENT
                            | vmm::Page::READ_WRITE | vmm::Page::USER_SUPERVISOR)),
                    decreases num_pages - k,
                {
                    let ghost pre_ts = db.page_tables@;
                    let page = load_seg_page(db, aspace, ph, k, Ghost(b), Ghost(i as int));
                    let page_vaddr = page.vaddr;
                    let ghost prev_plan = plan@;
                    plan.push(page);
                    proof {
                        let flags7 = vmm::Page::PRESENT | vmm::Page::READ_WRITE
                            | vmm::Page::USER_SUPERVISOR;
                        assert(forall|sj: int| #[trigger] seg_pages(b, sj) >= 0);
                        assert(plan_slot(b, i as int, k as int, plan_base + k));
                        assert forall|x: int| 0 <= x < plan@.len() implies #[trigger] planned(
                            b,
                            x,
                        ) by {
                            if x >= prev_plan.len() {
                                assert(plan_slot(b, i as int, k as int, x));
                            }
                        }
                        assert(seg_bounds_ok(b, i as int));
                        lemma_seg_page_bounds(b, i as int, k as int);
                        assert forall|x: int| 0 <= x < plan@.len()
                            implies #[trigger] vmm::leaf_pte(db.page_tables@, root, plan@[x].vaddr)
                            == Some(plan@[x].frame_addr | flags7) by {
                            if x < prev_plan.len() {
                                assert(plan@[x] == prev_plan[x]);
                                assert(planned(b, x));
                                let (si, kk) = choose|si: int, kk: int| plan_slot(b, si, kk, x);
                                lemma_load_pages_nonneg(b, si);
                                if si > i as int {
                                    assert(load_pages_upto(b, i as int) + seg_pages(b, i as int)
                                        == load_pages_upto(b, i as int + 1));
                                    lemma_load_pages_mono(b, i as int + 1, si);
                                    assert(false);
                                }
                                if si < i as int {
                                    assert(load_pages_upto(b, si) + seg_pages(b, si)
                                        == load_pages_upto(b, si + 1));
                                    lemma_load_pages_mono(b, si + 1, i as int);
                                    assert(plan@[load_pages_upto(b, si) + kk] == plan@[x]);
                                    assert(page_plan_ok(b, si, kk, plan@[x]));
                                } else {
                                    assert(kk == x - plan_base && kk < k);
                                    assert(plan@[plan_base + kk] == plan@[x]);
                                    assert(page_plan_ok(b, si, kk, plan@[x]));
                                }
                                assert(seg_bounds_ok(b, si));
                                lemma_seg_page_bounds(b, si, kk);
                                let va = plan@[x].vaddr;
                                assert(va == seg_base(b, si) + kk * 4096);
                                assert(page_vaddr == seg_base(b, i as int) + (k as int) * 4096);
                                if si == i as int {
                                    assert(va != page_vaddr);
                                } else {
                                    assert(seg_base(b, si) + seg_pages(b, si) * 4096 <= seg_base(
                                        b,
                                        i as int,
                                    ) || seg_base(b, i as int) + seg_pages(b, i as int) * 4096
                                        <= seg_base(b, si));
                                    assert(va != page_vaddr);
                                }
                                vmm::lemma_distinct_pages_differ(va, page_vaddr);
                                lemma_flags7_present(prev_plan[x].frame_addr);
                                assert(vmm::mapping_present(pre_ts, root, va));
                                assert(vmm::leaf_pte(db.page_tables@, root, va) == vmm::leaf_pte(
                                    pre_ts,
                                    root,
                                    va,
                                ));
                            } else {
                                assert(plan@[x] == page);
                            }
                        }
                        assert(forall|x: int| 0 <= x < plan_base ==> #[trigger] plan@[x]
                            == seg_start_plan[x]);
                        assert(forall|kk: int| 0 <= kk < k + 1 ==> page_plan_ok(
                            b,
                            i as int,
                            kk,
                            #[trigger] plan@[plan_base + kk],
                        ));
                        assert forall|si: int, kk: int|
                            0 <= si < i && #[trigger] elf::spec_ph_type(b, si) == elf::PT_LOAD
                                && 0 <= kk < seg_pages(b, si) implies page_plan_ok(
                            b,
                            si,
                            kk,
                            #[trigger] plan@[load_pages_upto(b, si) + kk],
                        ) by {
                            lemma_load_pages_nonneg(b, si);
                            assert(load_pages_upto(b, si) + seg_pages(b, si) == load_pages_upto(
                                b,
                                si + 1,
                            ));
                            lemma_load_pages_mono(b, si + 1, i as int);
                            assert(plan@[load_pages_upto(b, si) + kk] == prev_plan[load_pages_upto(
                                b,
                                si,
                            ) + kk]);
                        }
                    }
                    k = k + 1;
                }
                proof {
                    assert forall|si: int, kk: int|
                        0 <= si < i + 1 && #[trigger] elf::spec_ph_type(b, si) == elf::PT_LOAD
                            && 0 <= kk < seg_pages(b, si) implies page_plan_ok(
                        b,
                        si,
                        kk,
                        #[trigger] plan@[load_pages_upto(b, si) + kk],
                    ) by {
                        if si < i {
                            assert(forall|sj: int| #[trigger] seg_pages(b, sj) >= 0);
                            lemma_load_pages_nonneg(b, si);
                            assert(load_pages_upto(b, si) + seg_pages(b, si) == load_pages_upto(
                                b,
                                si + 1,
                            ));
                            lemma_load_pages_mono(b, si + 1, i as int);
                            assert(plan@[load_pages_upto(b, si) + kk] == seg_start_plan[
                                load_pages_upto(b, si) + kk]);
                        }
                    }
                }
            } else {
                proof {
                    assert(load_pages_upto(b, i as int + 1) == load_pages_upto(b, i as int));
                }
            }
            i = i + 1;
        }
        if main {
            let entry = elf::entry_point(bytes);
            let w = db.workers.at_mut(id.get_id() as usize);
            w.set_entry_point(entry);
        }
        proof {
            assert(vmm::pt_wf(db.page_tables@));
            assert(db.phys.wf());
            assert(vmm::tables_wf(db));
            let flags7 = vmm::Page::PRESENT | vmm::Page::READ_WRITE | vmm::Page::USER_SUPERVISOR;
            assert forall|si: int, kk: int|
                0 <= si < nseg && elf::spec_ph_type(b, si) == elf::PT_LOAD && 0 <= kk < seg_pages(
                    b,
                    si,
                ) implies #[trigger] vmm::leaf_pte(
                db.page_tables@,
                root,
                (elf::spec_ph_vaddr(b, si) - elf::spec_ph_vaddr(b, si) % 4096 + kk
                    * 4096) as u64,
            ) == Some(plan@[load_pages_upto(b, si) + kk].frame_addr | flags7) by {
                assert(forall|sj: int| #[trigger] seg_pages(b, sj) >= 0);
                lemma_load_pages_nonneg(b, si);
                assert(load_pages_upto(b, si) + seg_pages(b, si) == load_pages_upto(b, si + 1));
                lemma_load_pages_mono(b, si + 1, nseg);
                let x = load_pages_upto(b, si) + kk;
                assert(page_plan_ok(b, si, kk, plan@[x]));
                assert(vmm::leaf_pte(db.page_tables@, root, plan@[x].vaddr) == Some(
                    plan@[x].frame_addr | flags7,
                ));
            }
            assert forall|si: int, kk: int|
                0 <= si < nseg && elf::spec_ph_type(b, si) == elf::PT_LOAD && 0 <= kk < seg_pages(
                    b,
                    si,
                ) implies #[trigger] vmm::mapping_present(
                db.page_tables@,
                root,
                (elf::spec_ph_vaddr(b, si) - elf::spec_ph_vaddr(b, si) % 4096 + kk
                    * 4096) as u64,
            ) by {
                assert(forall|sj: int| #[trigger] seg_pages(b, sj) >= 0);
                lemma_load_pages_nonneg(b, si);
                assert(load_pages_upto(b, si) + seg_pages(b, si) == load_pages_upto(b, si + 1));
                lemma_load_pages_mono(b, si + 1, nseg);
                let x = load_pages_upto(b, si) + kk;
                assert(vmm::leaf_pte(
                    db.page_tables@,
                    root,
                    (elf::spec_ph_vaddr(b, si) - elf::spec_ph_vaddr(b, si) % 4096 + kk
                        * 4096) as u64,
                ) == Some(plan@[x].frame_addr | flags7));
                lemma_flags7_present(plan@[x].frame_addr);
            }
        }
        plan
    }
}

proof fn lemma_load_pages_nonneg(b: Seq<u8>, i: int)
    ensures
        load_pages_upto(b, i) >= 0,
    decreases i,
{
    if i > 0 {
        lemma_load_pages_nonneg(b, i - 1);
    }
}

/// Page counts grow with the number of headers taken.
proof fn lemma_load_pages_mono(b: Seq<u8>, i: int, j: int)
    requires
        0 <= i <= j,
        forall|si: int| 0 <= si < j && #[trigger] elf::spec_ph_type(b, si) == elf::PT_LOAD
            ==> seg_pages(b, si) >= 0,
    ensures
        load_pages_upto(b, i) <= load_pages_upto(b, j),
    decreases j - i,
{
    if i < j {
        lemma_load_pages_mono(b, i + 1, j);
    }
}

} // verus!
