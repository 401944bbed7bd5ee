//! CPU management: GDT and IDT descriptor encodings, the TSS image, and the
//! per-vector ISR thunk bytes with their patchable jump offset.
//!
//! Loading the tables (`lgdt`, `lidt`, `ltr`), toggling maskable interrupts
//! and the ring transition are single instructions the shim issues; what is
//! verified here is every byte and field they consume.

use vstd::prelude::*;

verus! {

pub const KERNEL_CODE_SEGMENT: u16 = 0x08;
pub const KERNEL_DATA_SEGMENT: u16 = 0x10;
pub const USER_CODE_SEGMENT: u16 = 0x18;
pub const USER_DATA_SEGMENT: u16 = 0x20;

/// The register file as the common ISR body saves it, with the vector number
/// and the interrupt frame the hardware pushed.
#[derive(Debug, Clone, Copy)]
pub struct InterruptStackFrame {
    pub gpr: [u64; 16],
    pub irq: u64,
    pub rip: u64,
    pub cs: u64,
    pub rflags: u64,
    pub rsp: u64,
}

impl InterruptStackFrame {
    /// Byte offsets of the saved registers from the handler's frame base.
    pub const R15: usize = 8 * 0;
    pub const R14: usize = 8 * 1;
    pub const R13: usize = 8 * 2;
    pub const R12: usize = 8 * 3;
    pub const R11: usize = 8 * 4;
    pub const R10: usize = 8 * 5;
    pub const R9: usize = 8 * 6;
    pub const R8: usize = 8 * 7;
    pub const RDI: usize = 8 * 8;
    pub const RSI: usize = 8 * 9;
    pub const RDX: usize = 8 * 10;
    pub const RCX: usize = 8 * 11;
    pub const RBX: usize = 8 * 12;
    pub const RAX: usize = 8 * 13;
    pub const RBP: usize = 8 * 14;
    pub const RSP: usize = 8 * 15;
}

/// A 16-byte interrupt gate.
#[derive(Debug, Clone, Copy, PartialEq, Eq, Structural)]
pub struct InterruptDescriptor {
    pub offset_1: u16,
    pub selector: u16,
    pub ist: u8,
    pub type_attributes: u8,
    pub offset_2: u16,
    pub offset_3: u32,
    pub zero: u32,
}

impl InterruptDescriptor {
    pub fn new_zero() -> (r: Self)
        ensures
            r == (InterruptDescriptor {
                offset_1: 0,
                selector: 0,
                ist: 0,
                type_attributes: 0,
                offset_2: 0,
                offset_3: 0,
                zero: 0,
            }),
    {
        InterruptDescriptor {
            offset_1: 0,
            offset_2: 0,
            offset_3: 0,
            selector: 0,
            type_attributes: 0,
            ist: 0,
            zero: 0,
        }
    }

    /// Splits the handler address over the three offset fields; a thunk
    /// address must be 16-byte aligned.
    pub fn new(addr: u64, type_attributes: u8, ist: u8) -> (r: Self)
        requires
            addr % 16 == 0,
        ensures
            r.offset_1 == addr & 0xffff,
            r.offset_2 == (addr >> 16) & 0xffff,
            r.offset_3 == (addr >> 32) & 0xffffffff,
            r.selector == KERNEL_CODE_SEGMENT,
            r.ist == ist,
            r.type_attributes == type_attributes,
            r.zero == 0,
    {
        proof {
            let a = addr;
            assert(a & 0xffffu64 <= 0xffff && (a >> 16u64) & 0xffffu64 <= 0xffff && (a
                >> 32u64) & 0xffffffffu64 <= 0xffffffff) by (bit_vector);
        }
        InterruptDescriptor {
            offset_1: (addr & 0xffff) as u16,
            offset_2: ((addr >> 16) & 0xffff) as u16,
            offset_3: ((addr >> 32) & 0xffffffff) as u32,
            selector: KERNEL_CODE_SEGMENT,
            ist,
            type_attributes,
            zero: 0,
        }
    }

    /// An interrupt gate (maskable interrupts stay off in the handler).
    pub fn new_interrupt_gate(addr: u64) -> (r: Self)
        requires
            addr % 16 == 0,
        ensures
            r.offset_1 == addr & 0xffff,
            r.offset_2 == (addr >> 16) & 0xffff,
            r.offset_3 == (addr >> 32) & 0xffffffff,
            r.selector == KERNEL_CODE_SEGMENT,
            r.ist == 0,
            r.type_attributes == 0x8e,
            r.zero == 0,
    {
        Self::new(addr, 0x8e, 0)
    }

    /// A trap gate (maskable interrupts stay on).
    pub fn new_trap_gate(addr: u64) -> (r: Self)
        requires
            addr % 16 == 0,
        ensures
            r.offset_1 == addr & 0xffff,
            r.offset_2 == (addr >> 16) & 0xffff,
            r.offset_3 == (addr >> 32) & 0xffffffff,
            r.selector == KERNEL_CODE_SEGMENT,
            r.ist == 0,
            r.type_attributes == 0x8f,
            r.zero == 0,
    {
        Self::new(addr, 0x8f, 0)
    }
}

/// The three offset fields of a gate join back to the address itself.
pub proof fn lemma_gate_addr_roundtrip(addr: u64)
    ensures
        (addr & 0xffff) | (((addr >> 16) & 0xffff) << 16) | (((addr >> 32) & 0xffffffff) << 32)
            == addr,
{
    let a = addr;
    assert((a & 0xffff) | (((a >> 16u64) & 0xffff) << 16u64) | (((a >> 32u64) & 0xffffffff)
        << 32u64) == a) by (bit_vector);
}

/// The 64-bit task state segment image; `iopb == 104` means no I/O bitmap.
#[derive(Debug, Clone, Copy, PartialEq, Eq, Structural)]
pub struct TaskStateSegment {
    pub resv1: u32,
    pub rsp0: u64,
    pub rsp1: u64,
    pub rsp2: u64,
    pub resv2: u64,
    pub ist1: u64,
    pub ist2: u64,
    pub ist3: u64,
    pub ist4: u64,
    pub ist5: u64,
    pub ist6: u64,
    pub ist7: u64,
    pub resv3: u64,
    pub resv4: u16,
    pub iopb: u16,
}

impl TaskStateSegment {
    pub fn new_zero() -> (r: Self)
        ensures
            r.rsp0 == 0 && r.rsp1 == 0 && r.rsp2 == 0 && r.iopb == 0,
            r.ist1 == 0 && r.ist2 == 0 && r.ist3 == 0 && r.ist4 == 0,
            r.ist5 == 0 && r.ist6 == 0 && r.ist7 == 0,
            r.resv1 == 0 && r.resv2 == 0 && r.resv3 == 0 && r.resv4 == 0,
    {
        TaskStateSegment {
            resv1: 0,
            resv2: 0,
            resv3: 0,
            resv4: 0,
            rsp0: 0,
            rsp1: 0,
            rsp2: 0,
            iopb: 0,
            ist1: 0,
            ist2: 0,
            ist3: 0,
            ist4: 0,
            ist5: 0,
            ist6: 0,
            ist7: 0,
        }
    }
}

/// The in-memory TSS is 104 bytes; its descriptor limit is one less.
pub const TSS_LIMIT: u32 = 103;

/// An 8-byte segment descriptor.
#[derive(Debug, Clone, Copy, PartialEq, Eq, Structural)]
pub struct GlobalDescriptor {
    pub limit_1: u16,
    pub base_1: u16,
    pub base_2: u8,
    pub access: u8,
    pub flags: u8,
    pub base_3: u8,
}

impl Default for GlobalDescriptor {
    fn default() -> (r: Self)
        ensures
            r == GlobalDescriptor::spec_zero(),
    {
        GlobalDescriptor { limit_1: 0, base_1: 0, base_2: 0, base_3: 0, access: 0, flags: 0 }
    }
}

impl GlobalDescriptor {
    pub open spec fn spec_zero() -> GlobalDescriptor {
        GlobalDescriptor { limit_1: 0, base_1: 0, base_2: 0, base_3: 0, access: 0, flags: 0 }
    }

    pub fn new_zero() -> (r: Self)
        ensures
            r == GlobalDescriptor::spec_zero(),
    {
        GlobalDescriptor { limit_1: 0, base_1: 0, base_2: 0, base_3: 0, access: 0, flags: 0 }
    }

    /// Splits base and limit over the descriptor fields; the flags nibble
    /// shares its byte with the top of the limit.
    pub fn new(base: u64, limit: u32, access: u8, flags: u8) -> (r: Self)
        ensures
            r.limit_1 == limit & 0xffff,
            r.base_1 == base & 0xffff,
            r.base_2 == (base >> 16) & 0xff,
            r.access == access,
            r.flags == ((flags << 4) | ((limit >> 16) & 0x0f) as u8),
            r.base_3 == (base >> 24) & 0xff,
    {
        proof {
            let b = base;
            let l = limit;
            assert(l & 0xffffu32 <= 0xffff && b & 0xffffu64 <= 0xffff && (b >> 16u64) & 0xffu64
                <= 0xff && (b >> 24u64) & 0xffu64 <= 0xff && (l >> 16u32) & 0x0fu32
                <= 0x0f) by (bit_vector);
        }
        GlobalDescriptor {
            limit_1: (limit & 0xffff) as u16,
            base_1: (base & 0xffff) as u16,
            base_2: ((base >> 16) & 0xff) as u8,
            access,
            flags: (flags << 4) | ((limit >> 16) & 0x0f) as u8,
            base_3: ((base >> 24) & 0xff) as u8,
        }
    }

    /// The TSS takes two consecutive slots: a normal descriptor for the low
    /// 32 address bits, and a second slot whose first four bytes hold the
    /// high 32 bits (little endian: the low half lands in `limit_1`).
    pub fn new_tss(base: u64, access: u8, flags: u8) -> (r: (Self, Self))
        ensures
            r.0.limit_1 == TSS_LIMIT & 0xffff,
            r.0.base_1 == base & 0xffff,
            r.0.base_2 == (base >> 16) & 0xff,
            r.0.access == access,
            r.0.flags == ((flags << 4) | ((TSS_LIMIT >> 16) & 0x0f) as u8),
            r.0.base_3 == (base >> 24) & 0xff,
            r.1.limit_1 == (base >> 32) & 0xffff,
            r.1.base_1 == (base >> 48) & 0xffff,
            r.1.base_2 == 0 && r.1.access == 0 && r.1.flags == 0 && r.1.base_3 == 0,
    {
        let lower = Self::new(base, TSS_LIMIT, access, flags);
        proof {
            let b = base;
            assert((b >> 32u64) & 0xffffu64 <= 0xffff && (b >> 48u64) & 0xffffu64
                <= 0xffff) by (bit_vector);
        }
        let upper = GlobalDescriptor {
            limit_1: ((base >> 32) & 0xffff) as u16,
            base_1: ((base >> 48) & 0xffff) as u16,
            base_2: 0,
            base_3: 0,
            access: 0,
            flags: 0,
        };
        (lower, upper)
    }
}

/// The bytes of one ISR thunk: `push <irq>`, a `jmp rel32` whose offset is
/// patched later, and NOP padding to 16 bytes.
pub open spec fn spec_thunk(irq: u8, rel: Seq<u8>) -> Seq<u8> {
    seq![0x6au8, irq, 0xe9u8, rel[0], rel[1], rel[2], rel[3], 0x90u8, 0x90u8, 0x90u8, 0x90u8, 0x90u8, 0x90u8, 0x90u8, 0x90u8, 0x90u8]
}

/// The little-endian bytes of a 32-bit value.
pub open spec fn le32(d: u32) -> Seq<u8> {
    seq![(d & 0xff) as u8, ((d >> 8) & 0xff) as u8, ((d >> 16) & 0xff) as u8, ((d >> 24) & 0xff) as u8]
}

/// The CPU manager (zero sized); the built tables are returned to the shim,
/// which loads them.
pub struct Manager;

impl Manager {
    /// Builds one 16-byte vector thunk that pushes `irq` and jumps `rel`
    /// bytes past its own end.
    pub fn build_thunk(irq: u8, rel: u32) -> (r: Vec<u8>)
        ensures
            r@ == spec_thunk(irq, le32(rel)),
    {
        let mut v: Vec<u8> = Vec::new();
        v.push(0x6a);
        v.push(irq);
        v.push(0xe9);
        proof {
            let d = rel;
            assert(d & 0xffu32 <= 0xff && (d >> 8u32) & 0xffu32 <= 0xff && (d >> 16u32) & 0xffu32
                <= 0xff && (d >> 24u32) & 0xffu32 <= 0xff) by (bit_vector);
        }
        v.push((rel & 0xff) as u8);
        v.push(((rel >> 8) & 0xff) as u8);
        v.push(((rel >> 16) & 0xff) as u8);
        v.push(((rel >> 24) & 0xff) as u8);
        proof {
            assert(v@ =~= spec_thunk(irq, le32(rel)).take(7));
        }
        let mut i: usize = 0;
        while i < 9
            invariant
                i <= 9,
                v@.len() == 7 + i,
                v@.take(7) == spec_thunk(irq, le32(rel)).take(7),
                forall|j: int| 7 <= j < v@.len() ==> v@[j] == 0x90u8,
            decreases 9 - i,
        {
            v.push(0x90);
            i = i + 1;
        }
        proof {
            let sp = spec_thunk(irq, le32(rel));
            assert(v@[0] == sp[0] && v@[1] == sp[1] && v@[2] == sp[2]) by {
                assert(v@[0] == v@.take(7)[0] && v@[1] == v@.take(7)[1] && v@[2] == v@.take(
                    7,
                )[2]);
            }
            assert(v@[3] == sp[3] && v@[4] == sp[4] && v@[5] == sp[5] && v@[6] == sp[6]) by {
                assert(v@[3] == v@.take(7)[3] && v@[4] == v@.take(7)[4] && v@[5] == v@.take(
                    7,
                )[5] && v@[6] == v@.take(7)[6]);
            }
            assert(v@ =~= sp);
        }
        v
    }

    /// Repoints the vector `irq` at `addr`: rewrites the `rel32` of its thunk
    /// so the jump lands on the handler. The offset is relative to the byte
    /// after the jump, seven bytes into the thunk. An offset that does not
    /// fit 32 bits is a kernel fault. The shim flushes the TLB entry of the
    /// patched page afterwards.
    pub fn register_interrupt(thunks: &mut Vec<Vec<u8>>, table_base: u64, addr: u64, irq: usize)
        requires
            irq < old(thunks)@.len(),
            old(thunks)@[irq as int]@.len() == 16,
            table_base + 16 * irq + 7 <= addr,
            addr - (table_base + 16 * irq + 7) <= u32::MAX,
        ensures
            final(thunks)@.len() == old(thunks)@.len(),
            forall|i: int| 0 <= i < old(thunks)@.len() && i != irq ==> final(thunks)@[i] == old(
                thunks,
            )@[i],
            ({
                let rel = le32((addr - (table_base + 16 * irq + 7)) as u32);
                let t = final(thunks)@[irq as int]@;
                &&& t.len() == 16
                &&& t[3] == rel[0]
                &&& t[4] == rel[1]
                &&& t[5] == rel[2]
                &&& t[6] == rel[3]
                &&& forall|j: int| 0 <= j < 16 && !(3 <= j < 7) ==> t[j] == old(
                    thunks,
                )@[irq as int]@[j]
            }),
    {
        let base_rip = table_base + 16 * (irq as u64) + 7;
        let rel = (addr - base_rip) as u32;
        proof {
            let d = rel;
            assert(d & 0xffu32 <= 0xff && (d >> 8u32) & 0xffu32 <= 0xff && (d >> 16u32) & 0xffu32
                <= 0xff && (d >> 24u32) & 0xffu32 <= 0xff) by (bit_vector);
        }
        let t = thunk_at_mut(thunks, irq);
        t.set(3, (rel & 0xff) as u8);
        t.set(4, ((rel >> 8) & 0xff) as u8);
        t.set(5, ((rel >> 16) & 0xff) as u8);
        t.set(6, ((rel >> 24) & 0xff) as u8);
    }
}

/// Mutable access to one thunk.
fn thunk_at_mut(v: &mut Vec<Vec<u8>>, i: usize) -> (r: &mut Vec<u8>)
    requires
        i < old(v)@.len(),
    ensures
        *r == old(v)@[i as int],
        final(v)@ == old(v)@.update(i as int, *final(r)),
{
    &mut v[i]
}

impl Manager {
    /// Builds the fixed descriptor tables: the seven-entry GDT (null, kernel
    /// code and data, user code and data, and the two TSS slots for
    /// `tss_base`), the 256 interrupt gates pointing at the 16-byte thunks
    /// from `thunk_base` on, and the thunks themselves, each patched to jump
    /// to the shared fallback handler. The shim loads the tables, sets the
    /// task register, and points `rsp0` at the kernel stack.
    pub fn init(tss_base: u64, thunk_base: u64, fallback_handler: u64) -> (r: (
        Vec<GlobalDescriptor>,
        Vec<InterruptDescriptor>,
        Vec<Vec<u8>>,
    ))
        requires
            thunk_base % 16 == 0,
            thunk_base + 256 * 16 + 7 <= fallback_handler,
            fallback_handler - thunk_base <= u32::MAX,
        ensures
            ({
                let (gdt, idt, thunks) = r;
                &&& gdt@.len() == 7
                &&& gdt@[0] == GlobalDescriptor::spec_zero()
                &&& gdt@[1] == (GlobalDescriptor {
                    limit_1: 0xffff,
                    base_1: 0,
                    base_2: 0,
                    access: 0x9a,
                    flags: 0xaf,
                    base_3: 0,
                })
                &&& gdt@[2] == (GlobalDescriptor {
                    limit_1: 0xffff,
                    base_1: 0,
                    base_2: 0,
                    access: 0x92,
                    flags: 0xcf,
                    base_3: 0,
                })
                &&& gdt@[3] == (GlobalDescriptor {
                    limit_1: 0xffff,
                    base_1: 0,
                    base_2: 0,
                    access: 0xfa,
                    flags: 0xaf,
                    base_3: 0,
                })
                &&& gdt@[4] == (GlobalDescriptor {
                    limit_1: 0xffff,
                    base_1: 0,
                    base_2: 0,
                    access: 0xf2,
                    flags: 0xcf,
                    base_3: 0,
                })
                &&& gdt@[5].base_1 == tss_base & 0xffff && gdt@[5].access == 0x89
                &&& gdt@[6].limit_1 == (tss_base >> 32) & 0xffff
                &&& idt@.len() == 256
                &&& (forall|i: int| 0 <= i < 256 ==> (#[trigger] idt@[i]).offset_1 == ((
                thunk_base + i * 16) as u64) & 0xffff && idt@[i].type_attributes == 0x8e
                    && idt@[i].selector == KERNEL_CODE_SEGMENT)
                &&& thunks@.len() == 256
                &&& (forall|i: int| 0 <= i < 256 ==> (#[trigger] thunks@[i])@ == spec_thunk(
                    i as u8,
                    le32((fallback_handler - (thunk_base + i * 16 + 7)) as u32),
                ))
            }),
    {
        let mut gdt: Vec<GlobalDescriptor> = Vec::new();
        gdt.push(GlobalDescriptor::new_zero());
        gdt.push(GlobalDescriptor::new(0, 0xfffff, 0x9a, 0xa));
        gdt.push(GlobalDescriptor::new(0, 0xfffff, 0x92, 0xc));
        gdt.push(GlobalDescriptor::new(0, 0xfffff, 0xfa, 0xa));
        gdt.push(GlobalDescriptor::new(0, 0xfffff, 0xf2, 0xc));
        let (tss_low, tss_high) = GlobalDescriptor::new_tss(tss_base, 0x89, 0x0);
        gdt.push(tss_low);
        gdt.push(tss_high);
        proof {
            assert(0xfffffu32 & 0xffffu32 == 0xffffu32 && (0xfffffu32 >> 16u32) & 0x0fu32
                == 0x0fu32) by (bit_vector);
            assert(0u64 & 0xffffu64 == 0u64 && (0u64 >> 16u64) & 0xffu64 == 0u64 && (0u64
                >> 24u64) & 0xffu64 == 0u64) by (bit_vector);
            assert(((0xau8) << 4u8) | 0x0fu8 == 0xafu8) by (bit_vector);
            assert(((0xcu8) << 4u8) | 0x0fu8 == 0xcfu8) by (bit_vector);
        }
        let mut idt: Vec<InterruptDescriptor> = Vec::new();
        let mut thunks: Vec<Vec<u8>> = Vec::new();
        let mut i: usize = 0;
        while i < 256
            invariant
                i <= 256,
                thunk_base % 16 == 0,
                thunk_base + 256 * 16 + 7 <= fallback_handler,
                fallback_handler - thunk_base <= u32::MAX,
                idt@.len() == i,
                thunks@.len() == i,
                forall|k: int| 0 <= k < i ==> (#[trigger] idt@[k]).offset_1 == ((
                thunk_base + k * 16) as u64) & 0xffff && idt@[k].type_attributes == 0x8e
                    && idt@[k].selector == KERNEL_CODE_SEGMENT,
                forall|k: int| 0 <= k < i ==> (#[trigger] thunks@[k])@ == spec_thunk(
                    k as u8,
                    le32((fallback_handler - (thunk_base + k * 16 + 7)) as u32),
                ),
            decreases 256 - i,
        {
            let addr = thunk_base + (i as u64) * 16;
            proof {
                vstd::arithmetic::div_mod::lemma_mod_multiples_vanish(
                    i as int,
                    thunk_base as int,
                    16,
                );
                assert(addr % 16 == 0);
            }
            idt.push(InterruptDescriptor::new_interrupt_gate(addr));
            let rel = ((fallback_handler - addr) - 7) as u32;
            let t = Self::build_thunk(i as u8, rel);
            thunks.push(t);
            proof {
                assert(rel == (fallback_handler - (thunk_base + i * 16 + 7)) as u32);
                assert(forall|k: int| 0 <= k < i ==> thunks@[k] == thunks@.drop_last()[k]);
                assert(forall|k: int| 0 <= k < i ==> idt@[k] == idt@.drop_last()[k]);
            }
            i = i + 1;
        }
        (gdt, idt, thunks)
    }
}

} // verus!
