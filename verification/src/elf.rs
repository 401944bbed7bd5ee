//! A 64-bit little-endian ELF reader: exactly the fields the loaders walk,
//! read at their architectural offsets.

use vstd::prelude::*;

verus! {

/// Loadable segment.
pub const PT_LOAD: u32 = 1;

/// Dynamic-linking segment; the kernel skips it.
pub const PT_DYNAMIC: u32 = 2;

/// Executable-segment flag bit.
pub const PF_X: u32 = 1;

/// A little-endian 16-bit field.
pub open spec fn le16(b: Seq<u8>, off: int) -> int {
    b[off] + b[off + 1] * 0x100
}

/// A little-endian 32-bit field.
pub open spec fn le32(b: Seq<u8>, off: int) -> int {
    b[off] + b[off + 1] * 0x100 + b[off + 2] * 0x10000 + b[off + 3] * 0x1000000
}

/// A little-endian 64-bit field.
pub open spec fn le64(b: Seq<u8>, off: int) -> int {
    le32(b, off) + le32(b, off + 4) * 0x100000000
}

/// A 64-bit little-endian ELF whose whole program-header table lies inside
/// the file, with the standard 56-byte entries.
pub open spec fn valid_elf64(b: Seq<u8>) -> bool {
    &&& b.len() >= 64
    &&& b[0] == 0x7fu8 && b[1] == 0x45u8 && b[2] == 0x4cu8 && b[3] == 0x46u8
    &&& b[4] == 2u8
    &&& b[5] == 1u8
    &&& le16(b, 54) == 56
    &&& le64(b, 32) <= b.len()
    &&& le16(b, 56) * 56 <= b.len() - le64(b, 32)
}

pub open spec fn spec_entry_point(b: Seq<u8>) -> int {
    le64(b, 24)
}

pub open spec fn spec_ph_offset(b: Seq<u8>) -> int {
    le64(b, 32)
}

pub open spec fn spec_ph_count(b: Seq<u8>) -> int {
    le16(b, 56)
}

/// Base offset of the `i`-th program header.
pub open spec fn ph_base(b: Seq<u8>, i: int) -> int {
    spec_ph_offset(b) + i * 56
}

pub open spec fn spec_ph_type(b: Seq<u8>, i: int) -> int {
    le32(b, ph_base(b, i))
}

pub open spec fn spec_ph_flags(b: Seq<u8>, i: int) -> int {
    le32(b, ph_base(b, i) + 4)
}

pub open spec fn spec_ph_file_offset(b: Seq<u8>, i: int) -> int {
    le64(b, ph_base(b, i) + 8)
}

pub open spec fn spec_ph_vaddr(b: Seq<u8>, i: int) -> int {
    le64(b, ph_base(b, i) + 16)
}

pub open spec fn spec_ph_paddr(b: Seq<u8>, i: int) -> int {
    le64(b, ph_base(b, i) + 24)
}

pub open spec fn spec_ph_file_size(b: Seq<u8>, i: int) -> int {
    le64(b, ph_base(b, i) + 32)
}

pub open spec fn spec_ph_mem_size(b: Seq<u8>, i: int) -> int {
    le64(b, ph_base(b, i) + 40)
}

pub open spec fn spec_ph_align(b: Seq<u8>, i: int) -> int {
    le64(b, ph_base(b, i) + 48)
}

/// One program header, as plain values.
#[derive(Debug, Clone, Copy, PartialEq, Eq, Structural)]
pub struct ProgramHeader {
    pub p_type: u32,
    pub flags: u32,
    pub offset: u64,
    pub virtual_addr: u64,
    pub physical_addr: u64,
    pub file_size: u64,
    pub mem_size: u64,
    pub align: u64,
}

fn read_u16(b: &[u8], off: usize) -> (r: u64)
    requires
        off + 2 <= b@.len(),
    ensures
        r == le16(b@, off as int),
        r <= 0xffff,
{
    (b[off] as u64) + (b[off + 1] as u64) * 0x100
}

fn read_u32(b: &[u8], off: usize) -> (r: u64)
    requires
        off + 4 <= b@.len(),
    ensures
        r == le32(b@, off as int),
        r <= 0xffffffff,
{
    (b[off] as u64) + (b[off + 1] as u64) * 0x100 + (b[off + 2] as u64) * 0x10000 + (b[off
        + 3] as u64) * 0x1000000
}

fn read_u64(b: &[u8], off: usize) -> (r: u64)
    requires
        off + 8 <= b@.len(),
    ensures
        r == le64(b@, off as int),
{
    let n = b.len();
    proof {
        assert(off + 8 <= n);
    }
    let lo = read_u32(b, off);
    let hi = read_u32(b, off + 4);
    lo + hi * 0x100000000
}

/// Whether the bytes are an ELF this kernel can load.
pub fn is_valid(bytes: &[u8]) -> (r: bool)
    ensures
        r == valid_elf64(bytes@),
{
    if bytes.len() < 64 {
        return false;
    }
    if !(bytes[0] == 0x7f && bytes[1] == 0x45 && bytes[2] == 0x4c && bytes[3] == 0x46) {
        return false;
    }
    if bytes[4] != 2 || bytes[5] != 1 {
        return false;
    }
    if read_u16(bytes, 54) != 56 {
        return false;
    }
    let ph_off = read_u64(bytes, 32);
    if ph_off > bytes.len() as u64 {
        return false;
    }
    let count = read_u16(bytes, 56);
    count * 56 <= bytes.len() as u64 - ph_off
}

/// The image's entry point.
pub fn entry_point(bytes: &[u8]) -> (r: u64)
    requires
        valid_elf64(bytes@),
    ensures
        r == spec_entry_point(bytes@),
{
    read_u64(bytes, 24)
}

/// How many program headers the image carries.
pub fn ph_count(bytes: &[u8]) -> (r: usize)
    requires
        valid_elf64(bytes@),
    ensures
        r == spec_ph_count(bytes@),
{
    read_u16(bytes, 56) as usize
}

/// The `i`-th program header, decoded field by field.
pub fn program_header(bytes: &[u8], i: usize) -> (r: ProgramHeader)
    requires
        valid_elf64(bytes@),
        i < spec_ph_count(bytes@),
    ensures
        r.p_type == spec_ph_type(bytes@, i as int),
        r.flags == spec_ph_flags(bytes@, i as int),
        r.offset == spec_ph_file_offset(bytes@, i as int),
        r.virtual_addr == spec_ph_vaddr(bytes@, i as int),
        r.physical_addr == spec_ph_paddr(bytes@, i as int),
        r.file_size == spec_ph_file_size(bytes@, i as int),
        r.mem_size == spec_ph_mem_size(bytes@, i as int),
        r.align == spec_ph_align(bytes@, i as int),
{
    let n = bytes.len();
    let ph_off = read_u64(bytes, 32);
    proof {
        assert((i + 1) * 56 <= spec_ph_count(bytes@) * 56) by (nonlinear_arith)
            requires
                i < spec_ph_count(bytes@),
        ;
        assert(i * 56 + 56 == (i + 1) * 56) by (nonlinear_arith);
        assert(ph_off + i * 56 + 56 <= n);
        assert(spec_ph_count(bytes@) <= 0xffff);
    }
    let base = (ph_off + (i as u64) * 56) as usize;
    proof {
        assert(base == ph_base(bytes@, i as int));
        assert(base + 56 <= n);
    }
    ProgramHeader {
        p_type: read_u32(bytes, base) as u32,
        flags: read_u32(bytes, base + 4) as u32,
        offset: read_u64(bytes, base + 8),
        virtual_addr: read_u64(bytes, base + 16),
        physical_addr: read_u64(bytes, base + 24),
        file_size: read_u64(bytes, base + 32),
        mem_size: read_u64(bytes, base + 40),
        align: read_u64(bytes, base + 48),
    }
}

} // verus!
