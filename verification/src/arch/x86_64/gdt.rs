//! Segment descriptors: the fixed entries of the descriptor table, the
//! selectors that name them, and the encoding of the task-state descriptor.

use vstd::prelude::*;

verus! {

pub const KERNEL_CODE_DESCRIPTOR: u16 = 0x08;

pub const KERNEL_DATA_DESCRIPTOR: u16 = 0x10;

/// The selector that the fast system-call return counts the user selectors
/// from.
pub const BEFORE_USER_DESCRIPTOR: u16 = 0x18;

pub const USER_DATA_DESCRIPTOR: u16 = 0x20;

pub const USER_CODE_DESCRIPTOR: u16 = 0x28;

pub const TSS_DESCRIPTOR: u16 = 0x30;

/// The requested privilege level of a selector used from user mode.
pub const USER_PRIVILEGE: u16 = 3;

/// The number of entries of the descriptor table.
pub const GDT_ENTRIES: usize = 8;

/// One 64-bit entry of the descriptor table.
#[derive(Clone, Copy, Debug, PartialEq, Eq, Structural)]
pub struct GdtEntry(pub u64);

pub const GDT_NULL: u64 = 0;

pub const GDT_KERNEL_CODE: u64 = 0x00AF_9A00_0000_FFFF;

pub const GDT_KERNEL_DATA: u64 = 0x00CF_9200_0000_FFFF;

pub const GDT_USER_CODE: u64 = 0x00AF_FA00_0000_FFFF;

pub const GDT_USER_DATA: u64 = 0x00CF_F200_0000_FFFF;

/// The type and presence bits of an available 64-bit task-state segment.
pub const TSS_ACCESS: u64 = 0x0000_8900_0000_0000;

/// The size of the task-state segment in bytes.
pub const TSS_SIZE: u64 = 104;

/// The task-state segment: the stack pointers that the processor loads on a
/// change of privilege, and the interrupt stack table.
#[derive(Clone, Copy, Debug)]
pub struct TssEntry {
    pub rsp0: u64,
    pub rsp1: u64,
    pub rsp2: u64,
    pub ists: [u64; 7],
    pub io_map_base: u16,
}

impl TssEntry {
    /// A segment whose only stack is `kernel_stack`, for entries into ring
    /// zero, and which grants no I/O port.
    pub fn new(kernel_stack: u64) -> (r: Self)
        ensures
            r.rsp0 == kernel_stack,
            r.rsp1 == 0,
            r.rsp2 == 0,
            forall|i: int| 0 <= i < 7 ==> r.ists[i] == 0,
            r.io_map_base == 0xffff,
    {
        Self { rsp0: kernel_stack, rsp1: 0, rsp2: 0, ists: [0;7], io_map_base: 0xffff }
    }
}

/// The low word of the descriptor of a task-state segment at `base` with the
/// limit `limit`: the limit's low 16 bits, the base's low 24 bits above
/// them, and the access bits.
pub open spec fn tss_low(base: u64, limit: u64) -> u64 {
    (limit & 0xffff) | ((base & 0xff_ffff) << 16) | 0x0000_8900_0000_0000
}

/// The high word of the descriptor: bits 32 and up of the base.
pub open spec fn tss_high(base: u64) -> u64 {
    base >> 32
}

/// The two entries that describe the task-state segment at `base`.
pub fn tss_descriptor(base: u64, limit: u64) -> (r: (GdtEntry, GdtEntry))
    ensures
        r.0.0 == tss_low(base, limit),
        r.1.0 == tss_high(base),
{
    (GdtEntry((limit & 0xffff) | ((base & 0xff_ffff) << 16) | TSS_ACCESS), GdtEntry(base >> 32))
}

/// The descriptor table for a task-state segment at `tss_base`: the null
/// entry, kernel code and data, a null entry, user data and code, and the
/// two entries of the task-state segment.
pub fn descriptor_table(tss_base: u64) -> (r: [GdtEntry; 8])
    ensures
        r[0].0 == GDT_NULL,
        r[1].0 == GDT_KERNEL_CODE,
        r[2].0 == GDT_KERNEL_DATA,
        r[3].0 == GDT_NULL,
        r[4].0 == GDT_USER_DATA,
        r[5].0 == GDT_USER_CODE,
        r[6].0 == tss_low(tss_base, (TSS_SIZE - 1) as u64),
        r[7].0 == tss_high(tss_base),
{
    let tss = tss_descriptor(tss_base, TSS_SIZE - 1);
    [
        GdtEntry(GDT_NULL),
        GdtEntry(GDT_KERNEL_CODE),
        GdtEntry(GDT_KERNEL_DATA),
        GdtEntry(GDT_NULL),
        GdtEntry(GDT_USER_DATA),
        GdtEntry(GDT_USER_CODE),
        tss.0,
        tss.1,
    ]
}

/// The limit of the descriptor table: its size in bytes less one.
pub fn descriptor_table_limit() -> (r: u16)
    ensures
        r == 63,
{
    (GDT_ENTRIES * 8 - 1) as u16
}

} // verus!
