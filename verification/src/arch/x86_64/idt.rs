//! The interrupt descriptor table: the encoding of its gates, the vectors
//! that the kernel serves, and what a fault handler reports.

use vstd::prelude::*;

use super::gdt::KERNEL_CODE_DESCRIPTOR;
use super::task::InterruptionStackFrameWithErrorCode;

verus! {

pub const BREAKPOINT_VECTOR: usize = 3;

pub const DOUBLE_FAULT_VECTOR: usize = 8;

pub const GENERAL_PROTECTION_VECTOR: usize = 13;

pub const PAGE_FAULT_VECTOR: usize = 14;

/// The vector of the timer: the first line of the first interrupt
/// controller.
pub const TIMER_VECTOR: usize = 32;

/// The number of gates of the table: 32 for the processor's own vectors and
/// 16 for the lines of the two interrupt controllers.
pub const IDT_ENTRIES: usize = 48;

/// How a gate treats the interrupt-enable flag on entry.
#[derive(Clone, Copy, Debug, PartialEq, Eq, Structural)]
pub enum GateType {
    /// Interrupts are disabled on entry.
    InterruptGate,
    /// The flag is left alone.
    TrapGate,
}

impl GateType {
    pub open spec fn spec_code(self) -> u8 {
        match self {
            GateType::InterruptGate => 14,
            GateType::TrapGate => 15,
        }
    }

    /// The four type bits of a gate of this kind.
    #[verifier::when_used_as_spec(spec_code)]
    pub fn code(self) -> (r: u8)
        ensures
            r == self.spec_code(),
    {
        match self {
            GateType::InterruptGate => 14,
            GateType::TrapGate => 15,
        }
    }
}

/// The least privileged ring that may raise a gate by an instruction.
#[derive(Clone, Copy, Debug, PartialEq, Eq, Structural)]
pub enum PrivilegeLevel {
    Ring0,
    Ring1,
    Ring2,
    Ring3,
}

impl PrivilegeLevel {
    pub open spec fn spec_level(self) -> u8 {
        match self {
            PrivilegeLevel::Ring0 => 0,
            PrivilegeLevel::Ring1 => 1,
            PrivilegeLevel::Ring2 => 2,
            PrivilegeLevel::Ring3 => 3,
        }
    }

    #[verifier::when_used_as_spec(spec_level)]
    pub fn level(self) -> (r: u8)
        ensures
            r == self.spec_level(),
    {
        match self {
            PrivilegeLevel::Ring0 => 0,
            PrivilegeLevel::Ring1 => 1,
            PrivilegeLevel::Ring2 => 2,
            PrivilegeLevel::Ring3 => 3,
        }
    }
}

/// One gate of the table.
#[derive(Clone, Copy, Debug, PartialEq, Eq, Structural)]
pub struct IdtEntry {
    pub offset_low: u16,
    pub segment_selector: u16,
    pub options_0: u8,
    pub options_1: u8,
    pub offset_middle: u16,
    pub offset_high: u32,
    pub reserved: u32,
}

proof fn lemma_offset_parts(offset: u64)
    by (bit_vector)
    ensures
        offset & 0xffff == offset % 0x1_0000,
        (offset & 0xffff_0000) >> 16 == (offset / 0x1_0000) % 0x1_0000,
        (offset & 0xffff_ffff_0000_0000) >> 32 == offset / 0x1_0000_0000,
        offset == (offset % 0x1_0000) + 0x1_0000 * ((offset / 0x1_0000) % 0x1_0000) + 0x1_0000_0000
            * (offset / 0x1_0000_0000),
{
}

proof fn lemma_options(code: u8, level: u8, present: u8)
    by (bit_vector)
    requires
        code < 16,
        level < 4,
        present < 2,
    ensures
        code | (level << 5) | (present << 7) == code + 32 * level + 128 * present,
{
}

impl IdtEntry {
    /// The address of the handler that the entry leads to.
    pub open spec fn offset(self) -> int {
        self.offset_low + 0x1_0000 * self.offset_middle + 0x1_0000_0000 * self.offset_high
    }

    /// Whether the entry is in use.
    pub open spec fn present(self) -> bool {
        self.options_1 >= 128
    }

    /// A gate of type `ty` to the handler at `offset` in the segment
    /// `segment_selector`, which ring `dpl` and the rings below it may
    /// raise.
    pub fn new(
        offset: u64,
        segment_selector: u16,
        ty: GateType,
        dpl: PrivilegeLevel,
        present: bool,
    ) -> (r: Self)
        ensures
            r.offset() == offset,
            r.segment_selector == segment_selector,
            r.options_0 == 0,
            r.options_1 == ty.code() + 32 * dpl.level() + if present {
                128int
            } else {
                0
            },
            r.present() == present,
            r.reserved == 0,
    {
        let bit: u8 = if present {
            1
        } else {
            0
        };
        proof {
            lemma_offset_parts(offset);
            lemma_options(ty.code(), dpl.level(), bit);
        }
        Self {
            offset_low: (offset & 0xffff) as u16,
            segment_selector,
            options_0: 0,
            options_1: ty.code() | (dpl.level() << 5) | (bit << 7),
            offset_middle: ((offset & 0xffff_0000) >> 16) as u16,
            offset_high: ((offset & 0xffff_ffff_0000_0000) >> 32) as u32,
            reserved: 0,
        }
    }

    /// An entry that is not in use.
    pub fn default() -> (r: Self)
        ensures
            !r.present(),
            r.offset() == 0,
            r.segment_selector == 0,
            r.options_0 == 0,
            r.options_1 == 0,
            r.reserved == 0,
    {
        Self {
            offset_low: 0,
            segment_selector: 0,
            options_0: 0,
            options_1: 0,
            offset_middle: 0,
            offset_high: 0,
            reserved: 0,
        }
    }
}

/// The addresses of the handlers that the kernel installs.
#[derive(Clone, Copy, Debug)]
pub struct Handlers {
    pub breakpoint: u64,
    pub double_fault: u64,
    pub general_protection: u64,
    pub page_fault: u64,
    pub timer: u64,
}

/// The interrupt descriptor table.
pub struct Idt {
    pub entries: [IdtEntry; 48],
}

impl Idt {
    /// The handler that serves vector `vector`, if the kernel serves it.
    pub open spec fn handler_of(handlers: Handlers, vector: int) -> Option<u64> {
        if vector == BREAKPOINT_VECTOR {
            Some(handlers.breakpoint)
        } else if vector == DOUBLE_FAULT_VECTOR {
            Some(handlers.double_fault)
        } else if vector == GENERAL_PROTECTION_VECTOR {
            Some(handlers.general_protection)
        } else if vector == PAGE_FAULT_VECTOR {
            Some(handlers.page_fault)
        } else if vector == TIMER_VECTOR {
            Some(handlers.timer)
        } else {
            None
        }
    }

    /// An entry for a handler of the kernel: a trap gate in the kernel's
    /// code segment that only ring 0 may raise.
    pub open spec fn kernel_gate(e: IdtEntry, handler: u64) -> bool {
        &&& e.present()
        &&& e.offset() == handler
        &&& e.segment_selector == KERNEL_CODE_DESCRIPTOR
        &&& e.options_0 == 0
        &&& e.options_1 == 15 + 128
        &&& e.reserved == 0
    }

    /// The table with no gate in use.
    pub fn default() -> (r: Self)
        ensures
            forall|i: int| 0 <= i < 48 ==> !(#[trigger] r.entries[i]).present(),
    {
        Self { entries: [IdtEntry::default();48] }
    }

    /// The table of the kernel: gates for the breakpoint, the double
    /// fault, the general protection fault, the page fault and the timer,
    /// and no other gate in use.
    pub fn with_handlers(handlers: &Handlers) -> (r: Self)
        ensures
            forall|i: int|
                0 <= i < 48 ==> match Self::handler_of(*handlers, i) {
                    Some(h) => Self::kernel_gate(#[trigger] r.entries[i], h),
                    None => !r.entries[i].present(),
                },
    {
        let mut idt = Self::default();
        idt.entries[BREAKPOINT_VECTOR] = Self::gate(handlers.breakpoint);
        idt.entries[DOUBLE_FAULT_VECTOR] = Self::gate(handlers.double_fault);
        idt.entries[PAGE_FAULT_VECTOR] = Self::gate(handlers.page_fault);
        idt.entries[GENERAL_PROTECTION_VECTOR] = Self::gate(handlers.general_protection);
        idt.entries[TIMER_VECTOR] = Self::gate(handlers.timer);
        idt
    }

    fn gate(handler: u64) -> (r: IdtEntry)
        ensures
            Self::kernel_gate(r, handler),
    {
        IdtEntry::new(
            handler,
            KERNEL_CODE_DESCRIPTOR,
            GateType::TrapGate,
            PrivilegeLevel::Ring0,
            true,
        )
    }

    /// The limit of the table: its size in bytes less one.
    pub fn limit() -> (r: u16)
        ensures
            r == 48 * 16 - 1,
    {
        (IDT_ENTRIES * 16 - 1) as u16
    }
}

/// What kind of access a page fault stopped.
#[derive(Clone, Copy, Debug, PartialEq, Eq, Structural)]
pub enum FaultAccess {
    Read,
    Write,
    Execute,
}

/// What the page-fault handler reports before the kernel halts.
#[derive(Clone, Copy, Debug, PartialEq, Eq, Structural)]
pub struct PageFaultReport {
    /// The address whose access faulted.
    pub fault_addr: u64,
    /// The instruction that faulted.
    pub rip: u64,
    /// The kind of access.
    pub access: FaultAccess,
    /// Whether the access came from user mode.
    pub from_user: bool,
    /// Whether the page was present, so that a protection stopped the
    /// access.
    pub present: bool,
}

/// The kind of access that the error code of a page fault names: an
/// instruction fetch where bit 4 is set, else a write where bit 1 is, else a
/// read.
pub open spec fn fault_access(error_code: u64) -> FaultAccess {
    if (error_code / 16) % 2 == 1 {
        FaultAccess::Execute
    } else if (error_code / 2) % 2 == 1 {
        FaultAccess::Write
    } else {
        FaultAccess::Read
    }
}

/// The report on the page fault with the frame `frame` at the address
/// `fault_addr`, which the processor names in its fault-address register.
pub fn page_fault_report(frame: &InterruptionStackFrameWithErrorCode, fault_addr: u64) -> (r:
    PageFaultReport)
    ensures
        r.fault_addr == fault_addr,
        r.rip == frame.rip,
        r.access == fault_access(frame.error_code),
        r.from_user == ((frame.error_code / 4) % 2 == 1),
        r.present == (frame.error_code % 2 == 1),
{
    let code = frame.error_code;
    let access = if (code / 16) % 2 == 1 {
        FaultAccess::Execute
    } else if (code / 2) % 2 == 1 {
        FaultAccess::Write
    } else {
        FaultAccess::Read
    };
    PageFaultReport {
        fault_addr,
        rip: frame.rip,
        access,
        from_user: (code / 4) % 2 == 1,
        present: code % 2 == 1,
    }
}

/// What the handlers of the other faults report before the kernel halts.
#[derive(Clone, Copy, Debug, PartialEq, Eq, Structural)]
pub struct FaultReport {
    pub vector: usize,
    pub rip: u64,
    pub cs: u64,
    pub error_code: u64,
}

/// The report on a fault of vector `vector` that carries an error code.
pub fn fault_report(vector: usize, frame: &InterruptionStackFrameWithErrorCode) -> (r: FaultReport)
    ensures
        r == (FaultReport { vector, rip: frame.rip, cs: frame.cs, error_code: frame.error_code }),
{
    FaultReport { vector, rip: frame.rip, cs: frame.cs, error_code: frame.error_code }
}

} // verus!
