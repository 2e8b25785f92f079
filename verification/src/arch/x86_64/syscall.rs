//! The fast system-call path: the registers that set it up, and the frame
//! that its entry hands to the dispatcher.

use vstd::prelude::*;

use super::gdt::{BEFORE_USER_DESCRIPTOR, KERNEL_CODE_DESCRIPTOR};

verus! {

/// Extended features: bit 0 enables the fast system call, bit 11 the
/// no-execute bit of the translation tables.
pub const MSR_EFER: u32 = 0xC000_0080;

/// The selectors that the processor loads on a fast system call and on the
/// return from one.
pub const MSR_STAR: u32 = 0xC000_0081;

/// The address at which a fast system call enters the kernel.
pub const MSR_LSTAR: u32 = 0xC000_0082;

/// The flags that the processor clears on a fast system call.
pub const MSR_FMASK: u32 = 0xC000_0084;

pub const EFER_SYSCALL_ENABLE: u64 = 0x1;

pub const EFER_NO_EXECUTE_ENABLE: u64 = 0x800;

/// Trap, interrupt-enable, direction, nested task and alignment check are
/// cleared on entry, so that the kernel starts with interrupts disabled.
pub const SYSCALL_FLAG_MASK: u64 = 0x47700;

/// A value to be written to a model-specific register.
#[derive(Clone, Copy, Debug, PartialEq, Eq, Structural)]
pub struct MsrWrite {
    pub register: u32,
    pub value: u64,
}

/// The selectors of the fast system call: the kernel's code selector for
/// the entry in bits 32 to 47, and in bits 48 to 63 the selector from which
/// the user's selectors are counted on the return.
pub open spec fn star_value() -> u64 {
    (KERNEL_CODE_DESCRIPTOR as u64 * 0x1_0000_0000 + BEFORE_USER_DESCRIPTOR as u64
        * 0x1_0000_0000_0000) as u64
}

/// What is written to set the fast system call up, for the entry point
/// `handler` and the present value `efer` of the extended-features
/// register: the selectors, the entry point, the flag mask, and the
/// extended features with the system call enabled.
pub fn init_syscall_sequence(handler: u64, efer: u64) -> (r: [MsrWrite; 4])
    ensures
        r[0] == (MsrWrite { register: MSR_STAR, value: star_value() }),
        r[1] == (MsrWrite { register: MSR_LSTAR, value: handler }),
        r[2] == (MsrWrite { register: MSR_FMASK, value: SYSCALL_FLAG_MASK }),
        r[3] == (MsrWrite { register: MSR_EFER, value: efer | 1 }),
{
    [
        MsrWrite {
            register: MSR_STAR,
            value: (KERNEL_CODE_DESCRIPTOR as u64) * 0x1_0000_0000 + (BEFORE_USER_DESCRIPTOR as u64)
                * 0x1_0000_0000_0000,
        },
        MsrWrite { register: MSR_LSTAR, value: handler },
        MsrWrite { register: MSR_FMASK, value: SYSCALL_FLAG_MASK },
        MsrWrite { register: MSR_EFER, value: efer | EFER_SYSCALL_ENABLE },
    ]
}

/// The value of the extended-features register that turns the no-execute
/// bit of the translation tables on and leaves the rest as in `efer`.
pub fn efer_with_no_execute(efer: u64) -> (r: u64)
    ensures
        r == efer | 0x800,
{
    efer | EFER_NO_EXECUTE_ENABLE
}

/// The number of the system call and its six arguments, from the frame that
/// the entry leaves on the kernel stack: the number first, then the
/// arguments in order.
pub fn handle_syscall_inner(frame: &[u64; 7]) -> (r: (u64, [u64; 6]))
    ensures
        r.0 == frame[0],
        forall|i: int| 0 <= i < 6 ==> r.1[i] == frame[i + 1],
{
    (frame[0], [frame[1], frame[2], frame[3], frame[4], frame[5], frame[6]])
}

} // verus!
