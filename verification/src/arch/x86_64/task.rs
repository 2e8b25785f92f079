//! The register file that is saved for a task while it does not run, and the
//! frame from which the processor resumes it.

use vstd::prelude::*;

use super::gdt::{
    KERNEL_CODE_DESCRIPTOR, KERNEL_DATA_DESCRIPTOR, USER_CODE_DESCRIPTOR, USER_DATA_DESCRIPTOR,
    USER_PRIVILEGE,
};
use crate::mm::definitions::KERNEL_REGION_BEGIN;

verus! {

/// The interrupt-enable bit of the flags register.
pub const RFLAGS_INTERRUPT_ENABLE: u64 = 0x200;

/// What the processor pushes on an interrupt and pops on the return from
/// one.
#[derive(Clone, Copy, Debug, PartialEq, Eq, Structural)]
pub struct InterruptionStackFrame {
    pub rip: u64,
    pub cs: u64,
    pub rflags: u64,
    pub rsp: u64,
    pub ss: u64,
}

impl InterruptionStackFrame {
    /// Whether the interrupted code ran in the kernel: its code selector is
    /// the kernel's.
    pub fn from_kernel(&self) -> (r: bool)
        ensures
            r == (self.cs % 0x1_0000 == KERNEL_CODE_DESCRIPTOR),
    {
        self.cs % 0x1_0000 == KERNEL_CODE_DESCRIPTOR as u64
    }
}

/// What the processor pushes on a fault that carries an error code.
#[derive(Clone, Copy, Debug, PartialEq, Eq, Structural)]
pub struct InterruptionStackFrameWithErrorCode {
    pub error_code: u64,
    pub rip: u64,
    pub cs: u64,
    pub rflags: u64,
    pub rsp: u64,
    pub ss: u64,
}

/// The saved register file of a task: the general-purpose registers, the
/// stack pointer of the task, the stack pointer for its entries into the
/// kernel, the flags and the instruction pointer.
#[derive(Clone, Copy, Debug, PartialEq, Eq, Structural)]
pub struct RegisterStore {
    pub rax: u64,
    pub rbx: u64,
    pub rcx: u64,
    pub rdx: u64,
    pub rsi: u64,
    pub rdi: u64,
    pub r8: u64,
    pub r9: u64,
    pub r10: u64,
    pub r11: u64,
    pub r12: u64,
    pub r13: u64,
    pub r14: u64,
    pub r15: u64,
    pub rbp: u64,
    pub rsp: u64,
    pub kernel_rsp: u64,
    pub rflags: u64,
    pub rip: u64,
}

impl RegisterStore {
    /// Whether two register files agree on the general-purpose registers and
    /// on the kernel stack pointer.
    pub open spec fn same_general(self, other: Self) -> bool {
        &&& self.rax == other.rax
        &&& self.rbx == other.rbx
        &&& self.rcx == other.rcx
        &&& self.rdx == other.rdx
        &&& self.rsi == other.rsi
        &&& self.rdi == other.rdi
        &&& self.r8 == other.r8
        &&& self.r9 == other.r9
        &&& self.r10 == other.r10
        &&& self.r11 == other.r11
        &&& self.r12 == other.r12
        &&& self.r13 == other.r13
        &&& self.r14 == other.r14
        &&& self.r15 == other.r15
        &&& self.rbp == other.rbp
        &&& self.kernel_rsp == other.kernel_rsp
    }

    /// The frame from which the processor resumes the task: the saved
    /// instruction pointer, stack pointer and flags, with the kernel's
    /// selectors if the instruction pointer lies in the kernel half of
    /// virtual memory and the user's, at privilege level three, if not.
    pub open spec fn spec_return_frame(self) -> InterruptionStackFrame {
        if self.rip >= KERNEL_REGION_BEGIN {
            InterruptionStackFrame {
                rip: self.rip,
                cs: KERNEL_CODE_DESCRIPTOR as u64,
                rflags: self.rflags,
                rsp: self.rsp,
                ss: KERNEL_DATA_DESCRIPTOR as u64,
            }
        } else {
            InterruptionStackFrame {
                rip: self.rip,
                cs: (USER_CODE_DESCRIPTOR + USER_PRIVILEGE) as u64,
                rflags: self.rflags,
                rsp: self.rsp,
                ss: (USER_DATA_DESCRIPTOR + USER_PRIVILEGE) as u64,
            }
        }
    }

    /// The register file of a task that has not run yet: it starts at `pc`
    /// on the stack `sp`, enters the kernel on the stack `ksp`, has
    /// interrupts enabled, and every other register is zero.
    pub open spec fn fresh(pc: u64, sp: u64, ksp: u64) -> Self {
        Self {
            rax: 0,
            rbx: 0,
            rcx: 0,
            rdx: 0,
            rsi: 0,
            rdi: 0,
            r8: 0,
            r9: 0,
            r10: 0,
            r11: 0,
            r12: 0,
            r13: 0,
            r14: 0,
            r15: 0,
            rbp: 0,
            rsp: sp,
            kernel_rsp: ksp,
            rflags: RFLAGS_INTERRUPT_ENABLE,
            rip: pc,
        }
    }

    /// The register file of a task that has not run yet.
    pub fn new(pc: u64, sp: u64, ksp: u64) -> (r: Self)
        ensures
            r == Self::fresh(pc, sp, ksp),
            r.rip == pc,
            r.rsp == sp,
            r.kernel_rsp == ksp,
            r.rflags == RFLAGS_INTERRUPT_ENABLE,
            r.rax == 0 && r.rbx == 0 && r.rcx == 0 && r.rdx == 0 && r.rsi == 0 && r.rdi == 0,
            r.r8 == 0 && r.r9 == 0 && r.r10 == 0 && r.r11 == 0 && r.r12 == 0 && r.r13 == 0,
            r.r14 == 0 && r.r15 == 0 && r.rbp == 0,
    {
        Self {
            rax: 0,
            rbx: 0,
            rcx: 0,
            rdx: 0,
            rsi: 0,
            rdi: 0,
            r8: 0,
            r9: 0,
            r10: 0,
            r11: 0,
            r12: 0,
            r13: 0,
            r14: 0,
            r15: 0,
            rbp: 0,
            rsp: sp,
            kernel_rsp: ksp,
            rflags: RFLAGS_INTERRUPT_ENABLE,
            rip: pc,
        }
    }

    /// The stack pointer for entries into the kernel.
    pub fn ksp(&self) -> (r: u64)
        ensures
            r == self.kernel_rsp,
    {
        self.kernel_rsp
    }

    /// Records where the task was interrupted.
    pub fn update(&mut self, pc: u64, sp: u64)
        ensures
            final(self).rip == pc,
            final(self).rsp == sp,
            final(self).rflags == old(self).rflags,
            final(self).same_general(*old(self)),
    {
        self.rip = pc;
        self.rsp = sp;
    }

    pub fn update_rflags(&mut self, rflags: u64)
        ensures
            final(self).rflags == rflags,
            final(self).rip == old(self).rip,
            final(self).rsp == old(self).rsp,
            final(self).same_general(*old(self)),
    {
        self.rflags = rflags;
    }

    /// Saves what the interrupt frame holds of the interrupted task: its
    /// instruction pointer, stack pointer and flags.
    pub fn preempt(&mut self, frame: &InterruptionStackFrame)
        ensures
            final(self).rip == frame.rip,
            final(self).rsp == frame.rsp,
            final(self).rflags == frame.rflags,
            final(self).same_general(*old(self)),
    {
        self.update(frame.rip, frame.rsp);
        self.update_rflags(frame.rflags);
    }

    /// The frame from which the processor resumes the task.
    pub fn return_frame(&self) -> (r: InterruptionStackFrame)
        ensures
            r == self.spec_return_frame(),
    {
        if self.rip >= KERNEL_REGION_BEGIN {
            InterruptionStackFrame {
                rip: self.rip,
                cs: KERNEL_CODE_DESCRIPTOR as u64,
                rflags: self.rflags,
                rsp: self.rsp,
                ss: KERNEL_DATA_DESCRIPTOR as u64,
            }
        } else {
            InterruptionStackFrame {
                rip: self.rip,
                cs: (USER_CODE_DESCRIPTOR + USER_PRIVILEGE) as u64,
                rflags: self.rflags,
                rsp: self.rsp,
                ss: (USER_DATA_DESCRIPTOR + USER_PRIVILEGE) as u64,
            }
        }
    }
}

/// A task that is preempted and later resumed continues where it was: the
/// frame from which it resumes holds the instruction pointer, the stack
/// pointer and the flags of the frame at which it was interrupted, and for
/// an instruction pointer in the user half it holds the user's selectors.
pub proof fn law_preempt_resume(
    before: RegisterStore,
    saved: RegisterStore,
    frame: InterruptionStackFrame,
)
    requires
        saved.rip == frame.rip,
        saved.rsp == frame.rsp,
        saved.rflags == frame.rflags,
        saved.same_general(before),
    ensures
        saved.spec_return_frame().rip == frame.rip,
        saved.spec_return_frame().rsp == frame.rsp,
        saved.spec_return_frame().rflags == frame.rflags,
        frame.rip < KERNEL_REGION_BEGIN ==> saved.spec_return_frame().cs == USER_CODE_DESCRIPTOR
            + USER_PRIVILEGE && saved.spec_return_frame().ss == USER_DATA_DESCRIPTOR
            + USER_PRIVILEGE,
{
}

} // verus!
