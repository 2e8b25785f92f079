//! The x86_64 long-mode side of the kernel: translation tables, descriptor
//! encodings, saved register files and interrupt bookkeeping.

pub mod gdt;
pub mod idt;
pub mod interrupts;
pub mod io;
pub mod mm;
pub mod serial;
pub mod syscall;
pub mod task;
pub mod timer;
pub mod utils;
