//! What user mode asks of the kernel.

pub mod syscall;
