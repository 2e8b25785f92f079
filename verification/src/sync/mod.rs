//! The protocols of the kernel's spinning locks.

pub mod mutex;
