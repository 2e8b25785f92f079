//! The verified core of a small preemptive x86_64 kernel: physical frame
//! allocation, four-level page tables, the kernel heap, task bookkeeping and
//! system-call dispatch, each stated over a mathematical model and proved
//! against it.

use vstd::prelude::*;

pub mod arch;
pub mod mm;
pub mod sync;
pub mod task;
pub mod user;

