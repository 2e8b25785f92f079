//! Tasks: the loader of their images, their address spaces and the
//! scheduler's queue.

pub mod elf;
pub mod task;
pub mod task_mgr;
