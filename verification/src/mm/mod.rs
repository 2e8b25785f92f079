//! Memory management: addresses, frames, regions and the allocators over them.

pub mod allocator;
pub mod definitions;
pub mod frame_allocator;
pub mod utils;
