//! Kernel memory management: the heap allocators and the boot-time view
//! of physical memory.

pub mod buddy;
pub mod frame;
pub mod heap;
pub mod summary;
