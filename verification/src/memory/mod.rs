//! Physical frames, virtual pages, page tables and the kernel address space.

pub mod bits;
pub mod bitmap;
pub mod frame_alloc;
pub mod page_alloc;
pub mod page_table;
pub mod addr_space;
