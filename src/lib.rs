//! The memory-management core of a small kernel: a page-frame allocator with
//! clean and dirty free lists, a per-processor caching slab in front of any
//! item allocator, and a boundary-tag resource arena with several fit policies.

pub mod address;
pub mod cpus;
pub mod elf;
pub mod paging;
pub mod physalloc;
pub mod pl011;
pub mod sizes;
pub mod slab;
pub mod vmem;
