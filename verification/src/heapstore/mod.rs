//! Slotted pages, the pool that holds them, and heap files built on both.
pub mod buffer_pool;
pub mod heap_file;
pub mod heap_page;
pub mod page;
