//! Memory management: addresses, physical frames, page tables and address spaces.
pub mod address;
pub mod frame_allocator;
pub mod map_area;
pub mod page_table;
pub mod space;
pub mod memory_set;
pub mod elf;
pub mod plan;
pub mod laws;
pub mod load;
pub mod user;
pub mod owner;
