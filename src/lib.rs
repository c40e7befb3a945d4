//! Memory-management core of a small kernel: a bitmap frame allocator,
//! address spaces made of non-overlapping areas, copy-on-write fault
//! resolution, kernel stacks, and the file-descriptor bookkeeping of the
//! file system calls.
pub mod frame_allocator;
pub mod phys;
pub mod memory_set;
pub mod cow;
pub mod fs;
pub mod stack;
pub mod active_table;
