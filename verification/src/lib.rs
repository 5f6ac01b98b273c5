//! Memory accounting for a Linux system, built from the kernel's `/proc`
//! files: physical RAM regions within memory zones, kernel modules, the
//! process tree with private and shared memory, and the memory totals.
pub mod text;
pub mod sort;
pub mod tree;
pub mod proc;
pub mod summary;
