//! The logic of a set of freestanding Linux programs, each of which talks to
//! the kernel through raw system calls: rendering numbers in hexadecimal,
//! the writes that the programs make, `memset`, the block layout of an
//! mmap-backed allocator, and the decisions of `cat`. The system calls
//! themselves are made by the caller, which hands the library plain values.

pub mod hex;
pub mod output;
pub mod memory;
pub mod allocator;
pub mod cat;
pub mod programs;
