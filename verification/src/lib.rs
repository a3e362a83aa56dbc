//! Scheduling and resource-management substrate of a single-core,
//! cooperatively scheduled kernel: a heap allocator over a fixed region,
//! a growable contiguous container backed by that allocator, a mutex that
//! guards a shared value, a fixed-capacity byte ring buffer, and a
//! round-robin task scheduler.
//!
//! Hardware access (screen, keyboard, interrupt controller, raw register
//! reads, the trap instruction itself) is left to the platform layer around
//! this crate; every function here works on plain values and is verified.

pub mod heap;
pub mod lock;
pub mod ring;
pub mod string;
pub mod task;
pub mod vec;
