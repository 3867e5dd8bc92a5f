//! Memory-management core of the OS standard library: page sizes and
//! address arithmetic, physical frames and their reference counts, the
//! frame allocator, contiguous segments, virtual-memory readers and writers,
//! and multi-level page tables with their cursors; with the guards that
//! disable IRQs and preemption, and the spin lock built on them.
//!
//! Addresses are 64-bit quantities; they are carried as `u64` so that their
//! arithmetic does not depend on the width of `usize`.

pub mod cpu;
pub mod error;
pub mod mm;
pub mod sync;
pub mod task;
pub mod tracer;
pub mod trap;

pub use error::Error;
