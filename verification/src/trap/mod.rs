//! Traps and interrupts.

pub mod irq;
