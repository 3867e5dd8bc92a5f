//! Tasks and their scheduling.

pub mod scheduler;
