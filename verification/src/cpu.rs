//! The state of the current CPU that guards read and change.

use vstd::prelude::*;

verus! {

/// The per-CPU state that guards read and change: whether local IRQs are
/// enabled, and how many guards currently disable preemption.
#[derive(Clone, Copy, Debug, PartialEq, Eq, Structural)]
pub struct CpuState {
    pub irq_enabled: bool,
    pub preempt_count: u32,
}

} // verus!
