//! Synchronization primitives and the guards they take.

use vstd::prelude::*;

use crate::cpu::CpuState;
use crate::trap::irq::{disable_local, irq_after_drop, DisabledLocalIrqGuard};

pub mod guard_spin;

verus! {

/// A kind of guard that a lock holds while it is locked: taking the guard
/// changes the state of the CPU, and dropping it undoes the change.
pub trait Guardian {
    /// The guard that is taken.
    type Guard;

    /// Whether the guard can be taken in state `s`.
    spec fn can_take(s: CpuState) -> bool;

    /// The state after the guard is taken in state `s`.
    spec fn taken(s: CpuState) -> CpuState;

    /// `g` is a guard taken in state `s`.
    spec fn taken_guard(s: CpuState, g: Self::Guard) -> bool;

    /// Whether the guard `g` can be dropped in state `s`.
    spec fn can_drop(g: Self::Guard, s: CpuState) -> bool;

    /// The state after the guard `g` is dropped in state `s`.
    spec fn dropped(g: Self::Guard, s: CpuState) -> CpuState;

    /// Takes the guard.
    fn guard(cpu: &mut CpuState) -> (g: Self::Guard)
        requires
            Self::can_take(*old(cpu)),
        ensures
            Self::taken_guard(*old(cpu), g),
            *final(cpu) == Self::taken(*old(cpu)),
    ;

    /// Drops the guard.
    fn release(g: Self::Guard, cpu: &mut CpuState)
        requires
            Self::can_drop(g, *old(cpu)),
        ensures
            *final(cpu) == Self::dropped(g, *old(cpu)),
    ;

    /// Dropping a guard right after taking it restores the state.
    proof fn lemma_take_then_drop(s: CpuState, g: Self::Guard)
        requires
            Self::can_take(s),
            Self::taken_guard(s, g),
        ensures
            Self::can_drop(g, Self::taken(s)),
            Self::dropped(g, Self::taken(s)) == s,
    ;
}

/// A guardian that disables preemption while holding a lock.
pub struct PreemptDisabled;

/// A guardian that disables local IRQs while holding a lock.
pub struct LocalIrqDisabled;

/// A guard for disabled preemption, which counts as one more reason not to
/// preempt the current task.
pub struct DisabledPreemptGuard {}

impl Guardian for PreemptDisabled {
    type Guard = DisabledPreemptGuard;

    open spec fn can_take(s: CpuState) -> bool {
        s.preempt_count < u32::MAX
    }

    open spec fn taken(s: CpuState) -> CpuState {
        CpuState { preempt_count: (s.preempt_count + 1) as u32, ..s }
    }

    open spec fn taken_guard(s: CpuState, g: DisabledPreemptGuard) -> bool {
        true
    }

    open spec fn can_drop(g: DisabledPreemptGuard, s: CpuState) -> bool {
        s.preempt_count > 0
    }

    open spec fn dropped(g: DisabledPreemptGuard, s: CpuState) -> CpuState {
        CpuState { preempt_count: (s.preempt_count - 1) as u32, ..s }
    }

    fn guard(cpu: &mut CpuState) -> (g: DisabledPreemptGuard) {
        cpu.preempt_count = cpu.preempt_count + 1;
        DisabledPreemptGuard {}
    }

    fn release(g: DisabledPreemptGuard, cpu: &mut CpuState) {
        cpu.preempt_count = cpu.preempt_count - 1;
    }

    proof fn lemma_take_then_drop(s: CpuState, g: DisabledPreemptGuard) {
    }
}

impl Guardian for LocalIrqDisabled {
    type Guard = DisabledLocalIrqGuard;

    open spec fn can_take(s: CpuState) -> bool {
        true
    }

    open spec fn taken(s: CpuState) -> CpuState {
        CpuState { irq_enabled: false, ..s }
    }

    open spec fn taken_guard(s: CpuState, g: DisabledLocalIrqGuard) -> bool {
        g.was_enabled() == s.irq_enabled
    }

    open spec fn can_drop(g: DisabledLocalIrqGuard, s: CpuState) -> bool {
        true
    }

    open spec fn dropped(g: DisabledLocalIrqGuard, s: CpuState) -> CpuState {
        CpuState { irq_enabled: irq_after_drop(g.was_enabled(), s.irq_enabled), ..s }
    }

    fn guard(cpu: &mut CpuState) -> (g: DisabledLocalIrqGuard) {
        disable_local(cpu)
    }

    fn release(g: DisabledLocalIrqGuard, cpu: &mut CpuState) {
        g.release(cpu)
    }

    proof fn lemma_take_then_drop(s: CpuState, g: DisabledLocalIrqGuard) {
    }
}

} // verus!
