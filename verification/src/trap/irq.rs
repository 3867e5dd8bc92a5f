//! Disabling local IRQs.

use vstd::prelude::*;

use crate::cpu::CpuState;

verus! {

/// What dropping a guard that recorded `was_enabled` leaves of the IRQ flag
/// `enabled`: IRQs come back on only if they were on when it was taken.
pub open spec fn irq_after_drop(was_enabled: bool, enabled: bool) -> bool {
    was_enabled || enabled
}

/// Disables all IRQs on the current CPU (i.e., locally).
///
/// Returns a guard that enables local IRQs again when it is dropped. Calls
/// may nest: IRQs come back on only when the outermost guard is dropped.
pub fn disable_local(cpu: &mut CpuState) -> (r: DisabledLocalIrqGuard)
    ensures
        r.was_enabled() == old(cpu).irq_enabled,
        *final(cpu) == (CpuState { irq_enabled: false, ..*old(cpu) }),
{
    DisabledLocalIrqGuard::new(cpu)
}

/// A guard for disabled local IRQs: it records whether IRQs were enabled
/// when it was taken.
pub struct DisabledLocalIrqGuard {
    was_enabled: bool,
}

impl DisabledLocalIrqGuard {
    /// Whether local IRQs were enabled when the guard was taken.
    pub closed spec fn was_enabled(self) -> bool {
        self.was_enabled
    }

    /// Records whether local IRQs are enabled and disables them.
    fn new(cpu: &mut CpuState) -> (r: Self)
        ensures
            r.was_enabled() == old(cpu).irq_enabled,
            *final(cpu) == (CpuState { irq_enabled: false, ..*old(cpu) }),
    {
        let was_enabled = cpu.irq_enabled;
        if was_enabled {
            cpu.irq_enabled = false;
        }
        Self { was_enabled }
    }

    /// Moves the duty of re-enabling IRQs to a new guard, which is
    /// returned; this guard is left without it.
    pub fn transfer_to(&mut self) -> (r: Self)
        ensures
            r.was_enabled() == old(self).was_enabled(),
            !final(self).was_enabled(),
    {
        let was_enabled = self.was_enabled;
        self.was_enabled = false;
        Self { was_enabled }
    }

    /// Drops the guard: local IRQs are enabled again if they were enabled
    /// when it was taken.
    pub fn release(self, cpu: &mut CpuState)
        ensures
            *final(cpu) == (CpuState { irq_enabled: irq_after_drop(self.was_enabled(), old(cpu).irq_enabled), ..*old(cpu) }),
    {
        if self.was_enabled {
            cpu.irq_enabled = true;
        }
    }
}

/// Nesting: after a first and a second guard are taken, dropping the
/// second (inner) guard leaves IRQs disabled, and dropping the first
/// (outer) one restores the state from before the first was taken.
pub proof fn lemma_nested_disable_restores(s: CpuState)
    ensures
        ({
            let s1 = CpuState { irq_enabled: false, ..s };
            let s2 = CpuState { irq_enabled: false, ..s1 };
            let s3 = CpuState { irq_enabled: irq_after_drop(s1.irq_enabled, s2.irq_enabled), ..s2 };
            let s4 = CpuState { irq_enabled: irq_after_drop(s.irq_enabled, s3.irq_enabled), ..s3 };
            &&& !s3.irq_enabled
            &&& s4 == s
        }),
{
}

} // verus!
