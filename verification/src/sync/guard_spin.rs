//! A spin lock that holds a guard while it is locked.

use vstd::prelude::*;
use core::marker::PhantomData;

use crate::cpu::CpuState;
use super::{Guardian, PreemptDisabled};

verus! {

/// A spin lock.
///
/// While the lock is held, the guard of `G` is held too: with
/// [`PreemptDisabled`] preemption is disabled, with
/// [`LocalIrqDisabled`](super::LocalIrqDisabled) local IRQs are disabled.
pub struct GuardSpinLock<T, G = PreemptDisabled> {
    phantom: PhantomData<G>,
    locked: bool,
    val: T,
}

/// The guard of a spin lock: it holds the guard of `G` that was taken when
/// the lock was acquired.
pub struct SpinLockGuard_<G: Guardian> {
    guard: G::Guard,
}

impl<T, G> GuardSpinLock<T, G> {
    /// Whether the lock is held.
    pub closed spec fn is_locked(self) -> bool {
        self.locked
    }

    /// The protected value.
    pub closed spec fn value(self) -> T {
        self.val
    }

    /// Creates a new spin lock, not held, that protects `val`.
    pub fn new(val: T) -> (r: Self)
        ensures
            !r.is_locked(),
            r.value() == val,
    {
        GuardSpinLock { phantom: PhantomData, locked: false, val }
    }

    /// Returns a mutable reference to the protected value: holding the lock
    /// mutably already makes the access exclusive.
    pub fn get_mut(&mut self) -> (r: &mut T)
        ensures
            *r == old(self).value(),
            final(self).value() == *final(r),
            final(self).is_locked() == old(self).is_locked(),
    {
        &mut self.val
    }
}

impl<T, G: Guardian> GuardSpinLock<T, G> {
    /// Acquires the spin lock, taking the guard first.
    ///
    /// On a lock that is held already the spinning never ends here, as no
    /// other CPU releases it (excluded here).
    pub fn lock(&mut self, cpu: &mut CpuState) -> (r: SpinLockGuard_<G>)
        requires
            !old(self).is_locked(),
            G::can_take(*old(cpu)),
        ensures
            final(self).is_locked(),
            final(self).value() == old(self).value(),
            G::taken_guard(*old(cpu), r.guard_spec()),
            *final(cpu) == G::taken(*old(cpu)),
    {
        let inner_guard = G::guard(cpu);
        self.acquire_lock();
        SpinLockGuard_ { guard: inner_guard }
    }

    /// Tries acquiring the spin lock at once. When the lock is held, the
    /// guard that was taken is dropped again and `None` is returned.
    pub fn try_lock(&mut self, cpu: &mut CpuState) -> (r: Option<SpinLockGuard_<G>>)
        requires
            G::can_take(*old(cpu)),
        ensures
            old(self).is_locked() ==> r is None && *final(self) == *old(self) && *final(cpu) == *old(cpu),
            !old(self).is_locked() ==> {
                &&& r is Some
                &&& final(self).is_locked()
                &&& final(self).value() == old(self).value()
                &&& G::taken_guard(*old(cpu), r->Some_0.guard_spec())
                &&& *final(cpu) == G::taken(*old(cpu))
            },
    {
        let ghost cpu0 = *cpu;
        let inner_guard = G::guard(cpu);
        if self.try_acquire_lock() {
            return Some(SpinLockGuard_ { guard: inner_guard });
        }
        proof {
            G::lemma_take_then_drop(cpu0, inner_guard);
        }
        G::release(inner_guard, cpu);
        None
    }

    /// Releases the lock and drops the guard that `guard` holds.
    pub fn unlock(&mut self, guard: SpinLockGuard_<G>, cpu: &mut CpuState)
        requires
            G::can_drop(guard.guard_spec(), *old(cpu)),
        ensures
            !final(self).is_locked(),
            final(self).value() == old(self).value(),
            *final(cpu) == G::dropped(guard.guard_spec(), *old(cpu)),
    {
        self.release_lock();
        G::release(guard.guard, cpu);
    }

    /// Acquires the lock, which must be free: a held lock is never released
    /// while this CPU spins on it.
    fn acquire_lock(&mut self)
        requires
            !old(self).is_locked(),
        ensures
            final(self).is_locked(),
            final(self).value() == old(self).value(),
    {
        let acquired = self.try_acquire_lock();
        assert(acquired);
    }

    /// Takes the lock if it is free, and says whether it did.
    fn try_acquire_lock(&mut self) -> (r: bool)
        ensures
            r == !old(self).is_locked(),
            final(self).is_locked(),
            final(self).value() == old(self).value(),
    {
        if self.locked {
            false
        } else {
            self.locked = true;
            true
        }
    }

    /// Frees the lock.
    fn release_lock(&mut self)
        ensures
            !final(self).is_locked(),
            final(self).value() == old(self).value(),
    {
        self.locked = false;
    }
}

impl<G: Guardian> SpinLockGuard_<G> {
    /// The guard of `G` that this lock guard holds.
    pub closed spec fn guard_spec(self) -> G::Guard {
        self.guard
    }

    /// Returns a reference to the guard of `G` that this lock guard holds.
    pub fn guard(&self) -> (r: &G::Guard)
        ensures
            *r == self.guard_spec(),
    {
        &self.guard
    }
}

} // verus!
