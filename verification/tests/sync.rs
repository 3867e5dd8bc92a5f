use ostd_mm::cpu::CpuState;
use ostd_mm::sync::guard_spin::GuardSpinLock;
use ostd_mm::sync::{LocalIrqDisabled, PreemptDisabled};
use ostd_mm::task::scheduler::stop_running;
use ostd_mm::trap::irq::disable_local;

#[test]
fn nested_irq_guards_restore_on_the_outermost_drop() {
    let mut cpu = CpuState { irq_enabled: true, preempt_count: 0 };
    let outer = disable_local(&mut cpu);
    assert!(!cpu.irq_enabled);
    let inner = disable_local(&mut cpu);
    inner.release(&mut cpu);
    assert!(!cpu.irq_enabled);
    outer.release(&mut cpu);
    assert!(cpu.irq_enabled);
}

#[test]
fn irq_guard_keeps_irqs_off_when_they_were_off() {
    let mut cpu = CpuState { irq_enabled: false, preempt_count: 3 };
    let g = disable_local(&mut cpu);
    g.release(&mut cpu);
    assert_eq!(cpu, CpuState { irq_enabled: false, preempt_count: 3 });
}

#[test]
fn transferred_irq_guard_carries_the_duty() {
    let mut cpu = CpuState { irq_enabled: true, preempt_count: 0 };
    let mut g = disable_local(&mut cpu);
    let moved = g.transfer_to();
    g.release(&mut cpu);
    assert!(!cpu.irq_enabled);
    moved.release(&mut cpu);
    assert!(cpu.irq_enabled);
}

#[test]
fn spin_lock_with_preemption_disabled() {
    let mut cpu = CpuState { irq_enabled: true, preempt_count: 0 };
    let mut lock: GuardSpinLock<u32, PreemptDisabled> = GuardSpinLock::new(5);
    let guard = lock.lock(&mut cpu);
    assert_eq!(cpu.preempt_count, 1);
    assert!(lock.try_lock(&mut cpu).is_none());
    assert_eq!(cpu.preempt_count, 1);
    *lock.get_mut() += 1;
    lock.unlock(guard, &mut cpu);
    assert_eq!(cpu.preempt_count, 0);
    assert_eq!(*lock.get_mut(), 6);
}

#[test]
fn spin_lock_with_irqs_disabled() {
    let mut cpu = CpuState { irq_enabled: true, preempt_count: 0 };
    let mut lock: GuardSpinLock<Vec<u8>, LocalIrqDisabled> = GuardSpinLock::new(vec![1]);
    let guard = lock.try_lock(&mut cpu).unwrap();
    assert!(!cpu.irq_enabled);
    let _inner = guard.guard();
    lock.get_mut().push(2);
    lock.unlock(guard, &mut cpu);
    assert!(cpu.irq_enabled);
    assert_eq!(lock.get_mut().len(), 2);
}

#[test]
fn stop_running_reports_and_clears_the_flag() {
    let mut running = true;
    assert!(stop_running(&mut running));
    assert!(!running);
    assert!(!stop_running(&mut running));
    assert!(!running);
}
