use ostd_mm::task::scheduler::{
    steal_start, steal_step, StealAction, StealEvent, StealPhase, MAX_STEAL_ATTEMPTS, MAX_STOLEN_PER_TICK,
};

#[test]
fn steal_takes_from_the_injector_first() {
    let (s, a) = steal_start();
    assert_eq!(a, StealAction::TryInjector);
    let (s, a) = steal_step(s, 0, StealEvent::Injector(true));
    assert_eq!(a, StealAction::SpawnFromInjector(MAX_STOLEN_PER_TICK));
    assert_eq!(s.phase, StealPhase::Done);
}

#[test]
fn steal_takes_half_of_another_core() {
    let (s, _) = steal_start();
    let (s, a) = steal_step(s, 1, StealEvent::Injector(false));
    assert_eq!(a, StealAction::CountCores);
    let (s, a) = steal_step(s, 1, StealEvent::ActiveCores(4));
    assert_eq!(a, StealAction::PickVictim(4));
    // Picking itself costs no attempt.
    let (s, a) = steal_step(s, 1, StealEvent::Victim(1));
    assert_eq!(a, StealAction::CountCores);
    assert_eq!(s.attempts, 0);
    let (s, _) = steal_step(s, 1, StealEvent::ActiveCores(4));
    let (s, a) = steal_step(s, 1, StealEvent::Victim(2));
    assert_eq!(a, StealAction::TryVictim(2));
    let (s, a) = steal_step(s, 1, StealEvent::VictimTasks(Some(11)));
    assert_eq!(a, StealAction::SpawnFromVictim(5));
    assert_eq!(s.phase, StealPhase::Done);
}

#[test]
fn steal_takes_at_most_the_limit_from_a_core() {
    let (s, _) = steal_start();
    let (s, _) = steal_step(s, 0, StealEvent::Injector(false));
    let (s, _) = steal_step(s, 0, StealEvent::ActiveCores(2));
    let (s, _) = steal_step(s, 0, StealEvent::Victim(1));
    let (_, a) = steal_step(s, 0, StealEvent::VictimTasks(Some(10_000)));
    assert_eq!(a, StealAction::SpawnFromVictim(MAX_STOLEN_PER_TICK));
}

#[test]
fn steal_gives_up_after_failed_attempts() {
    let (mut s, _) = steal_start();
    let (s2, _) = steal_step(s, 0, StealEvent::Injector(false));
    s = s2;
    let mut last = StealAction::CountCores;
    for _ in 0..MAX_STEAL_ATTEMPTS {
        let (s2, _) = steal_step(s, 0, StealEvent::ActiveCores(3));
        let (s3, _) = steal_step(s2, 0, StealEvent::Victim(2));
        let (s4, a) = steal_step(s3, 0, StealEvent::VictimTasks(None));
        s = s4;
        last = a;
    }
    assert_eq!(s.attempts, MAX_STEAL_ATTEMPTS);
    assert_eq!(last, StealAction::TryInjector);
    assert_eq!(s.phase, StealPhase::LastInjector);
    let (s, a) = steal_step(s, 0, StealEvent::Injector(false));
    assert_eq!(a, StealAction::NothingStolen);
    assert_eq!(s.phase, StealPhase::Done);
}

#[test]
fn steal_on_a_single_core_tries_the_injector_again() {
    let (s, _) = steal_start();
    let (s, _) = steal_step(s, 0, StealEvent::Injector(false));
    let (s, a) = steal_step(s, 0, StealEvent::ActiveCores(1));
    assert_eq!(a, StealAction::TryInjector);
    let (_, a) = steal_step(s, 0, StealEvent::Injector(true));
    assert_eq!(a, StealAction::SpawnFromInjector(MAX_STOLEN_PER_TICK));
}
