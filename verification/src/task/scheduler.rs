//! The running flag of a core's scheduler.

use vstd::prelude::*;

verus! {

/// Stops the current core if it is running, given its running flag.
///
/// Returns `true` if the core was running and is now stopping, `false` if
/// it was not running; either way the flag is clear afterwards.
pub fn stop_running(running: &mut bool) -> (r: bool)
    ensures
        r == *old(running),
        !*final(running),
{
    let was_running = *running;
    if was_running {
        *running = false;
    }
    was_running
}

/// Marks the current core running, given its running flag. Returns `false`
/// when it was running already, in which case nothing changes.
pub fn start_running(running: &mut bool) -> (r: bool)
    ensures
        r == !*old(running),
        *final(running),
{
    if *running {
        false
    } else {
        *running = true;
        true
    }
}

/// What the main loop of a core does next.
#[derive(Clone, Copy, Debug, PartialEq, Eq, Structural)]
pub enum CoreStep {
    /// Tick the scheduler again.
    Tick,
    /// Leave the loop: the condition no longer holds or the core was
    /// stopped.
    Shutdown,
    /// Sleep until an interrupt arrives, then tick again.
    WaitForInterrupt,
}

/// The decision of the main loop of a core: it shuts down once its
/// condition is false; it ticks again while the last tick left work; with
/// no work left it shuts down if the core was stopped, and otherwise waits
/// for an interrupt.
pub fn next_step(condition: bool, has_work: bool, running: bool) -> (r: CoreStep)
    ensures
        r == if !condition {
            CoreStep::Shutdown
        } else if has_work {
            CoreStep::Tick
        } else if !running {
            CoreStep::Shutdown
        } else {
            CoreStep::WaitForInterrupt
        },
{
    if !condition {
        CoreStep::Shutdown
    } else if has_work {
        CoreStep::Tick
    } else if !running {
        CoreStep::Shutdown
    } else {
        CoreStep::WaitForInterrupt
    }
}

/// Whether a core has more work after a tick: tasks left to poll, or tasks
/// that it stole.
pub fn tick_has_work(has_remaining: bool, stolen: u64) -> (r: bool)
    ensures
        r == (has_remaining || stolen > 0),
{
    has_remaining || stolen > 0
}

/// The most tasks that one steal takes.
pub const MAX_STOLEN_PER_TICK: u64 = 256;

/// The most times a core tries other cores in vain before it gives up.
pub const MAX_STEAL_ATTEMPTS: u64 = 16;

/// How many tasks to steal from a core that had `initial_task_count` tasks:
/// half of them, at most `MAX_STOLEN_PER_TICK`.
pub fn steal_count(initial_task_count: u64) -> (r: u64)
    ensures
        r == if initial_task_count / 2 < MAX_STOLEN_PER_TICK { initial_task_count / 2 } else { MAX_STOLEN_PER_TICK },
{
    let half = initial_task_count / 2;
    if half < MAX_STOLEN_PER_TICK {
        half
    } else {
        MAX_STOLEN_PER_TICK
    }
}


/// Where the search of a core for tasks to steal stands.
#[derive(Clone, Copy, Debug, PartialEq, Eq, Structural)]
pub enum StealPhase {
    /// The global injector queue is tried first.
    FirstInjector,
    /// The number of active cores is to be read before picking a victim.
    CountCores,
    /// A victim among the active cores is to be picked at random.
    PickVictim,
    /// The picked victim is to be tried.
    TryVictim,
    /// The injector queue is tried once more.
    LastInjector,
    /// The search is over.
    Done,
}

/// The state of a core's search for tasks to steal.
#[derive(Clone, Copy, Debug, PartialEq, Eq, Structural)]
pub struct StealState {
    pub phase: StealPhase,
    /// The number of victims tried in vain.
    pub attempts: u64,
    /// The number of active cores last read.
    pub active_cores: u64,
    /// The victim last picked.
    pub victim: u64,
}

/// What the outside work asked for by the last action found.
#[derive(Clone, Copy, Debug, PartialEq, Eq, Structural)]
pub enum StealEvent {
    /// The search starts.
    Start,
    /// Whether the injector queue could be stolen from.
    Injector(bool),
    /// The number of active cores.
    ActiveCores(u64),
    /// The victim picked at random below the number of active cores.
    Victim(u64),
    /// The number of tasks the victim had when it could be stolen from, or
    /// `None` when it could not.
    VictimTasks(Option<u64>),
}

/// What the core does next in its search.
#[derive(Clone, Copy, Debug, PartialEq, Eq, Structural)]
pub enum StealAction {
    /// Try to steal from the injector queue.
    TryInjector,
    /// Read the number of active cores.
    CountCores,
    /// Pick a victim at random below the given number of cores.
    PickVictim(u64),
    /// Try to steal from the given core.
    TryVictim(u64),
    /// Move at most the given number of tasks from the injector queue to
    /// this core; the search ends with the number moved.
    SpawnFromInjector(u64),
    /// Move the given number of tasks from the victim to this core; the
    /// search ends with the number moved.
    SpawnFromVictim(u64),
    /// The search ends having stolen nothing.
    NothingStolen,
}

/// The search starts by trying the injector queue.
pub fn steal_start() -> (r: (StealState, StealAction))
    ensures
        r.0 == (StealState { phase: StealPhase::FirstInjector, attempts: 0, active_cores: 0, victim: 0 }),
        r.1 == StealAction::TryInjector,
{
    (StealState { phase: StealPhase::FirstInjector, attempts: 0, active_cores: 0, victim: 0 }, StealAction::TryInjector)
}

/// A state of the search that can occur: the failed attempts stay within
/// the limit, below it while a victim is picked or tried, and a victim to
/// try lies below the number of active cores.
pub open spec fn steal_state_ok(s: StealState) -> bool {
    &&& s.attempts <= MAX_STEAL_ATTEMPTS
    &&& (s.phase == StealPhase::PickVictim || s.phase == StealPhase::TryVictim) ==> s.attempts < MAX_STEAL_ATTEMPTS
    &&& s.phase == StealPhase::TryVictim ==> s.victim < s.active_cores
}

/// The decision of a core searching for tasks to steal, given what the
/// last action found. It takes up to `MAX_STOLEN_PER_TICK` tasks from the
/// injector queue if it can; otherwise, while fewer than
/// `MAX_STEAL_ATTEMPTS` victims failed and another core is active, it picks
/// a random active core other than itself (picking itself costs no attempt)
/// and takes half of its tasks, at most `MAX_STOLEN_PER_TICK`; after that it
/// tries the injector queue once more, and stops with nothing stolen when
/// that fails too.
pub fn steal_step(s: StealState, self_id: u64, event: StealEvent) -> (r: (StealState, StealAction))
    requires
        steal_state_ok(s),
        s.phase != StealPhase::Done,
    ensures
        steal_state_ok(r.0),
        r.0 == (match (s.phase, event) {
            (StealPhase::FirstInjector, StealEvent::Injector(true)) => StealState { phase: StealPhase::Done, ..s },
            (StealPhase::FirstInjector, StealEvent::Injector(false)) => StealState { phase: StealPhase::CountCores, ..s },
            (StealPhase::CountCores, _) => if s.attempts >= MAX_STEAL_ATTEMPTS {
                StealState { phase: StealPhase::LastInjector, ..s }
            } else {
                match event {
                    StealEvent::ActiveCores(n) => if n <= 1 {
                        StealState { phase: StealPhase::LastInjector, active_cores: n, ..s }
                    } else {
                        StealState { phase: StealPhase::PickVictim, active_cores: n, ..s }
                    },
                    _ => s,
                }
            },
            (StealPhase::PickVictim, StealEvent::Victim(v)) => if v >= s.active_cores || v == self_id {
                StealState { phase: StealPhase::CountCores, ..s }
            } else {
                StealState { phase: StealPhase::TryVictim, victim: v, ..s }
            },
            (StealPhase::TryVictim, StealEvent::VictimTasks(Some(_))) => StealState { phase: StealPhase::Done, ..s },
            (StealPhase::TryVictim, StealEvent::VictimTasks(None)) => if s.attempts + 1 >= MAX_STEAL_ATTEMPTS {
                StealState { phase: StealPhase::LastInjector, attempts: (s.attempts + 1) as u64, ..s }
            } else {
                StealState { phase: StealPhase::CountCores, attempts: (s.attempts + 1) as u64, ..s }
            },
            (StealPhase::LastInjector, StealEvent::Injector(_)) => StealState { phase: StealPhase::Done, ..s },
            _ => s,
        }),
        r.1 == (match (s.phase, event) {
            (StealPhase::FirstInjector, StealEvent::Injector(true)) => StealAction::SpawnFromInjector(MAX_STOLEN_PER_TICK),
            (StealPhase::FirstInjector, StealEvent::Injector(false)) => StealAction::CountCores,
            (StealPhase::CountCores, _) => if s.attempts >= MAX_STEAL_ATTEMPTS {
                StealAction::TryInjector
            } else {
                match event {
                    StealEvent::ActiveCores(n) => if n <= 1 { StealAction::TryInjector } else { StealAction::PickVictim(n) },
                    _ => StealAction::CountCores,
                }
            },
            (StealPhase::PickVictim, StealEvent::Victim(v)) => if v >= s.active_cores || v == self_id {
                StealAction::CountCores
            } else {
                StealAction::TryVictim(v)
            },
            (StealPhase::TryVictim, StealEvent::VictimTasks(Some(n))) => StealAction::SpawnFromVictim(
                if n / 2 < MAX_STOLEN_PER_TICK { n / 2 } else { MAX_STOLEN_PER_TICK },
            ),
            (StealPhase::TryVictim, StealEvent::VictimTasks(None)) => if s.attempts + 1 >= MAX_STEAL_ATTEMPTS {
                StealAction::TryInjector
            } else {
                StealAction::CountCores
            },
            (StealPhase::LastInjector, StealEvent::Injector(true)) => StealAction::SpawnFromInjector(MAX_STOLEN_PER_TICK),
            (StealPhase::LastInjector, StealEvent::Injector(false)) => StealAction::NothingStolen,
            (StealPhase::FirstInjector, _) => StealAction::TryInjector,
            (StealPhase::PickVictim, _) => StealAction::PickVictim(s.active_cores),
            (StealPhase::TryVictim, _) => StealAction::TryVictim(s.victim),
            _ => StealAction::TryInjector,
        }),
{
    match (s.phase, event) {
        (StealPhase::FirstInjector, StealEvent::Injector(true)) => {
            (StealState { phase: StealPhase::Done, ..s }, StealAction::SpawnFromInjector(MAX_STOLEN_PER_TICK))
        },
        (StealPhase::FirstInjector, StealEvent::Injector(false)) => {
            (StealState { phase: StealPhase::CountCores, ..s }, StealAction::CountCores)
        },
        (StealPhase::CountCores, _) => {
            if s.attempts >= MAX_STEAL_ATTEMPTS {
                (StealState { phase: StealPhase::LastInjector, ..s }, StealAction::TryInjector)
            } else {
                match event {
                    StealEvent::ActiveCores(n) => {
                        if n <= 1 {
                            (StealState { phase: StealPhase::LastInjector, active_cores: n, ..s }, StealAction::TryInjector)
                        } else {
                            (StealState { phase: StealPhase::PickVictim, active_cores: n, ..s }, StealAction::PickVictim(n))
                        }
                    },
                    _ => (s, StealAction::CountCores),
                }
            }
        },
        (StealPhase::PickVictim, StealEvent::Victim(v)) => {
            if v >= s.active_cores || v == self_id {
                (StealState { phase: StealPhase::CountCores, ..s }, StealAction::CountCores)
            } else {
                (StealState { phase: StealPhase::TryVictim, victim: v, ..s }, StealAction::TryVictim(v))
            }
        },
        (StealPhase::TryVictim, StealEvent::VictimTasks(Some(n))) => {
            (StealState { phase: StealPhase::Done, ..s }, StealAction::SpawnFromVictim(steal_count(n)))
        },
        (StealPhase::TryVictim, StealEvent::VictimTasks(None)) => {
            let attempts = s.attempts + 1;
            if attempts >= MAX_STEAL_ATTEMPTS {
                (StealState { phase: StealPhase::LastInjector, attempts, ..s }, StealAction::TryInjector)
            } else {
                (StealState { phase: StealPhase::CountCores, attempts, ..s }, StealAction::CountCores)
            }
        },
        (StealPhase::LastInjector, StealEvent::Injector(found)) => {
            if found {
                (StealState { phase: StealPhase::Done, ..s }, StealAction::SpawnFromInjector(MAX_STOLEN_PER_TICK))
            } else {
                (StealState { phase: StealPhase::Done, ..s }, StealAction::NothingStolen)
            }
        },
        (StealPhase::FirstInjector, _) => (s, StealAction::TryInjector),
        (StealPhase::PickVictim, _) => (s, StealAction::PickVictim(s.active_cores)),
        (StealPhase::TryVictim, _) => (s, StealAction::TryVictim(s.victim)),
        _ => (s, StealAction::TryInjector),
    }
}

} // verus!
