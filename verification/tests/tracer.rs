use ostd_mm::cpu::CpuState;
use ostd_mm::task::scheduler::{next_step, start_running, steal_count, tick_has_work, CoreStep};
use ostd_mm::tracer::{
    enabled, enter_span, exit_span, indent_width, level_prefix, log_level_value, parse_log_level, LogLevel,
    LogLevelFilter, SpanIds,
};

#[test]
fn levels_up_to_the_filter_are_enabled() {
    assert!(enabled(LogLevel::Error, LogLevelFilter::Info));
    assert!(enabled(LogLevel::Info, LogLevelFilter::Info));
    assert!(!enabled(LogLevel::Debug, LogLevelFilter::Info));
    assert!(!enabled(LogLevel::Error, LogLevelFilter::Off));
    assert!(enabled(LogLevel::Trace, LogLevelFilter::Trace));
}

#[test]
fn level_prefixes() {
    assert_eq!(level_prefix(LogLevel::Trace), "[TRACE]");
    assert_eq!(level_prefix(LogLevel::Warn), "[WARN]");
    assert_eq!(level_prefix(LogLevel::Error), "[ERROR]");
}

#[test]
fn log_level_names_ignore_case() {
    assert_eq!(parse_log_level(b"trace"), (LogLevelFilter::Trace, true));
    assert_eq!(parse_log_level(b"DEBUG"), (LogLevelFilter::Debug, true));
    assert_eq!(parse_log_level(b"WaRn"), (LogLevelFilter::Warn, true));
    assert_eq!(parse_log_level(b"error"), (LogLevelFilter::Error, true));
    assert_eq!(parse_log_level(b"Off"), (LogLevelFilter::Off, true));
    assert_eq!(parse_log_level(b"info"), (LogLevelFilter::Info, true));
    assert_eq!(parse_log_level(b"verbose"), (LogLevelFilter::Info, false));
    assert_eq!(parse_log_level(b""), (LogLevelFilter::Info, false));
}

#[test]
fn log_level_argument_of_the_command_line() {
    let line = b"console=ttyS0 ostd.log_level=debug quiet";
    let (v, e) = log_level_value(line).unwrap();
    assert_eq!(&line[v..e], b"debug");
    let line = b"ostd.log_level=a=b";
    let (v, e) = log_level_value(line).unwrap();
    assert_eq!(&line[v..e], b"b");
    let line = b"x ostd.log_level=warn ostd.log_level=trace";
    let (v, e) = log_level_value(line).unwrap();
    assert_eq!(&line[v..e], b"warn");
    assert_eq!(log_level_value(b"console=ttyS0 quiet"), None);
    assert_eq!(log_level_value(b"xostd.log_level=trace"), None);
    assert_eq!(log_level_value(b""), None);
}

#[test]
fn span_ids_count_up_from_one() {
    let mut ids = SpanIds::new();
    assert_eq!(ids.new_span_id(), 1);
    assert_eq!(ids.new_span_id(), 2);
    assert_eq!(ids.new_span_id(), 3);
}

#[test]
fn span_nesting_indents_and_restores_irqs() {
    let mut cpu = CpuState { irq_enabled: true, preempt_count: 0 };
    let mut indent = 0u64;
    enter_span(&mut indent, &mut cpu);
    enter_span(&mut indent, &mut cpu);
    assert_eq!(indent, 2);
    assert!(cpu.irq_enabled);
    assert_eq!(exit_span(&mut indent, &mut cpu), 1);
    assert_eq!(exit_span(&mut indent, &mut cpu), 0);
    assert_eq!(exit_span(&mut indent, &mut cpu), 0);
    assert!(cpu.irq_enabled);
    assert_eq!(indent_width(3), 6);
}

#[test]
fn core_main_loop_decisions() {
    let mut running = false;
    assert!(start_running(&mut running));
    assert!(!start_running(&mut running));
    assert_eq!(next_step(false, true, true), CoreStep::Shutdown);
    assert_eq!(next_step(true, true, false), CoreStep::Tick);
    assert_eq!(next_step(true, false, false), CoreStep::Shutdown);
    assert_eq!(next_step(true, false, true), CoreStep::WaitForInterrupt);
    assert!(tick_has_work(true, 0));
    assert!(tick_has_work(false, 3));
    assert!(!tick_has_work(false, 0));
    assert_eq!(steal_count(9), 4);
    assert_eq!(steal_count(10_000), 256);
    assert_eq!(steal_count(0), 0);
}
