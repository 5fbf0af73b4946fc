use autoclaw::tick::{parse_counter, tick_step, ContextUsage, TickAction};

/// The usage that a transcript of 5000 input tokens in a window of 200000 gives: 2%, under
/// a threshold of 85.
fn light() -> Option<ContextUsage> {
    Some(ContextUsage { used_pct: 2, should_extract: false })
}

/// The usage that a transcript of 178000 input tokens in a window of 200000 gives: 89%, past
/// a threshold of 85.
fn heavy() -> Option<ContextUsage> {
    Some(ContextUsage { used_pct: 89, should_extract: true })
}

#[test]
fn test_tick_no_action_below_threshold() {
    let result = tick_step(parse_counter(""), light(), 20);
    assert_eq!(result.action, TickAction::Idle);
    assert_eq!(result.counter, 1);
}

#[test]
fn test_tick_increments_counter() {
    let first = tick_step(0, light(), 20);
    let result = tick_step(first.counter, light(), 20);
    assert_eq!(result.counter, 2);
    let result = tick_step(result.counter, light(), 20);
    assert_eq!(result.counter, 3);
}

#[test]
fn test_tick_triggers_snapshot_at_interval() {
    let result = tick_step(parse_counter("19"), light(), 20);
    assert_eq!(result.action, TickAction::Snapshot);
    assert_eq!(result.counter, 0);
    let result = tick_step(result.counter, light(), 20);
    assert_eq!(result.action, TickAction::Idle);
    assert_eq!(result.counter, 1);
}

#[test]
fn test_tick_triggers_extract_at_threshold() {
    let result = tick_step(0, heavy(), 20);
    assert_eq!(result.action, TickAction::Extract);
    assert_eq!(result.used_pct, 89);
    assert_eq!(result.counter, 0);
}

#[test]
fn test_tick_extract_takes_priority_over_snapshot() {
    let result = tick_step(parse_counter("19"), heavy(), 20);
    assert_eq!(result.action, TickAction::Extract);
}

#[test]
fn test_tick_handles_missing_counter_file() {
    let result = tick_step(0, light(), 20);
    assert_eq!(result.action, TickAction::Idle);
    assert_eq!(result.counter, 1);
}

#[test]
fn tick_without_usage_reports_zero() {
    let r = tick_step(3, None, 20);
    assert_eq!(r.action, TickAction::Idle);
    assert_eq!(r.counter, 4);
    assert_eq!(r.used_pct, 0);
}

#[test]
fn counter_parsing() {
    assert_eq!(parse_counter("19"), 19);
    assert_eq!(parse_counter(" 7\n"), 7);
    assert_eq!(parse_counter("+5"), 5);
    assert_eq!(parse_counter(""), 0);
    assert_eq!(parse_counter("abc"), 0);
    assert_eq!(parse_counter("-3"), 0);
    assert_eq!(parse_counter("18446744073709551615"), u64::MAX);
    assert_eq!(parse_counter("18446744073709551616"), 0);
}
