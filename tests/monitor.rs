use netmon::monitor::{ExecutionMode, Monitor, Verdict};
use netmon::proc_net::unsupported_endpoints;

fn v(items: &[&str]) -> Vec<String> {
    items.iter().map(|s| s.to_string()).collect()
}

fn sorted(mut x: Vec<String>) -> Vec<String> {
    x.sort();
    x
}

#[test]
fn new_endpoints_are_current_minus_known() {
    let mut m = Monitor::new(ExecutionMode::Normal, 0);
    assert_eq!(sorted(m.poll(&v(&["1.1.1.1:80", "2.2.2.2:443"]))), v(&["1.1.1.1:80", "2.2.2.2:443"]));
    assert_eq!(m.poll(&v(&["2.2.2.2:443", "3.3.3.3:53"])), v(&["3.3.3.3:53"]));
    assert!(m.poll(&v(&["2.2.2.2:443", "3.3.3.3:53"])).is_empty());
    // 1.1.1.1:80 vanished at the second poll: it is new again when it returns.
    assert_eq!(m.poll(&v(&["1.1.1.1:80", "3.3.3.3:53"])), v(&["1.1.1.1:80"]));
}

#[test]
fn duplicate_entries_in_one_poll_are_reported_once() {
    let mut m = Monitor::new(ExecutionMode::Normal, 0);
    assert_eq!(m.poll(&v(&["9.9.9.9:53", "9.9.9.9:53"])), v(&["9.9.9.9:53"]));
}

#[test]
fn exit_first_kills_on_first_new_endpoint_and_ignores_later_ticks() {
    let mut m = Monitor::new(ExecutionMode::ExitFirst, 0);
    // Tick 1: nothing yet.
    assert!(m.poll(&v(&[])).is_empty());
    // Tick 2: one new endpoint.
    let fresh = m.poll(&v(&["10.0.0.1:443"]));
    assert_eq!(fresh, v(&["10.0.0.1:443"]));
    assert_eq!(m.on_connection("10.0.0.1:443", &Some("x.org".to_string())), Verdict::Kill);
    assert!(m.is_killed());
    // Tick 3 and later: nothing is processed any more.
    assert!(m.poll(&v(&["10.0.0.2:443", "10.0.0.3:80"])).is_empty());
    assert_eq!(m.on_connection("10.0.0.2:443", &None), Verdict::Ignored);
    assert_eq!(m.total_connections(), 1);
    assert_eq!(m.exit_code(Some(7)), 0);
}

#[test]
fn exit_first_drops_other_endpoints_of_the_same_tick() {
    let mut m = Monitor::new(ExecutionMode::ExitFirst, 0);
    let fresh = m.poll(&v(&["10.0.0.1:443", "10.0.0.2:443"]));
    assert_eq!(fresh.len(), 2);
    assert_eq!(m.on_connection(&fresh[0], &None), Verdict::Kill);
    assert_eq!(m.on_connection(&fresh[1], &None), Verdict::Ignored);
    assert_eq!(m.statistics().summary(0, 5).total, 1);
}

#[test]
fn block_and_continue_counts_every_new_endpoint() {
    let mut m = Monitor::new(ExecutionMode::BlockAndContinue, 0);
    let ticks = [v(&["1.1.1.1:80"]), v(&["1.1.1.1:80", "2.2.2.2:80"]), v(&[]), v(&["1.1.1.1:80"])];
    let mut events = 0;
    for t in ticks.iter() {
        for e in m.poll(t) {
            events += 1;
            assert_eq!(m.on_connection(&e, &None), Verdict::Blocked);
        }
    }
    assert_eq!(events, 3);
    assert_eq!(m.blocked_count(), 3);
    assert!(!m.is_killed());
    assert_eq!(m.exit_code(Some(0)), 0);
}

#[test]
fn normal_mode_reports_and_keeps_blocked_at_zero() {
    let mut m = Monitor::new(ExecutionMode::Normal, 0);
    for e in m.poll(&v(&["1.1.1.1:80"])) {
        assert_eq!(m.on_connection(&e, &None), Verdict::Reported);
    }
    assert_eq!(m.blocked_count(), 0);
    assert_eq!(m.total_connections(), 1);
}

#[test]
fn unsupported_platform_sees_nothing_and_drains_cleanly() {
    assert!(unsupported_endpoints(1234).is_empty());
    let mut m = Monitor::new(ExecutionMode::ExitFirst, 100);
    for _ in 0..5 {
        assert!(m.poll(&unsupported_endpoints(1234)).is_empty());
    }
    let s = m.statistics().summary(600, 5);
    assert_eq!(s.total, 0);
    assert_eq!(s.unique_ips, 0);
    assert_eq!(s.unique_domains, 0);
    assert_eq!(s.elapsed_ms, 500);
    assert!(!m.is_killed());
    assert_eq!(m.exit_code(Some(3)), 3);
}

#[test]
fn exit_code_defaults_to_failure_without_a_code() {
    let m = Monitor::new(ExecutionMode::Normal, 0);
    assert_eq!(m.exit_code(None), 1);
    assert_eq!(m.exit_code(Some(0)), 0);
    assert_eq!(m.exit_code(Some(2)), 2);
}

#[test]
fn exit_first_switch_wins_over_block() {
    assert_eq!(ExecutionMode::from_flags(true, true), ExecutionMode::ExitFirst);
    assert_eq!(ExecutionMode::from_flags(false, true), ExecutionMode::BlockAndContinue);
    assert_eq!(ExecutionMode::from_flags(false, false), ExecutionMode::Normal);
    assert_eq!(ExecutionMode::from_flags(true, false), ExecutionMode::ExitFirst);
}
