use fedimint_core::task::{join_timeout, JoinReport, TaskOutcome};
use fedimint_core::time::{Duration, SystemTime};

fn at_millis(ms: u64) -> SystemTime {
    SystemTime::from_epoch_offset(Duration::from_millis(ms)).unwrap()
}

#[test]
fn join_timeout_is_time_left_until_deadline() {
    assert_eq!(join_timeout(None, at_millis(5)), None);
    assert_eq!(
        join_timeout(Some(at_millis(1_100)), at_millis(1_000)),
        Some(Duration::from_millis(100))
    );
}

#[test]
fn join_timeout_has_a_floor() {
    assert_eq!(
        join_timeout(Some(at_millis(1_000)), at_millis(2_000)),
        Some(Duration::from_millis(10))
    );
    assert_eq!(
        join_timeout(Some(at_millis(1_003)), at_millis(1_000)),
        Some(Duration::from_millis(10))
    );
}

#[test]
fn join_reports_one_timeout_and_no_failure() {
    // a 100ms deadline: one task finished after 10ms, one never finished
    let mut report = JoinReport::new();
    report.record("quick".to_string(), TaskOutcome::Finished);
    report.record("stuck".to_string(), TaskOutcome::TimedOut);
    assert_eq!(report.timeouts, vec!["stuck".to_string()]);
    assert!(report.errors.is_empty());
    assert_eq!(report.finished, vec!["quick".to_string()]);
}

#[test]
fn join_collects_failures_without_stopping() {
    let mut report = JoinReport::new();
    report.record("a".to_string(), TaskOutcome::Failed("panicked".to_string()));
    report.record("b".to_string(), TaskOutcome::Finished);
    assert_eq!(report.errors, vec![("a".to_string(), "panicked".to_string())]);
    assert_eq!(report.finished.len(), 1);
}
