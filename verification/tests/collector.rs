use porcupine_rs::checker::{Collector, Next};
use porcupine_rs::CheckResult;

#[test]
fn collector_starts_unknown() {
    let c = Collector::new(3, false);
    assert_eq!(c.results, vec![CheckResult::Unknown; 3]);
    assert_eq!(c.received, 0);
    assert_eq!(c.verdict(), CheckResult::Unknown);
}

#[test]
fn collector_illegal_cancels_without_info() {
    let mut c = Collector::new(3, false);
    assert_eq!(c.on_result(1, CheckResult::Legal), Next { cancel: false, stop: false });
    assert_eq!(c.on_result(0, CheckResult::Illegal), Next { cancel: true, stop: true });
    assert_eq!(c.received, 2);
    assert_eq!(c.verdict(), CheckResult::Illegal);
}

#[test]
fn collector_illegal_keeps_waiting_with_info() {
    let mut c = Collector::new(2, true);
    assert_eq!(c.on_result(0, CheckResult::Illegal), Next { cancel: false, stop: false });
    assert_eq!(c.on_result(1, CheckResult::Legal), Next { cancel: false, stop: true });
    assert_eq!(c.verdict(), CheckResult::Illegal);
}

#[test]
fn collector_all_legal() {
    let mut c = Collector::new(2, false);
    c.on_result(1, CheckResult::Legal);
    assert_eq!(c.on_result(0, CheckResult::Legal), Next { cancel: false, stop: true });
    assert_eq!(c.verdict(), CheckResult::Legal);
}

#[test]
fn collector_timeout() {
    let mut c = Collector::new(2, false);
    c.on_result(0, CheckResult::Legal);
    assert_eq!(c.on_timeout(), Next { cancel: true, stop: true });
    assert_eq!(c.verdict(), CheckResult::Unknown);
    let with_info = Collector::new(2, true);
    assert_eq!(with_info.on_timeout(), Next { cancel: true, stop: false });
}
