use aegis_link::dashboard::{
    clock_string, duration_string, fmt_uptime, record_event, time_of_day_string, wall_time,
    EventKind, LogEvent, MAX_LOG_EVENTS,
};
use std::collections::VecDeque;
use std::time::Instant;

#[test]
fn clock_pads_to_two_digits() {
    assert_eq!(clock_string(1, 2, 3), "01:02:03");
    assert_eq!(clock_string(10, 59, 0), "10:59:00");
    assert_eq!(clock_string(123, 0, 9), "123:00:09");
}

#[test]
fn time_of_day_wraps_at_midnight() {
    assert_eq!(time_of_day_string(0), "00:00:00");
    assert_eq!(time_of_day_string(86400 + 3661), "01:01:01");
    assert_eq!(time_of_day_string(86399), "23:59:59");
}

#[test]
fn duration_does_not_wrap() {
    assert_eq!(duration_string(59), "00:00:59");
    assert_eq!(duration_string(360000), "100:00:00");
    assert_eq!(duration_string(u64::MAX), "5124095576030431:00:15");
}

#[test]
fn clocks_read_now() {
    let w = wall_time();
    assert_eq!(w.len(), 8);
    assert_eq!(&w[2..3], ":");
    assert_eq!(fmt_uptime(Instant::now()), "00:00:00");
}

fn ev(n: usize) -> LogEvent {
    LogEvent { time: "00:00:00".to_string(), kind: EventKind::Info, message: format!("m{n}") }
}

#[test]
fn log_keeps_newest_first_and_at_most_thirty() {
    let mut log = VecDeque::new();
    for n in 0..40 {
        record_event(&mut log, ev(n));
        assert!(log.len() <= MAX_LOG_EVENTS);
    }
    assert_eq!(log.len(), 30);
    assert_eq!(log[0].message, "m39");
    assert_eq!(log[29].message, "m10");
    assert!(matches!(log[0].kind, EventKind::Info));
}
