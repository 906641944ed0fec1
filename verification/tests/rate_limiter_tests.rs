use aegis_link::rate_limiter::{
    RateLimiter, EVENT_RATE_LIMIT, MAX_STRIKES, POSITION_RATE_LIMIT, WINDOW_NANOS,
};
use std::time::Instant;

const MS: u128 = 1_000_000;

#[test]
fn limits_and_strikes_within_a_window() {
    let mut r = RateLimiter::new(2);
    assert!(r.count_packet(0));
    assert!(r.count_packet(0));
    assert_eq!(r.strikes(), 0);
    assert!(!r.count_packet(0));
    assert_eq!(r.strikes(), 1);
    assert!(!r.count_packet(0));
    assert_eq!(r.strikes(), 2);
}

#[test]
fn three_packets_within_200_ms_against_a_limit_of_two() {
    let mut r = RateLimiter::starting_at(2, Instant::now());
    let got = [r.count_packet(0), r.count_packet(100 * MS), r.count_packet(200 * MS)];
    assert_eq!(got, [true, true, false]);
    assert_eq!(r.strikes(), 1);
}

#[test]
fn the_window_slides_with_each_packet() {
    let mut r = RateLimiter::new(1);
    assert!(r.count_packet(900 * MS));
    // 200 ms later, across a whole-second boundary: still within one second.
    assert!(!r.count_packet(1100 * MS));
    assert_eq!(r.strikes(), 1);
    // Exactly one second after the allowed packet: it has left the window.
    assert!(r.count_packet(900 * MS + WINDOW_NANOS));
    assert!(!r.count_packet(900 * MS + WINDOW_NANOS + 999 * MS));
    assert_eq!(r.strikes(), 2);
}

#[test]
fn older_packets_leave_the_window_one_by_one() {
    let mut r = RateLimiter::new(2);
    assert!(r.count_packet(0));
    assert!(r.count_packet(500 * MS));
    assert!(!r.count_packet(900 * MS));
    // The first allowed packet has left, the second has not.
    assert!(r.count_packet(1000 * MS));
    assert!(!r.count_packet(1400 * MS));
    assert!(r.count_packet(1500 * MS));
    assert_eq!(r.strikes(), 2);
}

#[test]
fn a_quiet_second_empties_the_window_whatever_came_before() {
    let mut r = RateLimiter::new(3);
    for _ in 0..10 {
        r.count_packet(0);
    }
    assert_eq!(r.strikes(), 7);
    assert!(r.count_packet(5 * WINDOW_NANOS));
    assert!(r.count_packet(5 * WINDOW_NANOS));
    assert!(r.count_packet(5 * WINDOW_NANOS));
    assert!(!r.count_packet(5 * WINDOW_NANOS));
    assert_eq!(r.strikes(), 8);
}

#[test]
fn refused_packets_do_not_fill_the_window() {
    let mut r = RateLimiter::new(1);
    assert!(r.count_packet(0));
    for k in 1..10u128 {
        assert!(!r.count_packet(k * 100 * MS - 1));
    }
    assert!(r.count_packet(WINDOW_NANOS));
}

#[test]
fn allow_lets_a_burst_under_the_limit_through() {
    let mut r = RateLimiter::new(POSITION_RATE_LIMIT);
    for _ in 0..POSITION_RATE_LIMIT {
        assert!(r.allow());
    }
    assert_eq!(r.strikes(), 0);
}

#[test]
fn allow_refuses_past_a_small_limit_at_once() {
    let mut r = RateLimiter::new(2);
    assert!(r.allow());
    assert!(r.allow());
    assert!(!r.allow());
    assert_eq!(r.strikes(), 1);
}

#[test]
fn zero_limit_refuses_everything() {
    let mut r = RateLimiter::starting_at(0, Instant::now());
    assert!(!r.count_packet(0));
    assert!(!r.count_packet(3 * WINDOW_NANOS));
    assert_eq!(r.strikes(), 2);
}

#[test]
fn documented_limits() {
    assert_eq!(POSITION_RATE_LIMIT, 120);
    assert_eq!(EVENT_RATE_LIMIT, 20);
    assert_eq!(MAX_STRIKES, 3);
    assert_eq!(WINDOW_NANOS, 1_000_000_000);
}
