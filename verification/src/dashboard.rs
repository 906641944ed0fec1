//! The dashboard's event log and the clock texts it shows.

use crate::clock::{elapsed_secs, unix_time_secs};
use crate::text::{decimal, digit_char, push_decimal, push_digit, string_from_chars};
use std::collections::VecDeque;
use std::time::Instant;
use vstd::prelude::*;

verus! {

/// The event log keeps at most this many entries, newest first.
pub const MAX_LOG_EVENTS: usize = 30usize;

/// The severity of a logged event.
#[derive(Debug, Clone, Copy, PartialEq, Eq, Structural)]
pub enum EventKind {
    Info,
    Warn,
}

/// Whether a typed character closes the dashboard: `q` or `Q`.
pub fn is_quit_key(c: char) -> (quit: bool)
    ensures
        quit == (c == 'q' || c == 'Q'),
{
    c == 'q' || c == 'Q'
}

/// One entry of the event log.
pub struct LogEvent {
    /// Wall-clock time of day, `HH:MM:SS`.
    pub time: String,
    pub kind: EventKind,
    pub message: String,
}

/// Adds `event` in front of the log (newest first) and drops the oldest entry
/// when the log then holds more than `MAX_LOG_EVENTS`.
pub fn record_event(events: &mut VecDeque<LogEvent>, event: LogEvent)
    ensures
        final(events)@ == if old(events)@.len() + 1 > MAX_LOG_EVENTS {
            (seq![event] + old(events)@).drop_last()
        } else {
            seq![event] + old(events)@
        },
{
    events.push_front(event);
    if events.len() > MAX_LOG_EVENTS {
        events.pop_back();
    }
}

/// The log never grows past its bound, and the newest entry comes first.
pub proof fn lemma_log_bounded(old_log: Seq<LogEvent>, event: LogEvent)
    requires
        old_log.len() <= MAX_LOG_EVENTS,
    ensures
        ({
            let new_log = if old_log.len() + 1 > MAX_LOG_EVENTS {
                (seq![event] + old_log).drop_last()
            } else {
                seq![event] + old_log
            };
            &&& new_log.len() <= MAX_LOG_EVENTS
            &&& new_log[0] == event
            &&& forall|i: int| 0 <= i < new_log.len() - 1 ==> new_log[i + 1] == old_log[i]
        }),
{
}

/// The decimal digits of `n`, padded with zeros to at least two.
pub open spec fn two_digits(n: nat) -> Seq<char> {
    if n < 10 {
        seq!['0', digit_char(n as int)]
    } else {
        decimal(n)
    }
}

/// `HH:MM:SS`, each part at least two digits.
pub open spec fn clock_text(h: nat, m: nat, s: nat) -> Seq<char> {
    two_digits(h) + seq![':'] + two_digits(m) + seq![':'] + two_digits(s)
}

/// The time of day (UTC) `secs` seconds after the Unix epoch.
pub open spec fn time_of_day_text(secs: nat) -> Seq<char> {
    clock_text((secs / 3600) % 24, (secs / 60) % 60, secs % 60)
}

/// A duration of `secs` seconds as hours, minutes and seconds.
pub open spec fn duration_text(secs: nat) -> Seq<char> {
    clock_text(secs / 3600, (secs / 60) % 60, secs % 60)
}

fn push_two_digits(out: &mut Vec<char>, n: u64)
    ensures
        final(out)@ == old(out)@ + two_digits(n as nat),
{
    if n < 10 {
        out.push('0');
        push_digit(out, n);
        assert(out@ =~= old(out)@ + two_digits(n as nat));
    } else {
        push_decimal(out, n);
    }
}

/// `HH:MM:SS` from its three parts, each at least two digits.
pub fn clock_string(h: u64, m: u64, s: u64) -> (text: String)
    ensures
        text@ == clock_text(h as nat, m as nat, s as nat),
{
    let mut out: Vec<char> = Vec::new();
    push_two_digits(&mut out, h);
    out.push(':');
    push_two_digits(&mut out, m);
    out.push(':');
    push_two_digits(&mut out, s);
    assert(out@ =~= clock_text(h as nat, m as nat, s as nat));
    string_from_chars(out)
}

/// The time of day (UTC), `HH:MM:SS`, `secs` seconds after the Unix epoch.
pub fn time_of_day_string(secs: u64) -> (text: String)
    ensures
        text@ == time_of_day_text(secs as nat),
{
    clock_string((secs / 3600) % 24, (secs / 60) % 60, secs % 60)
}

/// A duration of `secs` seconds as `HH:MM:SS`, hours unbounded.
pub fn duration_string(secs: u64) -> (text: String)
    ensures
        text@ == duration_text(secs as nat),
{
    clock_string(secs / 3600, (secs / 60) % 60, secs % 60)
}

/// The current time of day (UTC) by the system clock, `HH:MM:SS`.
pub fn wall_time() -> (text: String)
    ensures
        exists|secs: u64| text@ == time_of_day_text(secs as nat),
{
    let secs = unix_time_secs();
    time_of_day_string(secs)
}

/// The time elapsed since `start`, `HH:MM:SS`.
pub fn fmt_uptime(start: Instant) -> (text: String)
    ensures
        exists|secs: u64| text@ == duration_text(secs as nat),
{
    let secs = elapsed_secs(&start);
    duration_string(secs)
}

} // verus!
