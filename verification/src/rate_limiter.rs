//! Per-client packet rate limiting: a sliding one-second window over the
//! times of the packets allowed, with a strike for every packet refused.

use crate::clock::{elapsed_nanos, instant_now};
use std::time::Instant;
use vstd::prelude::*;

verus! {

/// PlayerPosition packets allowed per second.
pub const POSITION_RATE_LIMIT: u32 = 120u32;

/// GameEvent / ChatMessages packets allowed per second.
pub const EVENT_RATE_LIMIT: u32 = 20u32;

/// A client is kicked once it has this many strikes.
pub const MAX_STRIKES: u8 = 3u8;

/// The window's length: one second, in nanoseconds.
pub const WINDOW_NANOS: u128 = 1000000000u128;

/// The counting state of a limiter. Times are nanoseconds on the limiter's
/// own clock.
pub struct RateModel {
    /// The times of the allowed packets that the window still holds, in the
    /// order they came.
    pub recent: Seq<u128>,
    /// Packets allowed within any one second.
    pub max_per_sec: nat,
    /// Packets refused so far.
    pub strikes: nat,
}

/// Whether a packet allowed at time `t` lies within the one second that ends
/// at `now`.
pub open spec fn in_window(now: u128) -> spec_fn(u128) -> bool {
    |t: u128| now < t + WINDOW_NANOS
}

/// One packet counted at time `now`: the allowed packets a second or more
/// older than it leave the window; it is allowed when fewer than the limit
/// remain, and joins them, and costs a strike otherwise. Gives whether it is
/// allowed and the state after.
pub open spec fn rate_step(m: RateModel, now: u128) -> (bool, RateModel) {
    let kept = m.recent.filter(in_window(now));
    if kept.len() < m.max_per_sec {
        (true, RateModel { recent: kept.push(now), ..m })
    } else {
        (false, RateModel { recent: kept, strikes: m.strikes + 1, ..m })
    }
}

/// Packets counted one after another at the given times: whether each is
/// allowed, and the state after them.
pub open spec fn count_run(m: RateModel, times: Seq<u128>) -> (Seq<bool>, RateModel)
    decreases times.len(),
{
    if times.len() == 0 {
        (seq![], m)
    } else {
        let (oks, before) = count_run(m, times.drop_last());
        let (ok, after) = rate_step(before, times.last());
        (oks.push(ok), after)
    }
}

/// A limiter's state with no packet counted yet.
pub open spec fn fresh_model(max_per_sec: u32) -> RateModel {
    RateModel { recent: seq![], max_per_sec: max_per_sec as nat, strikes: 0 }
}

/// Whether a packet counted at `now` leaves the strike count within `u8`.
pub open spec fn can_count_at(m: RateModel, now: u128) -> bool {
    rate_step(m, now).0 || m.strikes < u8::MAX
}

/// Whether a packet counted at any time leaves the strike count within `u8`:
/// a strike is still free, or the window holds fewer packets than the limit,
/// so that the packet is allowed.
pub open spec fn can_count(m: RateModel) -> bool {
    m.strikes < u8::MAX || m.recent.len() < m.max_per_sec
}

/// A packet limiter over a sliding one-second window, with a strike count.
/// It reads time as the nanoseconds elapsed since its epoch.
pub struct RateLimiter {
    epoch: Instant,
    recent: Vec<u128>,
    max_per_sec: u32,
    strikes: u8,
}

impl View for RateLimiter {
    type V = RateModel;

    closed spec fn view(&self) -> RateModel {
        RateModel {
            recent: self.recent@,
            max_per_sec: self.max_per_sec as nat,
            strikes: self.strikes as nat,
        }
    }
}

impl RateLimiter {
    /// The limiter's numbers fit their integer types.
    pub proof fn lemma_view_bounds(&self)
        ensures
            self@.max_per_sec <= u32::MAX,
            self@.strikes <= u8::MAX,
    {
    }

    /// The instant the limiter's clock counts from.
    pub closed spec fn epoch(&self) -> Instant {
        self.epoch
    }

    /// Packets refused so far.
    pub fn strikes(&self) -> (s: u8)
        ensures
            s == self@.strikes,
    {
        self.strikes
    }

    /// A limiter allowing `max_per_sec` packets within any one second, with
    /// nothing counted yet and no strikes, whose clock counts from `epoch`.
    pub fn starting_at(max_per_sec: u32, epoch: Instant) -> (r: Self)
        ensures
            r@ == fresh_model(max_per_sec),
            r.epoch() == epoch,
    {
        RateLimiter { epoch, recent: Vec::new(), max_per_sec, strikes: 0 }
    }

    /// A limiter allowing `max_per_sec` packets within any one second, with
    /// nothing counted yet and no strikes, whose clock counts from now.
    pub fn new(max_per_sec: u32) -> (r: Self)
        ensures
            r@ == fresh_model(max_per_sec),
    {
        RateLimiter::starting_at(max_per_sec, instant_now())
    }

    /// The time now on the limiter's clock: nanoseconds elapsed since its
    /// epoch, by the monotonic clock. Nothing is stated of it: it is the time.
    pub fn clock(&self) -> u128 {
        elapsed_nanos(&self.epoch)
    }

    /// Counts one packet that comes at time `now` on the limiter's clock, as
    /// `rate_step` says: the allowed packets a second or more older leave the
    /// window, and the packet is allowed when fewer than the limit remain.
    pub fn count_packet(&mut self, now: u128) -> (allowed: bool)
        requires
            can_count_at(old(self)@, now),
        ensures
            (allowed, final(self)@) == rate_step(old(self)@, now),
            final(self).epoch() == old(self).epoch(),
    {
        let mut kept: Vec<u128> = Vec::new();
        let mut i: usize = 0;
        while i < self.recent.len()
            invariant
                i <= self.recent@.len(),
                kept@ == self.recent@.take(i as int).filter(in_window(now)),
            decreases self.recent@.len() - i,
        {
            let t = self.recent[i];
            proof {
                assert(self.recent@.take(i as int + 1) =~= self.recent@.take(i as int).push(t));
                self.recent@.take(i as int).lemma_filter_push(t, in_window(now));
            }
            if t >= now || now - t < WINDOW_NANOS {
                kept.push(t);
            }
            i = i + 1;
        }
        proof {
            assert(self.recent@.take(self.recent@.len() as int) =~= self.recent@);
        }
        let allowed = kept.len() < self.max_per_sec as usize;
        if allowed {
            kept.push(now);
        } else {
            self.strikes = self.strikes + 1;
        }
        self.recent = kept;
        allowed
    }

    /// Counts one packet now, by the monotonic clock: see `count_packet`,
    /// with the time read from the limiter's clock.
    pub fn allow(&mut self) -> (allowed: bool)
        requires
            can_count(old(self)@),
        ensures
            exists|now: u128| #[trigger] rate_step(old(self)@, now) == (allowed, final(self)@),
            final(self).epoch() == old(self).epoch(),
    {
        let now = self.clock();
        proof {
            self@.recent.lemma_filter_len(in_window(now));
        }
        self.count_packet(now)
    }
}

/// Whether times never go back.
pub open spec fn nondecreasing(times: Seq<u128>) -> bool {
    forall|i: int, j: int| 0 <= i <= j < times.len() ==> times[i] <= times[j]
}

/// How many of the packets at `times` that `oks` marks allowed came within
/// the one second that starts at `a`: at `a` or later, and before `a` plus a
/// second.
pub open spec fn allowed_in_second(times: Seq<u128>, oks: Seq<bool>, a: int) -> nat
    decreases times.len(),
{
    if times.len() == 0 {
        0
    } else {
        allowed_in_second(times.drop_last(), oks.drop_last(), a) + if oks.last() && a
            <= times.last() < a + WINDOW_NANOS {
            1nat
        } else {
            0nat
        }
    }
}

/// How many packets `oks` marks refused.
pub open spec fn refusals(oks: Seq<bool>) -> nat
    decreases oks.len(),
{
    if oks.len() == 0 {
        0
    } else {
        refusals(oks.drop_last()) + if oks.last() {
            0nat
        } else {
            1nat
        }
    }
}

/// Whether a time is `a` or later.
pub open spec fn at_least(a: int) -> spec_fn(u128) -> bool {
    |t: u128| a <= t
}

/// Filtering by `p` first changes nothing of a filter by `q` that only lets
/// through what `p` lets through.
proof fn lemma_filter_implied(s: Seq<u128>, p: spec_fn(u128) -> bool, q: spec_fn(u128) -> bool)
    requires
        forall|t: u128| #[trigger] q(t) ==> p(t),
    ensures
        s.filter(p).filter(q) == s.filter(q),
    decreases s.len(),
{
    if s.len() > 0 {
        let init = s.drop_last();
        let t = s.last();
        lemma_filter_implied(init, p, q);
        assert(init.push(t) =~= s);
        init.lemma_filter_push(t, p);
        init.lemma_filter_push(t, q);
        init.filter(p).lemma_filter_push(t, q);
    }
}

/// What a run from an empty window keeps: no one-second span holds more
/// allowed packets than the limit, the window holds no more than the limit,
/// and a span that reaches past the last time holds no more allowed packets
/// than the window does at or after its start.
proof fn lemma_run_window(m: RateModel, times: Seq<u128>)
    requires
        m.recent.len() == 0,
        nondecreasing(times),
    ensures
        count_run(m, times).0.len() == times.len(),
        count_run(m, times).1.max_per_sec == m.max_per_sec,
        count_run(m, times).1.recent.len() <= m.max_per_sec,
        forall|a: int| #[trigger] allowed_in_second(times, count_run(m, times).0, a) <= m.max_per_sec,
        times.len() > 0 ==> forall|a: int|
            a + WINDOW_NANOS > times.last() ==> #[trigger] allowed_in_second(
                times,
                count_run(m, times).0,
                a,
            ) <= count_run(m, times).1.recent.filter(at_least(a)).len(),
    decreases times.len(),
{
    if times.len() > 0 {
        let init = times.drop_last();
        let t = times.last();
        assert forall|i: int, j: int| 0 <= i <= j < init.len() implies init[i] <= init[j] by {
            assert(init[i] == times[i] && init[j] == times[j]);
        }
        lemma_run_window(m, init);
        let (oks0, before) = count_run(m, init);
        let kept = before.recent.filter(in_window(t));
        before.recent.lemma_filter_len(in_window(t));
        let (ok, after) = rate_step(before, t);
        let oks = oks0.push(ok);
        assert(count_run(m, times) == (oks, after));
        assert(oks.drop_last() =~= oks0);
        assert(oks.last() == ok);
        assert forall|a: int| #[trigger] allowed_in_second(times, oks, a) == allowed_in_second(init, oks0, a)
            + if ok && a <= t < a + WINDOW_NANOS {
            1nat
        } else {
            0nat
        } by {}
        assert(after.recent.len() <= m.max_per_sec);
        assert forall|a: int| a + WINDOW_NANOS > t implies #[trigger] allowed_in_second(times, oks, a)
            <= after.recent.filter(at_least(a)).len() by {
            if init.len() > 0 {
                assert(init.last() == times[times.len() - 2]);
                assert(init.last() <= t);
                assert(allowed_in_second(init, oks0, a) <= before.recent.filter(at_least(a)).len());
                assert forall|x: u128| #[trigger] at_least(a)(x) implies in_window(t)(x) by {}
                lemma_filter_implied(before.recent, in_window(t), at_least(a));
            }
            assert(allowed_in_second(init, oks0, a) <= kept.filter(at_least(a)).len());
            if ok {
                kept.lemma_filter_push(t, at_least(a));
            }
        }
        assert forall|a: int| #[trigger] allowed_in_second(times, oks, a) <= m.max_per_sec by {
            if a + WINDOW_NANOS > t {
                after.recent.lemma_filter_len(at_least(a));
            } else {
                assert(allowed_in_second(init, oks0, a) <= m.max_per_sec);
            }
        }
    }
}

/// The sliding window: of packets counted at times that never go back, from
/// a limiter whose window is empty, no one second holds more allowed packets
/// than the limit.
pub proof fn lemma_sliding_window(m: RateModel, times: Seq<u128>)
    requires
        m.recent.len() == 0,
        nondecreasing(times),
    ensures
        forall|a: int| #[trigger] allowed_in_second(times, count_run(m, times).0, a) <= m.max_per_sec,
{
    lemma_run_window(m, times);
}

/// Within the first second: of `n` packets from a limiter whose window is
/// empty, all counted within one second starting at `start`, exactly the
/// first `max_per_sec` are allowed, and every further one costs a strike.
pub proof fn lemma_first_second(m: RateModel, times: Seq<u128>, start: u128)
    requires
        m.recent.len() == 0,
        forall|i: int| 0 <= i < times.len() ==> start <= #[trigger] times[i] < start + WINDOW_NANOS,
    ensures
        count_run(m, times).0.len() == times.len(),
        forall|i: int| 0 <= i < times.len() ==> #[trigger] count_run(m, times).0[i] == (i < m.max_per_sec),
        count_run(m, times).1.recent.len() == if times.len() <= m.max_per_sec {
            times.len()
        } else {
            m.max_per_sec
        },
        count_run(m, times).1.strikes == m.strikes + times.len() - count_run(m, times).1.recent.len(),
        count_run(m, times).1.max_per_sec == m.max_per_sec,
        forall|k: int| 0 <= k < count_run(m, times).1.recent.len() ==> start <= #[trigger] count_run(m, times).1.recent[k],
    decreases times.len(),
{
    if times.len() > 0 {
        let init = times.drop_last();
        let t = times.last();
        assert forall|i: int| 0 <= i < init.len() implies start <= #[trigger] init[i] < start + WINDOW_NANOS by {
            assert(init[i] == times[i]);
        }
        lemma_first_second(m, init, start);
        let (oks0, before) = count_run(m, init);
        assert(t == times[times.len() - 1]);
        assert forall|k: int| 0 <= k < before.recent.len() implies #[trigger] in_window(t)(before.recent[k]) by {
        }
        lemma_filter_keeps_all(before.recent, in_window(t));
        let (ok, after) = rate_step(before, t);
        assert(count_run(m, times) == (oks0.push(ok), after));
        assert forall|i: int| 0 <= i < times.len() implies #[trigger] oks0.push(ok)[i] == (i < m.max_per_sec) by {
            if i < init.len() {
                assert(oks0.push(ok)[i] == oks0[i]);
            }
        }
    }
}

/// A filter that lets everything through changes nothing.
proof fn lemma_filter_keeps_all(s: Seq<u128>, p: spec_fn(u128) -> bool)
    requires
        forall|k: int| 0 <= k < s.len() ==> #[trigger] p(s[k]),
    ensures
        s.filter(p) == s,
    decreases s.len(),
{
    if s.len() > 0 {
        let init = s.drop_last();
        assert forall|k: int| 0 <= k < init.len() implies #[trigger] p(init[k]) by {
            assert(init[k] == s[k]);
        }
        lemma_filter_keeps_all(init, p);
        assert(p(s[s.len() - 1]));
        init.lemma_filter_push(s.last(), p);
        assert(init.push(s.last()) =~= s);
    }
}

/// A filter that lets nothing through leaves nothing.
proof fn lemma_filter_keeps_none(s: Seq<u128>, p: spec_fn(u128) -> bool)
    requires
        forall|k: int| 0 <= k < s.len() ==> !#[trigger] p(s[k]),
    ensures
        s.filter(p) == Seq::<u128>::empty(),
    decreases s.len(),
{
    if s.len() > 0 {
        let init = s.drop_last();
        assert forall|k: int| 0 <= k < init.len() implies !#[trigger] p(init[k]) by {
            assert(init[k] == s[k]);
        }
        lemma_filter_keeps_none(init, p);
        assert(!p(s[s.len() - 1]));
        init.lemma_filter_push(s.last(), p);
        assert(init.push(s.last()) =~= s);
    }
}

/// A packet a second or more after every packet the window holds finds the
/// window empty: it is allowed whenever the limit is at least one, is then
/// all the window holds, and costs no strike, whatever came before.
pub proof fn lemma_quiet_second_allows(m: RateModel, now: u128)
    requires
        m.max_per_sec >= 1,
        forall|k: int| 0 <= k < m.recent.len() ==> #[trigger] m.recent[k] + WINDOW_NANOS <= now,
    ensures
        rate_step(m, now) == (true, RateModel { recent: seq![now], ..m }),
{
    assert forall|k: int| 0 <= k < m.recent.len() implies !#[trigger] in_window(now)(m.recent[k]) by {
        assert(m.recent[k] + WINDOW_NANOS <= now);
    }
    lemma_filter_keeps_none(m.recent, in_window(now));
    assert(Seq::<u128>::empty().push(now) =~= seq![now]);
}

/// Strikes count the refusals: after a run, a limiter has one more strike
/// for every packet refused, and no other, so they never go down.
pub proof fn lemma_strikes_count_refusals(m: RateModel, times: Seq<u128>)
    ensures
        count_run(m, times).0.len() == times.len(),
        count_run(m, times).1.strikes == m.strikes + refusals(count_run(m, times).0),
    decreases times.len(),
{
    if times.len() > 0 {
        lemma_strikes_count_refusals(m, times.drop_last());
        let (oks0, before) = count_run(m, times.drop_last());
        let (ok, after) = rate_step(before, times.last());
        assert(oks0.push(ok).drop_last() =~= oks0);
    }
}

} // verus!
