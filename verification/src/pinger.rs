//! The per-target ping loop's decisions: when to send, how to keep the
//! cadence while paused, and when to stop.
//!
//! The loop itself runs on the async runtime outside this crate; each
//! tick it hands the current state to [`PingerSchedule::on_tick`] and
//! performs the action decided here.

use vstd::prelude::*;

verus! {

/// How often a pinger wakes at least, in microseconds (5 Hz), so that
/// the quit flag is polled promptly even under long intervals.
pub const DEFAULT_TICK_US: u64 = 200_000;

/// What a pinger does on a tick.
#[derive(Clone, Copy, Debug, PartialEq, Eq, Structural)]
pub enum TickAction {
    /// The quit flag is set: leave the loop.
    Quit,
    /// Nothing to do on this tick.
    Skip,
    /// Dispatch one echo request now.
    Send,
}

/// The cadence state of one pinger: the ping interval and the next
/// scheduled dispatch time, microseconds on the engine's clock.
#[derive(Clone, Copy, Debug, PartialEq, Eq, Structural)]
pub struct PingerSchedule {
    /// Interval between pings, in microseconds.
    pub interval_us: u64,
    /// Next scheduled dispatch time.
    pub next_ping_at: u64,
}

impl PingerSchedule {
    /// A schedule that sends at once and then every `interval_us`.
    pub fn new(interval_us: u64, now: u64) -> (r: Self)
        ensures
            r.interval_us == interval_us,
            r.next_ping_at == now,
    {
        Self { interval_us, next_ping_at: now }
    }

    /// A schedule together with a fresh random echo identifier for
    /// demultiplexing this pinger's replies.
    pub fn new_with_id(interval_us: u64, now: u64) -> (r: (Self, u16))
        ensures
            r.0.interval_us == interval_us,
            r.0.next_ping_at == now,
    {
        (Self { interval_us, next_ping_at: now }, random_identifier())
    }

    /// Decide what to do on a tick. While quit is set the loop leaves.
    /// While paused, nothing is sent and the next dispatch is moved to
    /// `now`, so no backlog builds up and the first send after a resume
    /// comes within one interval. Otherwise a send is due exactly when
    /// `now` has reached the scheduled time, and the schedule advances
    /// by one interval.
    pub fn on_tick(&mut self, quit: bool, paused: bool, now: u64) -> (r: TickAction)
        requires
            old(self).next_ping_at <= u64::MAX - old(self).interval_us,
        ensures
            final(self).interval_us == old(self).interval_us,
            quit ==> r == TickAction::Quit && *final(self) == *old(self),
            !quit && paused ==> r == TickAction::Skip && final(self).next_ping_at == now,
            !quit && !paused && now < old(self).next_ping_at ==> r == TickAction::Skip
                && *final(self) == *old(self),
            !quit && !paused && now >= old(self).next_ping_at ==> r == TickAction::Send
                && final(self).next_ping_at == old(self).next_ping_at + old(self).interval_us,
    {
        if quit {
            return TickAction::Quit;
        }
        if paused {
            self.next_ping_at = now;
            return TickAction::Skip;
        }
        if now < self.next_ping_at {
            return TickAction::Skip;
        }
        self.next_ping_at = self.next_ping_at + self.interval_us;
        TickAction::Send
    }
}

/// The period a pinger's ticker runs at: the ping interval, but at most
/// `DEFAULT_TICK_US`, so quit and pause are noticed promptly.
pub fn tick_period_us(interval_us: u64) -> (r: u64)
    ensures
        r == if interval_us < DEFAULT_TICK_US {
            interval_us
        } else {
            DEFAULT_TICK_US
        },
{
    if interval_us < DEFAULT_TICK_US {
        interval_us
    } else {
        DEFAULT_TICK_US
    }
}

/// Overwrite the first `n` bytes of the payload with fresh random bytes;
/// the rest, and the length, stay as they were.
pub fn randomize_prefix(payload: &mut Vec<u8>, n: usize)
    requires
        n <= old(payload).len(),
    ensures
        final(payload)@.len() == old(payload)@.len(),
        forall|i: int| n <= i < final(payload)@.len() ==> final(payload)@[i] == old(payload)@[i],
{
    fill_random_prefix(payload, n);
}

/// Relies on rand::fill: fills exactly the given prefix slice with
/// random bytes, leaving the rest of the buffer and its length alone.
#[verifier::external_body]
fn fill_random_prefix(payload: &mut Vec<u8>, n: usize)
    requires
        n <= old(payload).len(),
    ensures
        final(payload)@.len() == old(payload)@.len(),
        forall|i: int| n <= i < final(payload)@.len() ==> final(payload)@[i] == old(payload)@[i],
{
    rand::fill(&mut payload[..n]);
}

/// Relies on rand::random: a fresh 16-bit identifier; nothing is assumed
/// about its value.
#[verifier::external_body]
fn random_identifier() -> u16 {
    rand::random()
}

} // verus!
