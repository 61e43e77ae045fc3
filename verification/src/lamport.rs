//! Lamport logical timestamps.
use std::cmp::Ordering;
use vstd::prelude::*;

verus! {

/// A Lamport timestamp: a plain logical time value.
pub type LamportTimestamp = u64;

/// A Lamport clock tracks logical time with simple increment rules.
#[derive(Debug)]
pub struct LamportClock {
    timestamp: LamportTimestamp,
}

impl View for LamportClock {
    type V = u64;

    /// The clock's current logical time.
    closed spec fn view(&self) -> u64 {
        self.timestamp
    }
}

/// The larger of two timestamps.
pub open spec fn max_ts(a: u64, b: u64) -> u64 {
    if a >= b {
        a
    } else {
        b
    }
}

/// `max_ts` is the larger of its two arguments: at least each of them, and
/// equal to one of them.
pub proof fn lemma_max_ts_is_larger(a: u64, b: u64)
    ensures
        max_ts(a, b) >= a,
        max_ts(a, b) >= b,
        max_ts(a, b) == a || max_ts(a, b) == b,
{
}

/// Receiving moves the clock to the earliest time later than both the local
/// time and the incoming stamp: one past the larger of the two.
pub proof fn lemma_receive_is_least_later_time(old_ts: u64, incoming: u64, new_ts: u64)
    requires
        new_ts == max_ts(old_ts, incoming) + 1,
    ensures
        new_ts > old_ts,
        new_ts > incoming,
        new_ts == old_ts + 1 || new_ts == incoming + 1,
{
}

impl Clone for LamportClock {
    fn clone(&self) -> (c: Self)
        ensures
            c@ == self@,
    {
        LamportClock { timestamp: self.timestamp }
    }
}

impl LamportClock {
    /// A clock at logical time zero.
    pub fn new() -> (c: Self)
        ensures
            c@ == 0,
    {
        LamportClock { timestamp: 0 }
    }

    /// Create with initial timestamp.
    pub fn with_timestamp(ts: LamportTimestamp) -> (c: Self)
        ensures
            c@ == ts,
    {
        LamportClock { timestamp: ts }
    }

    /// Get current timestamp.
    pub fn timestamp(&self) -> (ts: LamportTimestamp)
        ensures
            ts == self@,
    {
        self.timestamp
    }

    /// Increment before a local event; returns the new time.
    ///
    /// The time must have room to grow: at `u64::MAX` the addition would overflow.
    pub fn increment(&mut self) -> (ts: LamportTimestamp)
        requires
            old(self)@ < u64::MAX,
        ensures
            final(self)@ == old(self)@ + 1,
            ts == final(self)@,
    {
        self.timestamp = self.timestamp + 1;
        self.timestamp
    }

    /// Update on receiving a message: take max + 1.
    ///
    /// The new time is strictly later than both the local time and the
    /// incoming one.
    pub fn receive(&mut self, incoming: LamportTimestamp) -> (ts: LamportTimestamp)
        requires
            max_ts(old(self)@, incoming) < u64::MAX,
        ensures
            final(self)@ == max_ts(old(self)@, incoming) + 1,
            ts == final(self)@,
            ts > old(self)@,
            ts > incoming,
            ts == old(self)@ + 1 || ts == incoming + 1,
    {
        let m = if self.timestamp >= incoming {
            self.timestamp
        } else {
            incoming
        };
        self.timestamp = m + 1;
        self.timestamp
    }

    /// Get timestamp for sending a message (increment first).
    pub fn send(&mut self) -> (ts: LamportTimestamp)
        requires
            old(self)@ < u64::MAX,
        ensures
            final(self)@ == old(self)@ + 1,
            ts == final(self)@,
    {
        self.increment()
    }

    /// Order two clocks by their timestamps.
    pub fn compare(&self, other: &LamportClock) -> (r: Ordering)
        ensures
            (r == Ordering::Less) == (self@ < other@),
            (r == Ordering::Equal) == (self@ == other@),
            (r == Ordering::Greater) == (self@ > other@),
    {
        if self.timestamp < other.timestamp {
            Ordering::Less
        } else if self.timestamp == other.timestamp {
            Ordering::Equal
        } else {
            Ordering::Greater
        }
    }
}

impl Default for LamportClock {
    fn default() -> (c: Self)
        ensures
            c@ == 0,
    {
        Self::new()
    }
}

} // verus!
