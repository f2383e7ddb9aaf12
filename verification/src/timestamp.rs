//! Amortized wall-clock reads: a cache that performs one real clock read per
//! refresh interval of calls and serves the cached value in between. Trade
//! ordering within a partition is defined by match order, not by the stamp,
//! so the staleness of up to one interval is acceptable.

use std::time::{SystemTime, UNIX_EPOCH};
use vstd::prelude::*;

verus! {

/// Relies on `std::time::SystemTime::now` and `duration_since(UNIX_EPOCH)`:
/// nanoseconds since the epoch, or zero before it. The value depends on the
/// clock, so nothing is promised of it.
#[verifier::external_body]
fn clock_now_nanos() -> (r: u64)
    ensures
        true,
{
    SystemTime::now().duration_since(UNIX_EPOCH).unwrap_or_default().as_nanos() as u64
}

/// Wall-clock cache: one real read per `interval` calls.
pub struct TimestampCache {
    cached: u64,
    counter: u32,
    interval: u32,
}

impl TimestampCache {
    /// The cached nanosecond stamp.
    pub closed spec fn spec_cached(&self) -> u64 {
        self.cached
    }

    /// Calls served from the cache since the last real read.
    pub closed spec fn spec_counter(&self) -> u32 {
        self.counter
    }

    /// Calls between real clock reads.
    pub closed spec fn spec_interval(&self) -> u32 {
        self.interval
    }

    /// A cache that reads the clock on its first call and then once per
    /// `interval` calls.
    pub fn new(interval: u32) -> (r: TimestampCache)
        requires
            interval >= 1,
        ensures
            r.spec_interval() == interval,
            r.spec_counter() == interval,
            r.spec_cached() == 0,
    {
        TimestampCache { cached: 0, counter: interval, interval }
    }

    /// The fast path: returns the cached stamp and counts the call; after
    /// `interval` cached calls it performs a real read, publishes it and
    /// resets the counter.
    pub fn fast_timestamp(&mut self) -> (r: u64)
        ensures
            final(self).spec_interval() == old(self).spec_interval(),
            (if old(self).spec_counter() >= old(self).spec_interval() {
                final(self).spec_counter() == 0 && r == final(self).spec_cached()
            } else {
                final(self).spec_counter() == old(self).spec_counter() + 1 && r == old(
                    self,
                ).spec_cached() && final(self).spec_cached() == old(self).spec_cached()
            }),
    {
        if self.counter >= self.interval {
            let now = clock_now_nanos();
            self.cached = now;
            self.counter = 0;
            now
        } else {
            self.counter = self.counter + 1;
            self.cached
        }
    }

    /// A real clock read, bypassing the cache and leaving it untouched.
    pub fn precise_timestamp(&self) -> (r: u64)
        ensures
            true,
    {
        clock_now_nanos()
    }

    /// Forces a real read into the cache and resets the counter.
    pub fn force_update(&mut self)
        ensures
            final(self).spec_interval() == old(self).spec_interval(),
            final(self).spec_counter() == 0,
    {
        let now = clock_now_nanos();
        self.cached = now;
        self.counter = 0;
    }
}

} // verus!
