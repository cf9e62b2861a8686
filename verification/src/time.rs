//! Points in time and lengths of time, counted in microseconds.

use vstd::prelude::*;
use vstd::std_specs::ops::{AddSpecImpl, MulSpecImpl};

verus! {

/// A point in time, in microseconds from an arbitrary origin.
#[derive(Debug, Clone, Copy, PartialEq, Eq, PartialOrd, Ord, Hash, Structural)]
pub struct Instant {
    pub micros: i64,
}

/// A length of time, in microseconds.
#[derive(Debug, Clone, Copy, PartialEq, Eq, PartialOrd, Ord, Hash, Structural)]
pub struct Duration {
    pub micros: u64,
}

impl Instant {
    /// The origin.
    pub fn zero() -> (r: Instant)
        ensures
            r.micros == 0,
    {
        Instant { micros: 0 }
    }

    /// The point that is `millis` milliseconds after the origin.
    pub fn from_millis(millis: i64) -> (r: Instant)
        requires
            i64::MIN <= millis * 1000 <= i64::MAX,
        ensures
            r.micros == millis * 1000,
    {
        Instant { micros: millis * 1000 }
    }

    /// The point that is `secs` seconds after the origin.
    pub fn from_secs(secs: i64) -> (r: Instant)
        requires
            i64::MIN <= secs * 1000000 <= i64::MAX,
        ensures
            r.micros == secs * 1000000,
    {
        Instant { micros: secs * 1000000 }
    }

    /// Whether `self + d` is a point in time that can be represented.
    pub open spec fn can_add(self, d: Duration) -> bool {
        self.micros + d.micros <= i64::MAX
    }

    /// The point that is `d` after this one.
    pub open spec fn after(self, d: Duration) -> Instant {
        Instant { micros: (self.micros + d.micros) as i64 }
    }
}

impl AddSpecImpl<Duration> for Instant {
    open spec fn obeys_add_spec() -> bool {
        true
    }

    open spec fn add_req(self, rhs: Duration) -> bool {
        self.can_add(rhs)
    }

    open spec fn add_spec(self, rhs: Duration) -> Instant {
        self.after(rhs)
    }
}

impl core::ops::Add<Duration> for Instant {
    type Output = Instant;

    fn add(self, rhs: Duration) -> (r: Instant) {
        let sum: i128 = self.micros as i128 + rhs.micros as i128;
        Instant { micros: sum as i64 }
    }
}

impl Duration {
    /// No time at all.
    pub fn zero() -> (r: Duration)
        ensures
            r.micros == 0,
    {
        Duration { micros: 0 }
    }

    /// A length of `millis` milliseconds.
    pub fn from_millis(millis: u64) -> (r: Duration)
        requires
            millis * 1000 <= u64::MAX,
        ensures
            r.micros == millis * 1000,
    {
        Duration { micros: millis * 1000 }
    }

    /// A length of `secs` seconds.
    pub fn from_secs(secs: u64) -> (r: Duration)
        requires
            secs * 1000000 <= u64::MAX,
        ensures
            r.micros == secs * 1000000,
    {
        Duration { micros: secs * 1000000 }
    }

    /// The number of whole seconds in this length.
    pub fn secs(&self) -> (r: u64)
        ensures
            r == self.micros / 1000000,
    {
        self.micros / 1000000
    }

    /// The number of whole milliseconds in this length.
    pub fn total_millis(&self) -> (r: u64)
        ensures
            r == self.micros / 1000,
    {
        self.micros / 1000
    }

    /// This length, `n` times over.
    pub open spec fn times(self, n: u32) -> Duration {
        Duration { micros: (self.micros * n) as u64 }
    }
}

impl MulSpecImpl<u32> for Duration {
    open spec fn obeys_mul_spec() -> bool {
        true
    }

    open spec fn mul_req(self, rhs: u32) -> bool {
        self.micros * rhs <= u64::MAX
    }

    open spec fn mul_spec(self, rhs: u32) -> Duration {
        self.times(rhs)
    }
}

impl core::ops::Mul<u32> for Duration {
    type Output = Duration;

    fn mul(self, rhs: u32) -> (r: Duration) {
        Duration { micros: self.micros * rhs as u64 }
    }
}

} // verus!
