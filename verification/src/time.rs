//! Plain-value clocks: lengths of time and points in time, to the nanosecond.
//!
//! The library never reads a clock. Whoever records a span reads one and hands the reading in.

use vstd::prelude::*;

verus! {

/// A length of time.
#[derive(Debug, Clone, Copy, PartialEq, Eq, Structural)]
pub struct Duration {
    /// The whole length, in nanoseconds.
    pub nanos: u128,
}

/// A reading of the wall clock. Such a clock may be set back between two readings.
#[derive(Debug, Clone, Copy, PartialEq, Eq, Structural)]
pub struct SystemTime {
    /// Nanoseconds since the Unix epoch; negative before it.
    pub nanos: i128,
}

/// A reading of a steady clock.
#[derive(Debug, Clone, Copy, PartialEq, Eq, Structural)]
pub struct Instant {
    /// Nanoseconds since a point that all the readings of one run share.
    pub nanos: u128,
}

impl Duration {
    /// The number of whole microseconds in this length.
    pub open spec fn micros(self) -> nat {
        self.nanos as nat / 1000
    }

    /// A length of `nanos` nanoseconds.
    pub fn from_nanos(nanos: u128) -> (duration: Duration)
        ensures
            duration.nanos == nanos,
    {
        Duration { nanos }
    }

    /// The number of whole microseconds in this length.
    pub fn as_micros(&self) -> (micros: u128)
        ensures
            micros == self.micros(),
    {
        self.nanos / 1000
    }
}

impl SystemTime {
    /// The point `nanos` nanoseconds after the Unix epoch.
    pub fn from_nanos(nanos: i128) -> (time: SystemTime)
        ensures
            time.nanos == nanos,
    {
        SystemTime { nanos }
    }

    /// The length from `earlier` to `later`, if `earlier` is not the later of the two.
    pub open spec fn between(earlier: SystemTime, later: SystemTime) -> Option<Duration> {
        if earlier.nanos <= later.nanos {
            Some(Duration { nanos: (later.nanos - earlier.nanos) as u128 })
        } else {
            None
        }
    }

    /// `time` as a delta against `origin`: the point as far from the epoch as `time` is from
    /// `origin`, or the first or last point that there is.
    pub open spec fn delta(origin: SystemTime, time: SystemTime) -> SystemTime {
        let nanos = time.nanos - origin.nanos;
        SystemTime {
            nanos: if nanos > i128::MAX {
                i128::MAX
            } else if nanos < i128::MIN {
                i128::MIN
            } else {
                nanos as i128
            },
        }
    }

    /// This reading as a delta against `origin`.
    pub fn delta_since(&self, origin: &SystemTime) -> (delta: SystemTime)
        ensures
            delta == SystemTime::delta(*origin, *self),
    {
        let nanos: i128 = match self.nanos.checked_sub(origin.nanos) {
            Some(distance) => distance,
            None => if origin.nanos < 0 {
                i128::MAX
            } else {
                i128::MIN
            },
        };
        SystemTime { nanos }
    }

    /// The time that has passed from `earlier` to this reading; `None` where the clock went
    /// back.
    pub fn duration_since(&self, earlier: &SystemTime) -> (length: Option<Duration>)
        ensures
            length == SystemTime::between(*earlier, *self),
            length matches Some(d) ==> d.nanos == self.nanos - earlier.nanos,
    {
        if earlier.nanos > self.nanos {
            None
        } else if earlier.nanos >= 0 || self.nanos < 0 {
            Some(Duration { nanos: (self.nanos - earlier.nanos) as u128 })
        } else {
            // The readings lie on the two sides of the epoch, and only their unsigned
            // distance is sure to fit.
            let before: u128 = (-(earlier.nanos + 1)) as u128 + 1;
            let after: u128 = self.nanos as u128;
            Some(Duration { nanos: before + after })
        }
    }
}

impl Instant {
    /// The reading `nanos` nanoseconds after the start of the clock.
    pub fn from_nanos(nanos: u128) -> (instant: Instant)
        ensures
            instant.nanos == nanos,
    {
        Instant { nanos }
    }

    /// The nanoseconds from `earlier` to `later`; zero if `later` is not the later of the two.
    pub open spec fn elapsed_nanos(earlier: Instant, later: Instant) -> nat {
        if earlier.nanos <= later.nanos {
            (later.nanos - earlier.nanos) as nat
        } else {
            0
        }
    }

    /// The time that has passed from `earlier` to this reading; zero if `earlier` is the later
    /// one.
    pub fn saturating_duration_since(&self, earlier: &Instant) -> (length: Duration)
        ensures
            length.nanos == Instant::elapsed_nanos(*earlier, *self),
    {
        if earlier.nanos <= self.nanos {
            Duration { nanos: self.nanos - earlier.nanos }
        } else {
            Duration { nanos: 0 }
        }
    }
}

/// A length has as many microseconds as whole thousands of nanoseconds.
pub proof fn law_micros_are_thousands(length: Duration)
    ensures
        length.micros() * 1000 <= length.nanos < length.micros() * 1000 + 1000,
{
}

/// Between two readings of the wall clock lies what has passed from the one to the other, unless
/// the clock was set back.
pub proof fn law_what_lies_between_has_passed(earlier: SystemTime, later: SystemTime)
    ensures
        match SystemTime::between(earlier, later) {
            Some(length) => earlier.nanos + length.nanos == later.nanos,
            None => later.nanos < earlier.nanos,
        },
{
}

/// A delta leads from its origin to the time itself, where there is a point that far from the
/// epoch.
pub proof fn law_a_delta_leads_to_the_time(origin: SystemTime, time: SystemTime)
    requires
        i128::MIN <= time.nanos - origin.nanos <= i128::MAX,
    ensures
        origin.nanos + SystemTime::delta(origin, time).nanos == time.nanos,
{
}

/// On a steady clock, what has elapsed leads from the earlier reading to the later one; nothing
/// elapses backwards.
pub proof fn law_what_has_elapsed_leads_on(earlier: Instant, later: Instant)
    ensures
        earlier.nanos <= later.nanos ==> earlier.nanos + Instant::elapsed_nanos(earlier, later)
            == later.nanos,
        later.nanos <= earlier.nanos ==> Instant::elapsed_nanos(earlier, later) == 0,
{
}

} // verus!
