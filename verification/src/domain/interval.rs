//! Instants since the Unix epoch, and the quarter-hours they fall in.

use vstd::prelude::*;

verus! {

/// Seconds since the Unix epoch, at or after it.
#[derive(Debug, Clone, Copy, PartialEq, Eq, PartialOrd, Ord, Hash)]
pub struct UnixSeconds {
    seconds: i64,
}

impl UnixSeconds {
    /// The seconds.
    pub closed spec fn view(&self) -> i64 {
        self.seconds
    }

    /// No instant is before the epoch.
    #[verifier::type_invariant]
    pub open spec fn well_formed(self) -> bool {
        0 <= self@
    }

    /// So many seconds after the epoch. Refuses an instant before it.
    #[must_use]
    pub fn new(seconds: i64) -> (at: Option<Self>)
        ensures
            match at {
                Some(at) => 0 <= seconds && at@ == seconds,
                None => seconds < 0,
            },
    {
        if seconds >= 0 {
            Some(UnixSeconds { seconds })
        } else {
            None
        }
    }

    /// The seconds.
    #[must_use]
    pub fn get(&self) -> (seconds: i64)
        ensures
            seconds == self@,
            0 <= seconds,
    {
        proof {
            use_type_invariant(self);
        }
        self.seconds
    }
}

/// Minutes since the Unix epoch, at or after it.
#[derive(Debug, Clone, Copy, PartialEq, Eq, PartialOrd, Ord, Hash)]
pub struct UnixMinutes {
    minutes: i64,
}

impl UnixMinutes {
    /// The minutes.
    pub closed spec fn view(&self) -> i64 {
        self.minutes
    }

    /// No instant is before the epoch.
    #[verifier::type_invariant]
    pub open spec fn well_formed(self) -> bool {
        0 <= self@
    }

    /// So many minutes after the epoch. Refuses an instant before it.
    #[must_use]
    pub fn new(minutes: i64) -> (at: Option<Self>)
        ensures
            match at {
                Some(at) => 0 <= minutes && at@ == minutes,
                None => minutes < 0,
            },
    {
        if minutes >= 0 {
            Some(UnixMinutes { minutes })
        } else {
            None
        }
    }

    /// The minutes.
    #[must_use]
    pub fn get(&self) -> (minutes: i64)
        ensures
            minutes == self@,
            0 <= minutes,
    {
        proof {
            use_type_invariant(self);
        }
        self.minutes
    }
}

/// Seconds in a minute.
pub const SECONDS_PER_MINUTE: i64 = 60;

/// One quarter-hour of UTC time.
#[derive(Debug, Clone, Copy, PartialEq, Eq, Hash)]
pub struct Interval15 {
    start: UnixMinutes,
}

impl Interval15 {
    /// How many minutes a quarter-hour has.
    pub const LENGTH_MINUTES: i64 = 15;

    /// The minute it starts at.
    pub closed spec fn view(&self) -> i64 {
        self.start@
    }

    /// A quarter-hour starts at one.
    #[verifier::type_invariant]
    pub open spec fn well_formed(self) -> bool {
        0 <= self@ && self@ as int % 15 == 0
    }

    /// Whether an instant in seconds lies in this quarter-hour.
    pub open spec fn covers(self, at: int) -> bool {
        self@ * 60 <= at < self@ * 60 + 900
    }

    /// The quarter-hour that starts at this minute. Refuses any other minute.
    #[must_use]
    pub fn new(start: UnixMinutes) -> (interval: Option<Self>)
        ensures
            match interval {
                Some(interval) => start@ as int % 15 == 0 && interval@ == start@,
                None => start@ as int % 15 != 0,
            },
    {
        if start.get() % Self::LENGTH_MINUTES == 0 {
            Some(Interval15 { start })
        } else {
            None
        }
    }

    /// The quarter-hour that an instant falls in.
    #[must_use]
    pub fn containing(at: UnixSeconds) -> (interval: Self)
        ensures
            interval.covers(at@ as int),
            interval.well_formed(),
    {
        let quarters: i64 = at.get() / (Self::LENGTH_MINUTES * SECONDS_PER_MINUTE);
        Interval15 { start: UnixMinutes { minutes: quarters * Self::LENGTH_MINUTES } }
    }

    /// How long every quarter-hour is, in minutes.
    #[must_use]
    pub fn length() -> (minutes: i64)
        ensures
            minutes == 15,
    {
        Self::LENGTH_MINUTES
    }

    /// The minute it starts at.
    #[must_use]
    pub fn start(&self) -> (start: UnixMinutes)
        ensures
            start@ == self@,
    {
        self.start
    }

    /// The quarter-hour after this one.
    #[must_use]
    pub fn next(&self) -> (next: Self)
        requires
            self@ + 15 <= i64::MAX,
        ensures
            next@ == self@ + 15,
            next.well_formed(),
    {
        proof {
            use_type_invariant(self);
        }
        Interval15 { start: UnixMinutes { minutes: self.start.minutes + Self::LENGTH_MINUTES } }
    }

    /// Whether the two are one quarter-hour.
    #[must_use]
    pub fn same_as(&self, other: &Self) -> (same: bool)
        ensures
            same == (self@ == other@),
    {
        self.start.minutes == other.start.minutes
    }
}

/// An instant falls in one quarter-hour only.
pub proof fn law_one_quarter_hour_contains_an_instant(a: Interval15, b: Interval15, at: int)
    requires
        a.well_formed(),
        b.well_formed(),
        a.covers(at),
        b.covers(at),
    ensures
        a@ == b@,
{
}

/// A quarter-hour and the next share no second and leave none out.
pub proof fn law_quarter_hours_tile(a: Interval15, next: Interval15, at: int)
    requires
        next@ == a@ + 15,
    ensures
        !(a.covers(at) && next.covers(at)),
        a@ * 60 <= at < next@ * 60 + 900 ==> a.covers(at) || next.covers(at),
{
}

/// A quarter-hour covers the nine hundred seconds from its start on, and it
/// starts at a whole number of fifteen minutes after the epoch.
pub proof fn law_quarter_hour_is_nine_hundred_seconds(interval: Interval15, at: int)
    ensures
        interval.covers(at) <==> 0 <= at - 60 * interval@ < 900,
        interval.well_formed() <==> interval@ >= 0 && interval@ as int % 15 == 0,
{
}

} // verus!
