//! A time of day as read off a wall clock: no date, no time zone, no leap
//! seconds. The value is stored as whole seconds since midnight plus a
//! sub-second microsecond fraction, and every live value is in range.

use vstd::prelude::*;
use vstd::std_specs::cmp::PartialOrdSpec;

pub mod db;
pub mod text;

verus! {

/// A time of day, independent of date and time zone.
///
/// Stored as whole seconds elapsed since midnight together with the
/// microseconds elapsed since the last whole second. Every construction
/// path validates its input, so every live value satisfies [`WallClockTime::wf`].
#[derive(Clone, Copy, PartialEq, Eq, Ord, Structural, Debug)]
pub struct WallClockTime {
    pub(crate) seconds: u32,
    pub(crate) micros: u32,
}

/// The mathematical content of a [`WallClockTime`]: whole seconds since
/// midnight and the sub-second microsecond fraction.
pub struct TimeView {
    pub seconds: int,
    pub micros: int,
}

impl View for WallClockTime {
    type V = TimeView;

    closed spec fn view(&self) -> TimeView {
        TimeView { seconds: self.seconds as int, micros: self.micros as int }
    }
}

impl WallClockTime {
    /// Every live value holds a valid time of day: under a day of whole
    /// seconds, and under a second of microseconds.
    #[verifier::type_invariant]
    pub open spec fn wf(self) -> bool {
        0 <= self@.seconds < 86_400 && 0 <= self@.micros < 1_000_000
    }

    /// The hour on the clock face, as a mathematical value.
    pub open spec fn spec_hour(self) -> int {
        self@.seconds / 3600
    }

    /// The minute within the hour, as a mathematical value.
    pub open spec fn spec_minute(self) -> int {
        (self@.seconds % 3600) / 60
    }

    /// The second within the minute, as a mathematical value.
    pub open spec fn spec_second(self) -> int {
        self@.seconds % 60
    }

    /// The sub-second fraction in microseconds, as a mathematical value.
    pub open spec fn spec_microsecond(self) -> int {
        self@.micros
    }

    /// The whole value as a single count of microseconds since midnight.
    pub open spec fn spec_micros_since_midnight(self) -> int {
        self@.seconds * 1_000_000 + self@.micros
    }

    /// A wall-clock time at the given hours, minutes and seconds, with no
    /// sub-second fraction. Out-of-range components are a precondition
    /// violation: callers must validate untrusted input first, or parse it.
    pub fn new(hours: u8, minutes: u8, seconds: u8) -> (r: Self)
        requires
            hours < 24,
            minutes < 60,
            seconds < 60,
        ensures
            r@.seconds == hours as int * 3600 + minutes as int * 60 + seconds as int,
            r@.micros == 0,
            r.spec_hour() == hours,
            r.spec_minute() == minutes,
            r.spec_second() == seconds,
            r.spec_microsecond() == 0,
    {
        Self::new_with_micros(hours, minutes, seconds, 0)
    }

    /// A wall-clock time at the given hours, minutes, seconds and
    /// microseconds. Out-of-range components are a precondition violation.
    ///
    /// Each component is recovered exactly by the matching accessor.
    pub fn new_with_micros(hours: u8, minutes: u8, seconds: u8, micros: u32) -> (r: Self)
        requires
            hours < 24,
            minutes < 60,
            seconds < 60,
            micros < 1_000_000,
        ensures
            r@.seconds == hours as int * 3600 + minutes as int * 60 + seconds as int,
            r@.micros == micros,
            r.spec_hour() == hours,
            r.spec_minute() == minutes,
            r.spec_second() == seconds,
            r.spec_microsecond() == micros,
    {
        let total: u32 = hours as u32 * 3600 + minutes as u32 * 60 + seconds as u32;
        proof {
            lemma_components_recovered(hours as int, minutes as int, seconds as int);
        }
        WallClockTime { seconds: total, micros }
    }

    /// A wall-clock time at the given offset from midnight. Out-of-range
    /// components are a precondition violation.
    pub fn new_midnight_offset(seconds: u32, micros: u32) -> (r: Self)
        requires
            seconds < 86_400,
            micros < 1_000_000,
        ensures
            r@.seconds == seconds,
            r@.micros == micros,
    {
        WallClockTime { seconds, micros }
    }

    /// The number of hours since midnight.
    pub fn hour(&self) -> (r: u8)
        ensures
            r as int == self.spec_hour(),
            r < 24,
    {
        proof {
            use_type_invariant(&*self);
        }
        (self.seconds / 3600) as u8
    }

    /// The number of minutes since the last whole hour.
    pub fn minute(&self) -> (r: u8)
        ensures
            r as int == self.spec_minute(),
            r < 60,
    {
        proof {
            use_type_invariant(&*self);
        }
        (self.seconds % 3600 / 60) as u8
    }

    /// The number of seconds since the last whole minute.
    pub fn second(&self) -> (r: u8)
        ensures
            r as int == self.spec_second(),
            r < 60,
    {
        proof {
            use_type_invariant(&*self);
        }
        (self.seconds % 60) as u8
    }

    /// The number of microseconds since the last whole second.
    pub fn microsecond(&self) -> (r: u32)
        ensures
            r as int == self.spec_microsecond(),
            r < 1_000_000,
    {
        proof {
            use_type_invariant(&*self);
        }
        self.micros
    }
}

/// Splitting an in-range second count into clock components and recombining
/// them is the identity, so the constructors and the accessors agree.
proof fn lemma_components_recovered(h: int, m: int, s: int)
    requires
        0 <= h < 24,
        0 <= m < 60,
        0 <= s < 60,
    ensures
        (h * 3600 + m * 60 + s) / 3600 == h,
        ((h * 3600 + m * 60 + s) % 3600) / 60 == m,
        (h * 3600 + m * 60 + s) % 60 == s,
{
    let total = h * 3600 + m * 60 + s;
    assert(total / 3600 == h && (total % 3600) / 60 == m && total % 60 == s) by (nonlinear_arith)
        requires
            0 <= h < 24,
            0 <= m < 60,
            0 <= s < 60,
            total == h * 3600 + m * 60 + s,
    ;
}

/// The default wall-clock time is midnight, `00:00:00.000000`.
impl Default for WallClockTime {
    fn default() -> (r: Self)
        ensures
            r@.seconds == 0,
            r@.micros == 0,
    {
        WallClockTime { seconds: 0, micros: 0 }
    }
}

impl PartialOrd for WallClockTime {
    fn partial_cmp(&self, other: &Self) -> (r: Option<core::cmp::Ordering>) {
        if self.seconds < other.seconds {
            Some(core::cmp::Ordering::Less)
        } else if self.seconds > other.seconds {
            Some(core::cmp::Ordering::Greater)
        } else if self.micros < other.micros {
            Some(core::cmp::Ordering::Less)
        } else if self.micros > other.micros {
            Some(core::cmp::Ordering::Greater)
        } else {
            Some(core::cmp::Ordering::Equal)
        }
    }
}

impl vstd::std_specs::cmp::PartialOrdSpecImpl for WallClockTime {
    open spec fn obeys_partial_cmp_spec() -> bool {
        true
    }

    open spec fn partial_cmp_spec(&self, other: &Self) -> Option<core::cmp::Ordering> {
        if self@.seconds < other@.seconds {
            Some(core::cmp::Ordering::Less)
        } else if self@.seconds > other@.seconds {
            Some(core::cmp::Ordering::Greater)
        } else if self@.micros < other@.micros {
            Some(core::cmp::Ordering::Less)
        } else if self@.micros > other@.micros {
            Some(core::cmp::Ordering::Greater)
        } else {
            Some(core::cmp::Ordering::Equal)
        }
    }
}

/// Law: comparison is chronological. Every two times are comparable; one is
/// ordered below another exactly when it denotes an earlier instant of the
/// day, that is, a smaller count of microseconds since midnight; and two
/// times compare equal exactly when they are the same value.
pub proof fn lemma_order_chronological(a: WallClockTime, b: WallClockTime)
    requires
        a.wf(),
        b.wf(),
    ensures
        a.partial_cmp_spec(&b) == Some(core::cmp::Ordering::Less) <==> a.spec_micros_since_midnight()
            < b.spec_micros_since_midnight(),
        a.partial_cmp_spec(&b) == Some(core::cmp::Ordering::Greater)
            <==> a.spec_micros_since_midnight() > b.spec_micros_since_midnight(),
        a.partial_cmp_spec(&b) == Some(core::cmp::Ordering::Equal) <==> a == b,
        a.partial_cmp_spec(&b) is Some,
{
    if a@.seconds < b@.seconds {
        assert(a@.seconds * 1_000_000 + 1_000_000 <= b@.seconds * 1_000_000) by (nonlinear_arith)
            requires
                a@.seconds < b@.seconds,
        ;
    } else if a@.seconds > b@.seconds {
        assert(b@.seconds * 1_000_000 + 1_000_000 <= a@.seconds * 1_000_000) by (nonlinear_arith)
            requires
                b@.seconds < a@.seconds,
        ;
    }
}

} // verus!
