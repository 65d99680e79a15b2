use vstd::prelude::*;

verus! {

/// Number of days in a calendar week.
pub const DAYS_IN_WEEK: i64 = 7;

/// A calendar date, counted in days from the start of the common era:
/// 0001-01-01 of the proleptic Gregorian calendar, a Monday, is day 1.
#[derive(Clone, Copy, Debug, PartialEq, Eq, Structural)]
pub struct Date {
    pub day: i32,
}

/// The first day (a Monday) of the calendar week that holds `day`.
pub open spec fn week_start(day: int) -> int {
    day - (day - 1) % 7
}

/// The week start is a floor: it never lies after the day, and the day lies
/// less than a week after it.
pub proof fn lemma_week_start_floor(day: int)
    ensures
        week_start(day) <= day < week_start(day) + 7,
        (week_start(day) - 1) % 7 == 0,
{
    assert((day - (day - 1) % 7 - 1) % 7 == 0) by (nonlinear_arith);
}

/// The week start is monotonic: a later day never has an earlier week start.
pub proof fn lemma_week_start_monotonic(a: int, b: int)
    requires
        a <= b,
    ensures
        week_start(a) <= week_start(b),
{
    lemma_week_start_floor(a);
    lemma_week_start_floor(b);
    if week_start(b) < week_start(a) {
        // Both are of the form 7k + 1, so they lie at least a week apart,
        // which leaves no room for a <= b.
        let ka = (week_start(a) - 1) / 7;
        let kb = (week_start(b) - 1) / 7;
        assert(week_start(a) == 7 * ka + 1) by (nonlinear_arith)
            requires (week_start(a) - 1) % 7 == 0, ka == (week_start(a) - 1) / 7;
        assert(week_start(b) == 7 * kb + 1) by (nonlinear_arith)
            requires (week_start(b) - 1) % 7 == 0, kb == (week_start(b) - 1) / 7;
        assert(kb < ka) by (nonlinear_arith)
            requires week_start(a) == 7 * ka + 1, week_start(b) == 7 * kb + 1,
                week_start(b) < week_start(a);
    }
}

impl Date {
    /// The date as a day number.
    pub open spec fn spec_day(self) -> int {
        self.day as int
    }

    /// The day number of the first day of this date's calendar week.
    pub fn start_of_week(&self) -> (r: i64)
        ensures
            r == week_start(self.day as int),
    {
        // Shift by a multiple of a week so that the remainder is taken of a
        // non-negative number.
        let shifted: i64 = self.day as i64 - 1 + 7 * 400_000_000;
        let m: i64 = shifted % DAYS_IN_WEEK;
        proof {
            let d = self.day as int;
            assert((d - 1 + 7 * 400_000_000) % 7 == (d - 1) % 7) by (nonlinear_arith);
        }
        self.day as i64 - m
    }
}

} // verus!
