use vstd::prelude::*;

use crate::compare::{deltas_match, mismatch, writes, CompareError, Comparison};
use crate::date::{week_start, Date, DAYS_IN_WEEK};
use crate::load::CommitData;
use crate::store::{data_range, sorted_by_date, window};

verus! {

/// Number of trailing weeks that a summary covers.
pub const WEEKS_IN_SUMMARY: u32 = 12;

/// A percentage rounded to one decimal place, held as a count of tenths of
/// a percent.
#[derive(Clone, Copy, Debug, PartialEq, Eq, Structural)]
pub struct Percent(pub i64);

/// Why a summary cannot be built.
#[derive(Clone, Copy, Debug, PartialEq, Eq, Structural)]
pub enum SummaryError {
    /// The long-range window holds no record.
    NoRecordsInRange,
    /// Two records that the summary compares cannot be compared.
    Compare(CompareError),
}

/// A summary: one comparison over a long range, and one per trailing week
/// that holds at least two records, the most recent week first.
pub struct Summary {
    pub total: Comparison,
    pub comparisons: Vec<Comparison>,
}

/// The index range of the records of week `i` before the week of `last`:
/// week 0 is the week that holds `last`.
pub open spec fn week_window(s: Seq<CommitData>, last: Date, i: int) -> (int, int) {
    let start = week_start(last.day as int) - 7 * i;
    window(s, start, start + 7)
}

/// Whether week `i` holds at least two records, and so gets a comparison.
pub open spec fn week_included(s: Seq<CommitData>, last: Date, i: int) -> bool {
    week_window(s, last, i).1 - week_window(s, last, i).0 >= 2
}

/// The weeks among the first `n` that get a comparison, in order.
pub open spec fn included_weeks(s: Seq<CommitData>, last: Date, n: int) -> Seq<int>
    decreases n,
{
    if n <= 0 {
        Seq::empty()
    } else {
        included_weeks(s, last, n - 1) + if week_included(s, last, n - 1) {
            seq![n - 1]
        } else {
            Seq::empty()
        }
    }
}

/// The first mismatch among the comparisons of the first `n` weeks.
pub open spec fn week_error(s: Seq<CommitData>, last: Date, n: int) -> Option<CompareError>
    decreases n,
{
    if n <= 0 {
        None
    } else {
        match week_error(s, last, n - 1) {
            Some(e) => Some(e),
            None => if week_included(s, last, n - 1) {
                mismatch(s[week_window(s, last, n - 1).0], s[week_window(s, last, n - 1).1 - 1])
            } else {
                None
            },
        }
    }
}

/// The index range of the long-range window: from `weeks + 1` weeks before
/// the start of the week of `last`, up to a week after `last`.
pub open spec fn total_window(s: Seq<CommitData>, last: Date, weeks: int) -> (int, int) {
    window(s, week_start(last.day as int) - 7 * (weeks + 1), last.day as int + 7)
}

/// What stops a summary of `weeks` weeks, if anything: first a failed weekly
/// comparison, in order of weeks; then an empty long-range window; then a
/// failed long-range comparison.
pub open spec fn summary_error(s: Seq<CommitData>, last: Date, weeks: int) -> Option<SummaryError> {
    match week_error(s, last, weeks) {
        Some(e) => Some(SummaryError::Compare(e)),
        None => {
            let (lo, hi) = total_window(s, last, weeks);
            if hi <= lo {
                Some(SummaryError::NoRecordsInRange)
            } else {
                match mismatch(s[lo], s[hi - 1]) {
                    Some(e) => Some(SummaryError::Compare(e)),
                    None => None,
                }
            }
        },
    }
}

/// Whether `c` is the comparison of `a` with `b`.
pub open spec fn compares(c: Comparison, a: CommitData, b: CommitData) -> bool {
    &&& c.a == a.commit
    &&& c.b == b.commit
    &&& deltas_match(c.by_crate@, writes(a, b))
}

/// Whether `sm` is the summary of `weeks` weeks of `s` up to the week of
/// `last`: one comparison per week that holds two records or more, of its
/// first record with its last, and the comparison of the first and the last
/// record of the long-range window.
pub open spec fn summary_of(sm: Summary, s: Seq<CommitData>, last: Date, weeks: int) -> bool {
    let inc = included_weeks(s, last, weeks);
    let (lo, hi) = total_window(s, last, weeks);
    &&& summary_error(s, last, weeks) is None
    &&& sm.comparisons@.len() == inc.len()
    &&& sm.comparisons@.len() <= weeks
    &&& forall|t: int|
        0 <= t < inc.len() ==> compares(
            #[trigger] sm.comparisons@[t],
            s[week_window(s, last, inc[t]).0],
            s[week_window(s, last, inc[t]).1 - 1],
        )
    &&& lo < hi
    &&& compares(sm.total, s[lo], s[hi - 1])
}

/// Whether every record of a store is well formed.
pub open spec fn all_well_formed(s: Seq<CommitData>) -> bool {
    forall|i: int| 0 <= i < s.len() ==> (#[trigger] s[i]).well_formed()
}

proof fn lemma_week_error_stable(s: Seq<CommitData>, last: Date, k: int, n: int)
    requires
        0 <= k <= n,
        week_error(s, last, k) is Some,
    ensures
        week_error(s, last, n) == week_error(s, last, k),
    decreases n - k,
{
    if k < n {
        lemma_week_error_stable(s, last, k, n - 1);
    }
}

/// A summary has at most one comparison per week, each of a week that holds
/// two records or more, in order of weeks, most recent first.
pub proof fn lemma_included_weeks(s: Seq<CommitData>, last: Date, n: int)
    requires
        0 <= n,
    ensures
        included_weeks(s, last, n).len() <= n,
        forall|t: int|
            0 <= t < included_weeks(s, last, n).len() ==> {
                let i = #[trigger] included_weeks(s, last, n)[t];
                &&& 0 <= i < n
                &&& week_included(s, last, i)
            },
        forall|t: int, u: int|
            0 <= t < u < included_weeks(s, last, n).len() ==> #[trigger] included_weeks(
                s,
                last,
                n,
            )[t] < #[trigger] included_weeks(s, last, n)[u],
    decreases n,
{
    if n > 0 {
        lemma_included_weeks(s, last, n - 1);
        let prev = included_weeks(s, last, n - 1);
        let cur = included_weeks(s, last, n);
        assert forall|t: int| 0 <= t < prev.len() implies cur[t] == prev[t] by {}
        if week_included(s, last, n - 1) {
            assert(cur[prev.len() as int] == n - 1);
        }
    }
}

impl Summary {
    /// The summary of the `weeks` weeks up to and including the week of
    /// `last_date`. Week `i` covers `[w - 7i, w - 7i + 7)`, where `w` is the
    /// start of the week of `last_date`; a week with at least two records
    /// gets the comparison of its first record with its last, and a week with
    /// fewer gets none. The long-range comparison covers
    /// `[w - 7 (weeks + 1), last_date + 7)` and compares its first record
    /// with its last; it needs at least one record.
    pub fn for_weeks(data: &Vec<CommitData>, last_date: Date, weeks: u32) -> (r: Result<
        Summary,
        SummaryError,
    >)
        requires
            sorted_by_date(data@),
            all_well_formed(data@),
        ensures
            match r {
                Ok(sm) => summary_of(sm, data@, last_date, weeks as int),
                Err(e) => summary_error(data@, last_date, weeks as int) == Some(e),
            },
    {
        let week0: i64 = last_date.start_of_week();
        let mut comparisons: Vec<Comparison> = Vec::new();
        let mut i: u32 = 0;
        while i < weeks
            invariant
                i <= weeks,
                week0 == week_start(last_date.day as int),
                sorted_by_date(data@),
                all_well_formed(data@),
                week_error(data@, last_date, i as int) is None,
                comparisons@.len() == included_weeks(data@, last_date, i as int).len(),
                forall|t: int|
                    0 <= t < comparisons@.len() ==> compares(
                        #[trigger] comparisons@[t],
                        data@[week_window(
                            data@,
                            last_date,
                            included_weeks(data@, last_date, i as int)[t],
                        ).0],
                        data@[week_window(
                            data@,
                            last_date,
                            included_weeks(data@, last_date, i as int)[t],
                        ).1 - 1],
                    ),
            decreases weeks - i,
        {
            proof {
                crate::date::lemma_week_start_floor(last_date.day as int);
            }
            let start: i64 = week0 - DAYS_IN_WEEK * (i as i64);
            let end: i64 = start + DAYS_IN_WEEK;
            let (lo, hi) = data_range(data, start, end);
            let ghost prev = included_weeks(data@, last_date, i as int);
            if hi - lo >= 2 {
                assert(data@[lo as int].well_formed());
                assert(data@[hi - 1].well_formed());
                match Summary::compare_points(&data[lo], &data[hi - 1]) {
                    Ok(c) => {
                        comparisons.push(c);
                        assert(included_weeks(data@, last_date, i + 1) == prev + seq![i as int]);
                        assert forall|t: int| 0 <= t < comparisons@.len() implies compares(
                            #[trigger] comparisons@[t],
                            data@[week_window(
                                data@,
                                last_date,
                                included_weeks(data@, last_date, i + 1)[t],
                            ).0],
                            data@[week_window(
                                data@,
                                last_date,
                                included_weeks(data@, last_date, i + 1)[t],
                            ).1 - 1],
                        ) by {
                            if t < prev.len() {
                                assert((prev + seq![i as int])[t] == prev[t]);
                            } else {
                                assert((prev + seq![i as int])[t] == i as int);
                            }
                        }
                    },
                    Err(e) => {
                        proof {
                            lemma_week_error_stable(data@, last_date, i + 1, weeks as int);
                        }
                        return Err(SummaryError::Compare(e));
                    },
                }
            } else {
                assert(included_weeks(data@, last_date, i + 1) =~= prev);
            }
            i = i + 1;
        }
        proof {
            lemma_included_weeks(data@, last_date, weeks as int);
            crate::date::lemma_week_start_floor(last_date.day as int);
        }
        let start: i64 = week0 - DAYS_IN_WEEK * (weeks as i64 + 1);
        let end: i64 = last_date.day as i64 + DAYS_IN_WEEK;
        let (lo, hi) = data_range(data, start, end);
        if hi <= lo {
            return Err(SummaryError::NoRecordsInRange);
        }
        assert(data@[lo as int].well_formed());
        assert(data@[hi - 1].well_formed());
        match Summary::compare_points(&data[lo], &data[hi - 1]) {
            Ok(total) => Ok(Summary { total, comparisons }),
            Err(e) => Err(SummaryError::Compare(e)),
        }
    }

    /// The summary of the `WEEKS_IN_SUMMARY` weeks up to and including the
    /// week of `last_date`, as `for_weeks` builds it.
    pub fn new(data: &Vec<CommitData>, last_date: Date) -> (r: Result<Summary, SummaryError>)
        requires
            sorted_by_date(data@),
            all_well_formed(data@),
        ensures
            match r {
                Ok(sm) => summary_of(sm, data@, last_date, WEEKS_IN_SUMMARY as int),
                Err(e) => summary_error(data@, last_date, WEEKS_IN_SUMMARY as int) == Some(e),
            },
    {
        Summary::for_weeks(data, last_date, WEEKS_IN_SUMMARY)
    }
}

} // verus!
