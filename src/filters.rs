//! Date and time-of-day filters.
use vstd::prelude::*;
use crate::calendar::{Date, Time, seconds_of};

verus! {

/// A single day, or an inclusive range of days (kept in the order given).
#[derive(Clone, Copy, Debug, PartialEq, Eq, Structural)]
pub enum DateFilter {
    Single(Date),
    Range(Date, Date),
}

/// A time of day that matches by its hour, or a half-open range of times
/// `[start, end)` that wraps across midnight when `start` comes after `end`.
#[derive(Clone, Copy, Debug, PartialEq, Eq, Structural)]
pub enum TimeFilter {
    Single(Time),
    Range(Time, Time),
}

impl DateFilter {
    pub open spec fn wf(&self) -> bool {
        match *self {
            DateFilter::Single(d) => d.wf(),
            DateFilter::Range(a, b) => a.wf() && b.wf(),
        }
    }
}

impl TimeFilter {
    pub open spec fn wf(&self) -> bool {
        match *self {
            TimeFilter::Single(t) => t.wf(),
            TimeFilter::Range(a, b) => a.wf() && b.wf(),
        }
    }
}

/// `t` passes the filter: same hour for a single time; within `[start, end)`
/// for a range, wrapping across midnight when `start` comes after `end`.
pub open spec fn time_matches(filter: TimeFilter, t: Time) -> bool {
    match filter {
        TimeFilter::Single(s) => t.hour == s.hour,
        TimeFilter::Range(start, end) => {
            let (a, b, x) = (seconds_of(start), seconds_of(end), seconds_of(t));
            if a <= b {
                a <= x && x < b
            } else {
                x >= a || x < b
            }
        },
    }
}

/// `d` passes the filter: the same day, or within the inclusive range.
pub open spec fn date_matches(filter: DateFilter, d: Date) -> bool {
    match filter {
        DateFilter::Single(s) => d.days == s.days,
        DateFilter::Range(a, b) => a.days <= d.days && d.days <= b.days,
    }
}

/// Whether `time` satisfies the time filter.
pub fn time_is_in_range(filter: TimeFilter, time: Time) -> (r: bool)
    requires
        filter.wf(),
        time.wf(),
    ensures
        r == time_matches(filter, time),
{
    match filter {
        TimeFilter::Single(s) => time.hour == s.hour,
        TimeFilter::Range(start, end) => {
            let a = start.seconds();
            let b = end.seconds();
            let x = time.seconds();
            if a <= b {
                a <= x && x < b
            } else {
                x >= a || x < b
            }
        },
    }
}

/// Whether `date` satisfies the date filter.
pub fn date_is_in_range(filter: DateFilter, date: Date) -> (r: bool)
    ensures
        r == date_matches(filter, date),
{
    match filter {
        DateFilter::Single(s) => date.days == s.days,
        DateFilter::Range(a, b) => a.days <= date.days && date.days <= b.days,
    }
}

/// A range that does not wrap holds exactly the times from its start up to,
/// and not including, its end; so two adjacent ranges `[a, b)` and `[b, c)`
/// never both hold a time.
pub proof fn lemma_time_range_half_open(a: Time, b: Time, c: Time, t: Time)
    requires
        seconds_of(a) <= seconds_of(b),
        seconds_of(b) <= seconds_of(c),
    ensures
        time_matches(TimeFilter::Range(a, b), t) <==> (seconds_of(a) <= seconds_of(t)
            && seconds_of(t) < seconds_of(b)),
        !time_matches(TimeFilter::Range(a, b), b),
        !(time_matches(TimeFilter::Range(a, b), t) && time_matches(TimeFilter::Range(b, c), t)),
{
}

} // verus!
