//! Calendar dates as day numbers, times of day, and the calls into `chrono`
//! that convert, parse and format them.
use vstd::prelude::*;
use chrono::{Datelike, NaiveDate, NaiveDateTime, NaiveTime, Timelike};
use std::fmt::Write;

verus! {

/// Day number of 0001-01-01, the first day a [`Date`] can hold.
pub const MIN_DAY: i32 = 1;

/// Day number of 9999-12-31, the last day a [`Date`] can hold.
pub const MAX_DAY: i32 = 3652059;

/// A calendar day, as its count of days since the start of the common era
/// (0001-01-01 is day 1, a Monday), in the proleptic Gregorian calendar.
#[derive(Clone, Copy, Debug, PartialEq, Eq, Structural, Hash, PartialOrd, Ord)]
pub struct Date {
    pub days: i32,
}

/// A time of day to the second.
#[derive(Clone, Copy, Debug, PartialEq, Eq, Structural, Hash, PartialOrd, Ord)]
pub struct Time {
    pub hour: u32,
    pub minute: u32,
    pub second: u32,
}

/// What `chrono` makes of a year, month and day: the day number, where the
/// three name a real day.
pub uninterp spec fn civil_days(y: int, m: int, d: int) -> Option<int>;

/// The year, month and day of a day number, as `chrono` gives them.
pub uninterp spec fn civil_of(days: int) -> (int, int, int);

/// What `NaiveDate::parse_from_str` makes of a text under a format.
pub uninterp spec fn parsed_date(s: Seq<char>, fmt: Seq<char>) -> Option<int>;

/// What `NaiveTime::parse_from_str` makes of a text under a format.
pub uninterp spec fn parsed_time(s: Seq<char>, fmt: Seq<char>) -> Option<(int, int, int)>;

/// What `NaiveDateTime::parse_from_str` makes of a text under a format: the day
/// number, hour, minute and second.
pub uninterp spec fn parsed_datetime(s: Seq<char>, fmt: Seq<char>) -> Option<(int, int, int, int)>;

/// What `NaiveDate::format` writes for a day under a format (`None` where the
/// format does not hold).
pub uninterp spec fn formatted_date(days: int, fmt: Seq<char>) -> Option<Seq<char>>;

/// Relies on `NaiveDate::from_ymd_opt` and `Datelike::num_days_from_ce`.
#[verifier::external_body]
fn chrono_days_from_civil(y: i32, m: u32, d: u32) -> (r: Option<i32>)
    ensures
        r.is_some() ==> civil_days(y as int, m as int, d as int) == Some(r.unwrap() as int),
        r.is_none() ==> civil_days(y as int, m as int, d as int).is_none(),
{
    NaiveDate::from_ymd_opt(y, m, d).map(|n| n.num_days_from_ce())
}

/// Relies on `NaiveDate::from_num_days_from_ce_opt` and `Datelike`'s `year`,
/// `month` and `day`; months count from 1 and days of a month from 1 to 31,
/// and every year lies between those of `NaiveDate::MIN` and `NaiveDate::MAX`.
#[verifier::external_body]
fn chrono_civil_from_days(days: i32) -> (r: (i32, u32, u32))
    requires
        MIN_DAY <= days <= MAX_DAY,
    ensures
        (r.0 as int, r.1 as int, r.2 as int) == civil_of(days as int),
        1 <= r.1 <= 12,
        1 <= r.2 <= 31,
        -262143 <= r.0 <= 262142,
{
    let n = NaiveDate::from_num_days_from_ce_opt(days).unwrap();
    (n.year(), n.month(), n.day())
}

/// Relies on `NaiveDate::parse_from_str` and `Datelike::num_days_from_ce`.
#[verifier::external_body]
fn chrono_parse_date(s: &str, fmt: &str) -> (r: Option<i32>)
    ensures
        r.is_some() ==> parsed_date(s@, fmt@) == Some(r.unwrap() as int),
        r.is_none() ==> parsed_date(s@, fmt@).is_none(),
{
    NaiveDate::parse_from_str(s, fmt).ok().map(|n| n.num_days_from_ce())
}

/// Relies on `NaiveTime::parse_from_str` and `Timelike`'s `hour`, `minute` and
/// `second`, which stay below 24, 60 and 60.
#[verifier::external_body]
fn chrono_parse_time(s: &str, fmt: &str) -> (r: Option<(u32, u32, u32)>)
    ensures
        r.is_some() ==> parsed_time(s@, fmt@) == Some(
            (r.unwrap().0 as int, r.unwrap().1 as int, r.unwrap().2 as int),
        ),
        r.is_some() ==> r.unwrap().0 < 24 && r.unwrap().1 < 60 && r.unwrap().2 < 60,
        r.is_none() ==> parsed_time(s@, fmt@).is_none(),
{
    NaiveTime::parse_from_str(s, fmt).ok().map(|t| (t.hour(), t.minute(), t.second()))
}

/// Relies on `NaiveDateTime::parse_from_str`, `Datelike::num_days_from_ce` and
/// `Timelike`'s `hour`, `minute` and `second`, which stay below 24, 60 and 60.
#[verifier::external_body]
fn chrono_parse_datetime(s: &str, fmt: &str) -> (r: Option<(i32, u32, u32, u32)>)
    ensures
        r.is_some() ==> parsed_datetime(s@, fmt@) == Some(
            (r.unwrap().0 as int, r.unwrap().1 as int, r.unwrap().2 as int, r.unwrap().3 as int),
        ),
        r.is_some() ==> r.unwrap().1 < 24 && r.unwrap().2 < 60 && r.unwrap().3 < 60,
        r.is_none() ==> parsed_datetime(s@, fmt@).is_none(),
{
    NaiveDateTime::parse_from_str(s, fmt).ok().map(
        |t| (t.date().num_days_from_ce(), t.hour(), t.minute(), t.second()),
    )
}

/// Relies on `NaiveDate::format`, written out through `std::fmt::Write`; a
/// format that `chrono` cannot apply gives an error.
#[verifier::external_body]
fn chrono_format_date(days: i32, fmt: &str) -> (r: Option<String>)
    requires
        MIN_DAY <= days <= MAX_DAY,
    ensures
        r.is_some() ==> formatted_date(days as int, fmt@) == Some(r.unwrap()@),
        r.is_none() ==> formatted_date(days as int, fmt@).is_none(),
{
    let n = NaiveDate::from_num_days_from_ce_opt(days).unwrap();
    let mut out = String::new();
    match write!(out, "{}", n.format(fmt)) {
        Ok(()) => Some(out),
        Err(_) => None,
    }
}

/// The `Date` with day number `n`, where one can hold it.
pub open spec fn day(n: int) -> Option<Date> {
    if MIN_DAY <= n <= MAX_DAY {
        Some(Date { days: n as i32 })
    } else {
        None
    }
}

/// The `Date` that a year, month and day name.
pub open spec fn civil_day(y: int, m: int, d: int) -> Option<Date> {
    match civil_days(y, m, d) {
        Some(n) => day(n),
        None => None,
    }
}

/// The `Date` written in `s` under the format `fmt`.
pub open spec fn parsed_day(s: Seq<char>, fmt: Seq<char>) -> Option<Date> {
    match parsed_date(s, fmt) {
        Some(n) => day(n),
        None => None,
    }
}

/// What `NaiveDateTime::format` writes for a day and time of day under a
/// format (`None` where the format does not hold).
pub uninterp spec fn formatted_datetime(days: int, secs: int, fmt: Seq<char>) -> Option<Seq<char>>;

/// Relies on `NaiveDateTime::format`, written out through `std::fmt::Write`;
/// a format that `chrono` cannot apply gives an error.
#[verifier::external_body]
fn chrono_format_datetime(days: i32, hour: u32, minute: u32, second: u32, fmt: &str) -> (r:
    Option<String>)
    requires
        MIN_DAY <= days <= MAX_DAY,
        hour < 24,
        minute < 60,
        second < 60,
    ensures
        r.is_some() ==> formatted_datetime(days as int, hour * 3600 + minute * 60 + second, fmt@)
            == Some(r.unwrap()@),
        r.is_none() ==> formatted_datetime(days as int, hour * 3600 + minute * 60 + second, fmt@).is_none(),
{
    let d = NaiveDate::from_num_days_from_ce_opt(days).unwrap();
    let t = NaiveTime::from_hms_opt(hour, minute, second).unwrap();
    let mut out = String::new();
    match write!(out, "{}", NaiveDateTime::new(d, t).format(fmt)) {
        Ok(()) => Some(out),
        Err(_) => None,
    }
}

/// A day and time written out under the `chrono` format `fmt`.
pub fn format_date_time_with(d: Date, t: Time, fmt: &str) -> (r: Option<String>)
    requires
        d.wf(),
        t.wf(),
    ensures
        r.is_some() <==> formatted_datetime(d.days as int, seconds_of(t), fmt@).is_some(),
        r.is_some() ==> formatted_datetime(d.days as int, seconds_of(t), fmt@) == Some(r.unwrap()@),
{
    chrono_format_datetime(d.days, t.hour, t.minute, t.second, fmt)
}

/// Day of the week of a day number: 0 for Monday up to 6 for Sunday.
pub open spec fn weekday_of(days: int) -> int {
    (days - 1) % 7
}

impl Date {
    pub open spec fn wf(&self) -> bool {
        MIN_DAY <= self.days <= MAX_DAY
    }

    /// Day of the week: 0 for Monday up to 6 for Sunday.
    pub open spec fn weekday(&self) -> int {
        weekday_of(self.days as int)
    }

    /// The day that a year, month and day name, where it is a real day in the
    /// range a `Date` holds.
    pub fn from_ymd(y: i32, m: u32, d: u32) -> (r: Option<Date>)
        ensures
            r == civil_day(y as int, m as int, d as int),
            r is Some ==> r->Some_0.wf(),
    {
        match chrono_days_from_civil(y, m, d) {
            Some(n) => if MIN_DAY <= n && n <= MAX_DAY {
                Some(Date { days: n })
            } else {
                None
            },
            None => None,
        }
    }

    /// The day with this day number, where a `Date` can hold it.
    pub fn from_day_number(n: i64) -> (r: Option<Date>)
        ensures
            r == day(n as int),
            r is Some ==> r->Some_0.wf(),
    {
        if MIN_DAY as i64 <= n && n <= MAX_DAY as i64 {
            Some(Date { days: n as i32 })
        } else {
            None
        }
    }

    /// Year, month (1 to 12) and day of the month (1 to 31).
    pub fn ymd(&self) -> (r: (i32, u32, u32))
        requires
            self.wf(),
        ensures
            (r.0 as int, r.1 as int, r.2 as int) == civil_of(self.days as int),
            1 <= r.1 <= 12,
            1 <= r.2 <= 31,
            -262143 <= r.0 <= 262142,
    {
        chrono_civil_from_days(self.days)
    }

    /// The day `n` days later (earlier for a negative `n`), where a `Date`
    /// can hold it.
    pub fn add_days(&self, n: i64) -> (r: Option<Date>)
        requires
            self.wf(),
            -10_000_000 <= n <= 10_000_000,
        ensures
            r == day(self.days + n),
            r is Some ==> r->Some_0.wf(),
    {
        Date::from_day_number(self.days as i64 + n)
    }

    /// Day of the week: 0 for Monday up to 6 for Sunday.
    pub fn weekday_index(&self) -> (r: u32)
        requires
            self.wf(),
        ensures
            r as int == self.weekday(),
            r < 7,
    {
        ((self.days - 1) % 7) as u32
    }

    /// The day written in `s` under the `chrono` format `fmt`.
    pub fn parse_with(s: &str, fmt: &str) -> (r: Option<Date>)
        ensures
            r == parsed_day(s@, fmt@),
            r is Some ==> r->Some_0.wf(),
    {
        match chrono_parse_date(s, fmt) {
            Some(n) => if MIN_DAY <= n && n <= MAX_DAY {
                Some(Date { days: n })
            } else {
                None
            },
            None => None,
        }
    }

    /// The day written out under the `chrono` format `fmt`.
    pub fn format_with(&self, fmt: &str) -> (r: Option<String>)
        requires
            self.wf(),
        ensures
            r.is_some() <==> formatted_date(self.days as int, fmt@).is_some(),
            r.is_some() ==> formatted_date(self.days as int, fmt@) == Some(r.unwrap()@),
    {
        chrono_format_date(self.days, fmt)
    }
}

/// Seconds since midnight.
pub open spec fn seconds_of(t: Time) -> int {
    t.hour * 3600 + t.minute * 60 + t.second
}

impl Time {
    pub open spec fn wf(&self) -> bool {
        self.hour < 24 && self.minute < 60 && self.second < 60
    }

    /// The time with these hour, minute and second, where each is in range.
    pub fn from_hms(hour: u32, minute: u32, second: u32) -> (r: Option<Time>)
        ensures
            r.is_some() <==> (hour < 24 && minute < 60 && second < 60),
            r.is_some() ==> r.unwrap() == (Time { hour, minute, second }),
    {
        if hour < 24 && minute < 60 && second < 60 {
            Some(Time { hour, minute, second })
        } else {
            None
        }
    }

    /// Seconds since midnight.
    pub fn seconds(&self) -> (r: u32)
        requires
            self.wf(),
        ensures
            r as int == seconds_of(*self),
    {
        self.hour * 3600 + self.minute * 60 + self.second
    }

    /// The time written in `s` under the `chrono` format `fmt`.
    pub fn parse_with(s: &str, fmt: &str) -> (r: Option<Time>)
        ensures
            r.is_some() <==> parsed_time(s@, fmt@).is_some(),
            r.is_some() ==> r.unwrap().wf() && parsed_time(s@, fmt@) == Some(
                (r.unwrap().hour as int, r.unwrap().minute as int, r.unwrap().second as int),
            ),
    {
        match chrono_parse_time(s, fmt) {
            Some((h, m, sec)) => Some(Time { hour: h, minute: m, second: sec }),
            None => None,
        }
    }
}

/// A date and time written in `s` under the `chrono` format `fmt`.
pub fn parse_date_time_with(s: &str, fmt: &str) -> (r: Option<(Date, Time)>)
    ensures
        r.is_some() <==> (parsed_datetime(s@, fmt@).is_some() && MIN_DAY <= parsed_datetime(
            s@,
            fmt@,
        ).unwrap().0 <= MAX_DAY),
        r.is_some() ==> r.unwrap().0.wf() && r.unwrap().1.wf() && parsed_datetime(s@, fmt@) == Some(
            (
                r.unwrap().0.days as int,
                r.unwrap().1.hour as int,
                r.unwrap().1.minute as int,
                r.unwrap().1.second as int,
            ),
        ),
{
    match chrono_parse_datetime(s, fmt) {
        Some((n, h, m, sec)) => if MIN_DAY <= n && n <= MAX_DAY {
            Some((Date { days: n }, Time { hour: h, minute: m, second: sec }))
        } else {
            None
        },
        None => None,
    }
}

/// The two decimal digits of a number below 100.
pub open spec fn two_digits(n: int) -> Seq<char> {
    seq![(('0' as int) + n / 10) as char, (('0' as int) + n % 10) as char]
}

/// A time written `HH:MM`, zero-padded, as `%H:%M` writes it.
pub open spec fn hm_text(t: Time) -> Seq<char> {
    two_digits(t.hour as int) + seq![':'] + two_digits(t.minute as int)
}

pub fn digit_char(n: u32) -> (r: char)
    requires
        n < 10,
    ensures
        r == (('0' as int) + n) as char,
{
    match n {
        0 => '0',
        1 => '1',
        2 => '2',
        3 => '3',
        4 => '4',
        5 => '5',
        6 => '6',
        7 => '7',
        8 => '8',
        _ => '9',
    }
}

/// Writes a time as `HH:MM`.
pub fn format_hm(t: Time) -> (r: Vec<char>)
    requires
        t.wf(),
    ensures
        r@ == hm_text(t),
{
    let mut r: Vec<char> = Vec::new();
    r.push(digit_char(t.hour / 10));
    r.push(digit_char(t.hour % 10));
    r.push(':');
    r.push(digit_char(t.minute / 10));
    r.push(digit_char(t.minute % 10));
    proof {
        assert(r@ =~= hm_text(t));
    }
    r
}

} // verus!
