//! Calendar timestamps with second resolution, in UTC.

use chrono::TimeZone;
use vstd::prelude::*;

verus! {

/// The earliest year that a timestamp can hold.
pub const MIN_YEAR: i32 = -262143;

/// The latest year that a timestamp can hold.
pub const MAX_YEAR: i32 = 262142;

pub open spec fn is_leap_year(y: int) -> bool {
    (y % 4 == 0 && y % 100 != 0) || y % 400 == 0
}

pub open spec fn days_in_month(y: int, m: int) -> int {
    if m == 2 {
        if is_leap_year(y) {
            29
        } else {
            28
        }
    } else if m == 4 || m == 6 || m == 9 || m == 11 {
        30
    } else {
        31
    }
}

/// The fields name a day of the proleptic Gregorian calendar within the
/// supported years, and a time of that day without a leap second.
pub open spec fn is_valid_date_time(y: int, mo: int, d: int, h: int, mi: int, s: int) -> bool {
    MIN_YEAR <= y <= MAX_YEAR && 1 <= mo <= 12 && 1 <= d <= days_in_month(y, mo) && 0 <= h < 24
        && 0 <= mi < 60 && 0 <= s < 60
}

pub open spec fn digit_char(d: nat) -> char {
    (d + 48) as char
}

/// The decimal digits of `n`, without leading zeros.
pub open spec fn decimal(n: nat) -> Seq<char>
    decreases n,
{
    if n < 10 {
        seq![digit_char(n)]
    } else {
        decimal(n / 10).push(digit_char(n % 10))
    }
}

/// The decimal digits of `n`, zero-padded on the left to `w` characters.
pub open spec fn padded(n: nat, w: nat) -> Seq<char> {
    let d = decimal(n);
    if d.len() >= w {
        d
    } else {
        Seq::new((w - d.len()) as nat, |i: int| '0') + d
    }
}

/// A year as four digits, or with a sign where it lies outside `0..=9999`.
pub open spec fn year_text(y: int) -> Seq<char> {
    if 0 <= y <= 9999 {
        padded(y as nat, 4)
    } else if y > 9999 {
        seq!['+'] + padded(y as nat, 4)
    } else {
        seq!['-'] + padded((-y) as nat, 4)
    }
}

/// `YYYY/MM/DD HH:MM:SS`.
pub open spec fn date_time_text(y: int, mo: int, d: int, h: int, mi: int, s: int) -> Seq<char> {
    year_text(y) + seq!['/'] + padded(mo as nat, 2) + seq!['/'] + padded(d as nat, 2) + seq![' ']
        + padded(h as nat, 2) + seq![':'] + padded(mi as nat, 2) + seq![':'] + padded(s as nat, 2)
}

/// Relies on chrono's `TimeZone::with_ymd_and_hms` on `Utc`: it gives a single
/// value exactly when the fields make a valid date and time in chrono's range
/// of years.
#[verifier::external_body]
fn utc_date_time_exists(year: i32, month: u32, day: u32, hour: u32, minute: u32, second: u32) -> (r:
    bool)
    ensures
        r == is_valid_date_time(
            year as int,
            month as int,
            day as int,
            hour as int,
            minute as int,
            second as int,
        ),
{
    chrono::Utc.with_ymd_and_hms(year, month, day, hour, minute, second).single().is_some()
}

/// Relies on chrono's `DateTime::format` with `%Y/%m/%d %H:%M:%S`, on the
/// value that `Utc.with_ymd_and_hms` makes of valid fields.
#[verifier::external_body]
fn utc_date_time_text(year: i32, month: u32, day: u32, hour: u32, minute: u32, second: u32) -> (r:
    String)
    requires
        is_valid_date_time(
            year as int,
            month as int,
            day as int,
            hour as int,
            minute as int,
            second as int,
        ),
    ensures
        r@ == date_time_text(
            year as int,
            month as int,
            day as int,
            hour as int,
            minute as int,
            second as int,
        ),
{
    chrono::Utc.with_ymd_and_hms(year, month, day, hour, minute, second).unwrap().format(
        "%Y/%m/%d %H:%M:%S",
    ).to_string()
}

/// A calendar date and time of day, in UTC, to the second.
#[derive(Clone, Copy, Debug, PartialEq, Eq, Structural)]
pub struct Timestamp {
    pub year: i32,
    pub month: u32,
    pub day: u32,
    pub hour: u32,
    pub minute: u32,
    pub second: u32,
}

impl Timestamp {
    pub open spec fn wf(&self) -> bool {
        is_valid_date_time(
            self.year as int,
            self.month as int,
            self.day as int,
            self.hour as int,
            self.minute as int,
            self.second as int,
        )
    }

    pub open spec fn text(&self) -> Seq<char> {
        date_time_text(
            self.year as int,
            self.month as int,
            self.day as int,
            self.hour as int,
            self.minute as int,
            self.second as int,
        )
    }

    /// The timestamp with these fields, where they make a valid one.
    pub fn from_parts(year: i32, month: u32, day: u32, hour: u32, minute: u32, second: u32) -> (r:
        Option<Timestamp>)
        ensures
            r is Some <==> is_valid_date_time(
                year as int,
                month as int,
                day as int,
                hour as int,
                minute as int,
                second as int,
            ),
            r matches Some(t) ==> (t == Timestamp { year, month, day, hour, minute, second }),
    {
        if utc_date_time_exists(year, month, day, hour, minute, second) {
            Some(Timestamp { year, month, day, hour, minute, second })
        } else {
            None
        }
    }

    /// The timestamp as `YYYY/MM/DD HH:MM:SS`.
    pub fn to_text(&self) -> (r: String)
        requires
            self.wf(),
        ensures
            r@ == self.text(),
    {
        utc_date_time_text(self.year, self.month, self.day, self.hour, self.minute, self.second)
    }
}

} // verus!
