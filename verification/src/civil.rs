//! The proleptic Gregorian calendar: dates, day numbers and month arithmetic.
use chrono::{Datelike, TimeZone};
use vstd::prelude::*;

verus! {

/// A calendar date.
#[derive(Clone, Copy, Debug, PartialEq, Eq, Structural)]
pub struct Civil {
    pub year: i32,
    pub month: u32,
    pub day: u32,
}

/// The years that the calendar functions cover.
pub open spec fn year_in_range(year: int) -> bool {
    -262143 <= year <= 262142
}

pub open spec fn is_leap(year: int) -> bool {
    year % 4 == 0 && (year % 100 != 0 || year % 400 == 0)
}

/// The number of days of a month.
pub open spec fn month_len(year: int, month: int) -> int {
    if month == 2 {
        if is_leap(year) {
            29
        } else {
            28
        }
    } else if month == 4 || month == 6 || month == 9 || month == 11 {
        30
    } else {
        31
    }
}

/// The number of days of a year before the first of a month.
pub open spec fn days_before_month(year: int, month: int) -> int
    decreases month,
{
    if month <= 1 {
        0
    } else {
        days_before_month(year, month - 1) + month_len(year, month - 1)
    }
}

/// The number of days from the first of January of year 1 to that of `year`.
pub open spec fn days_before_year(year: int) -> int {
    365 * (year - 1) + (year - 1) / 4 - (year - 1) / 100 + (year - 1) / 400
}

/// The day's number, the first of January of year 1 being day 1.
pub open spec fn day_number(year: int, month: int, day: int) -> int {
    days_before_year(year) + days_before_month(year, month) + day
}

/// There is such a date.
pub open spec fn is_date(year: int, month: int, day: int) -> bool {
    &&& year_in_range(year)
    &&& 1 <= month <= 12
    &&& 1 <= day <= month_len(year, month)
}

impl Civil {
    /// The date exists.
    pub open spec fn valid(self) -> bool {
        is_date(self.year as int, self.month as int, self.day as int)
    }

    /// Year, month and day.
    pub open spec fn parts(self) -> (int, int, int) {
        (self.year as int, self.month as int, self.day as int)
    }

    /// The date's day number.
    pub open spec fn number(self) -> int {
        day_number(self.year as int, self.month as int, self.day as int)
    }
}

/// The number of a month counted from January of year 0.
pub open spec fn month_index(year: int, month: int) -> int {
    year * 12 + (month - 1)
}

/// The date `months` months later (earlier where negative): the same day of the
/// month, or the month's last day where the month is too short.
pub open spec fn months_later(c: Civil, months: int) -> (int, int, int) {
    let index = month_index(c.year as int, c.month as int) + months;
    let year = index / 12;
    let month = index % 12 + 1;
    let len = month_len(year, month);
    (year, month, if c.day > len {
        len
    } else {
        c.day as int
    })
}

/// The date with a given day number.
pub open spec fn date_at(number: int) -> Civil {
    choose|c: Civil| c.valid() && c.number() == number
}

/// The day number of a date, through `NaiveDate::from_ymd_opt` and
/// `num_days_from_ce`: `None` exactly where there is no such date.
#[verifier::external_body]
fn from_ymd_opt(year: i32, month: u32, day: u32) -> (r: Option<i32>)
    ensures
        r is Some <==> is_date(year as int, month as int, day as int),
        r matches Some(n) ==> n == day_number(year as int, month as int, day as int),
{
    match chrono::NaiveDate::from_ymd_opt(year, month, day) {
        Some(d) => Some(d.num_days_from_ce()),
        None => None,
    }
}

/// The date with a given day number, through
/// `NaiveDate::from_num_days_from_ce_opt`: `None` exactly where the number is not
/// that of a day of the years in range.
#[verifier::external_body]
fn from_num_days_from_ce_opt(number: i32) -> (r: Option<Civil>)
    ensures
        r is Some <==> day_number(-262143, 1, 1) <= number <= day_number(262142, 12, 31),
        r matches Some(c) ==> c.valid() && c.number() == number,
{
    match chrono::NaiveDate::from_num_days_from_ce_opt(number) {
        Some(d) => Some(Civil { year: d.year(), month: d.month(), day: d.day() }),
        None => None,
    }
}

/// `NaiveDate::checked_add_months`: the date that many months later, the day cut
/// to the month's length; `None` exactly where its year is out of range, or where
/// the date handed in does not exist.
#[verifier::external_body]
fn checked_add_months(c: Civil, months: u32) -> (r: Option<Civil>)
    ensures
        (r is Some) == (c.valid() && year_in_range(months_later(c, months as int).0)),
        r matches Some(s) ==> s.parts() == months_later(c, months as int),
{
    let d = chrono::NaiveDate::from_ymd_opt(c.year, c.month, c.day)?;
    let s = d.checked_add_months(chrono::Months::new(months))?;
    Some(Civil { year: s.year(), month: s.month(), day: s.day() })
}

/// `NaiveDate::checked_sub_months`: the date that many months earlier, the day cut
/// to the month's length; `None` exactly where its year is out of range, or where
/// the date handed in does not exist.
#[verifier::external_body]
fn checked_sub_months(c: Civil, months: u32) -> (r: Option<Civil>)
    ensures
        (r is Some) == (c.valid() && year_in_range(months_later(c, -(months as int)).0)),
        r matches Some(s) ==> s.parts() == months_later(c, -(months as int)),
{
    let d = chrono::NaiveDate::from_ymd_opt(c.year, c.month, c.day)?;
    let s = d.checked_sub_months(chrono::Months::new(months))?;
    Some(Civil { year: s.year(), month: s.month(), day: s.day() })
}

/// A UTC offset in seconds east that a time zone can have.
pub open spec fn is_offset(seconds: int) -> bool {
    -86400 < seconds < 86400
}

/// The machine's UTC offset at a local wall-clock time, given in seconds as if it
/// were UTC, through `Local.from_local_datetime` and `earliest`: the earlier of
/// two, and `None` where the clock skips that time. What the offset is rests on
/// the machine's time zone; it is always less than a day either way.
#[verifier::external_body]
fn local_offset(wall: i64) -> (r: Option<i32>)
    requires
        -10_000_000_000 <= wall <= 10_000_000_000,
    ensures
        r matches Some(o) ==> is_offset(o as int),
{
    let naive = chrono::DateTime::from_timestamp(wall, 0)?.naive_utc();
    let t = chrono::Local.from_local_datetime(&naive).earliest()?;
    Some(t.offset().local_minus_utc())
}

/// The offset to read a local wall-clock time with, where the zone has `found` at
/// that time: none (UTC) where the clock skips it.
pub open spec fn offset_found(found: Option<i32>) -> i32 {
    match found {
        Some(o) => o,
        None => 0,
    }
}

/// Takes the offset that a zone has at a local wall-clock time, or UTC where the
/// clock skips it.
pub fn offset_or_utc(found: Option<i32>) -> (r: i32)
    ensures
        r == offset_found(found),
{
    match found {
        Some(o) => o,
        None => 0,
    }
}

/// The offset to read a local wall-clock time with: the machine's at that time,
/// the earlier of two, and none (UTC) where the clock skips it.
pub fn wall_offset(wall: i64) -> (r: i32)
    requires
        -10_000_000_000 <= wall <= 10_000_000_000,
    ensures
        is_offset(r as int),
{
    offset_or_utc(local_offset(wall))
}

/// A year's months hold its days.
proof fn lemma_year_len(year: int)
    ensures
        days_before_month(year, 1) == 0,
        days_before_month(year, 2) == 31,
        days_before_month(year, 3) == 31 + month_len(year, 2),
        days_before_month(year, 4) == 62 + month_len(year, 2),
        days_before_month(year, 5) == 92 + month_len(year, 2),
        days_before_month(year, 6) == 123 + month_len(year, 2),
        days_before_month(year, 7) == 153 + month_len(year, 2),
        days_before_month(year, 8) == 184 + month_len(year, 2),
        days_before_month(year, 9) == 215 + month_len(year, 2),
        days_before_month(year, 10) == 245 + month_len(year, 2),
        days_before_month(year, 11) == 276 + month_len(year, 2),
        days_before_month(year, 12) == 306 + month_len(year, 2),
{
    reveal_with_fuel(days_before_month, 13);
}

/// The days of a month lie between the first of it and the first of the next.
proof fn lemma_months_apart(year: int, a: int, b: int)
    requires
        1 <= a < b <= 12,
    ensures
        days_before_month(year, a) + month_len(year, a) <= days_before_month(year, b),
{
    lemma_year_len(year);
}

/// The days of a year come before those of a later year.
proof fn lemma_years_apart(a: int, b: int)
    requires
        a < b,
    ensures
        days_before_year(a) + 365 <= days_before_year(b),
        is_leap(a) ==> days_before_year(a) + 366 <= days_before_year(b),
{
}

/// A valid date's number lies within its year.
pub proof fn lemma_number_within_year(year: int, month: int, day: int)
    requires
        1 <= month <= 12,
        1 <= day <= month_len(year, month),
    ensures
        days_before_year(year) < day_number(year, month, day),
        day_number(year, month, day) <= days_before_year(year) + if is_leap(year) {
            366int
        } else {
            365int
        },
{
    lemma_year_len(year);
}

/// Two dates with the same day number are the same date.
pub proof fn law_day_number_identifies_date(a: Civil, b: Civil)
    requires
        a.valid(),
        b.valid(),
        a.number() == b.number(),
    ensures
        a == b,
{
    let (ya, yb) = (a.year as int, b.year as int);
    lemma_number_within_year(ya, a.month as int, a.day as int);
    lemma_number_within_year(yb, b.month as int, b.day as int);
    if ya < yb {
        lemma_years_apart(ya, yb);
    } else if yb < ya {
        lemma_years_apart(yb, ya);
    }
    if a.month < b.month {
        lemma_months_apart(ya, a.month as int, b.month as int);
    } else if b.month < a.month {
        lemma_months_apart(ya, b.month as int, a.month as int);
    }
}

/// Later dates have greater day numbers.
pub proof fn law_day_number_increases(a: Civil, b: Civil)
    requires
        a.valid(),
        b.valid(),
        a.year < b.year || (a.year == b.year && (a.month < b.month || (a.month == b.month && a.day
            < b.day))),
    ensures
        a.number() < b.number(),
{
    let (ya, yb) = (a.year as int, b.year as int);
    lemma_number_within_year(ya, a.month as int, a.day as int);
    lemma_number_within_year(yb, b.month as int, b.day as int);
    if ya < yb {
        lemma_years_apart(ya, yb);
    } else if a.month < b.month {
        lemma_months_apart(ya, a.month as int, b.month as int);
    }
}

/// The first of the next month comes a month's length after the first of a month.
pub proof fn law_next_month_starts_after_month(year: int, month: int)
    requires
        1 <= month <= 12,
    ensures
        ({
            let next = month_index(year, month) + 1;
            day_number(next / 12, next % 12 + 1, 1) == day_number(year, month, 1) + month_len(
                year,
                month,
            )
        }),
{
    lemma_year_len(year);
    lemma_year_len(year + 1);
}

/// Years have 365 days, leap years 366.
pub proof fn law_year_length(year: int)
    ensures
        days_before_year(year + 1) - days_before_year(year) == if is_leap(year) {
            366int
        } else {
            365int
        },
{
}

/// Every day from the first of year 1 on, up to the last year in range, has a date.
pub proof fn law_every_day_has_a_date(number: int)
    requires
        1 <= number <= day_number(262142, 12, 31),
    ensures
        date_at(number).valid(),
        date_at(number).number() == number,
        date_at(number).year >= 1,
    decreases number,
{
    if number == 1 {
        let c = Civil { year: 1, month: 1, day: 1 };
        assert(days_before_month(1, 1) == 0);
        assert(c.valid() && c.number() == number);
        law_day_number_identifies_date(c, date_at(number));
    } else {
        law_every_day_has_a_date(number - 1);
        let b = date_at(number - 1);
        let (y, m) = (b.year as int, b.month as int);
        law_next_month_starts_after_month(y, m);
        let c = if b.day < month_len(y, m) {
            Civil { year: b.year, month: b.month, day: (b.day + 1) as u32 }
        } else if b.month < 12 {
            Civil { year: b.year, month: (b.month + 1) as u32, day: 1 }
        } else {
            Civil { year: (b.year + 1) as i32, month: 1, day: 1 }
        };
        if b.year == 262142 && b.month == 12 {
            assert(b.day < 31);
        }
        assert(c.valid() && c.number() == number);
        law_day_number_identifies_date(c, date_at(number));
    }
}

/// The day number of a date, where there is such a date.
pub fn number_of_date(year: i32, month: u32, day: u32) -> (r: Option<i32>)
    ensures
        r is Some <==> is_date(year as int, month as int, day as int),
        r matches Some(n) ==> n == day_number(year as int, month as int, day as int),
{
    from_ymd_opt(year, month, day)
}

/// The date with a given day number.
pub fn date_of_number(number: i32) -> (r: Option<Civil>)
    ensures
        r is Some <==> day_number(-262143, 1, 1) <= number <= day_number(262142, 12, 31),
        r matches Some(c) ==> c.valid() && c.number() == number && c == date_at(number as int),
{
    let r = from_num_days_from_ce_opt(number);
    proof {
        if let Some(c) = r {
            law_day_number_identifies_date(c, date_at(number as int));
        }
    }
    r
}

/// The date a number of months later, or earlier where the number is negative:
/// `None` where its year is out of range.
pub fn shift_months(c: Civil, months: i64) -> (r: Option<Civil>)
    requires
        c.valid(),
    ensures
        r is Some <==> year_in_range(months_later(c, months as int).0),
        r matches Some(s) ==> s.valid() && s.parts() == months_later(c, months as int),
{
    if months >= 0 {
        if months > 0xffff_ffff {
            return None;
        }
        checked_add_months(c, months as u32)
    } else {
        if months < -0xffff_ffff {
            return None;
        }
        checked_sub_months(c, (-months) as u32)
    }
}

/// Where the clock of a zone skips a time, UTC stands in for it.
pub proof fn law_skipped_times_are_utc(found: Option<i32>)
    ensures
        found is Some ==> offset_found(found) == found->0,
        found is None ==> offset_found(found) == 0,
{
}

/// Some months later is in the month that many months on, on the same day, or on the
/// last of the month where it has no such day.
pub proof fn law_months_later_keep_the_day(c: Civil, months: int)
    requires
        c.valid(),
    ensures
        ({
            let (y, m, d) = months_later(c, months);
            &&& 12 * y + m == 12 * c.year + c.month + months
            &&& 1 <= m <= 12
            &&& c.day <= month_len(y, m) ==> d == c.day
            &&& c.day > month_len(y, m) ==> d == month_len(y, m)
        }),
{
}

/// The months have the days that they are known to have, and every fourth year a
/// February of 29, but of the full hundreds only every fourth.
pub proof fn law_days_of_the_months(year: int)
    ensures
        month_len(year, 1) == 31 && month_len(year, 3) == 31 && month_len(year, 5) == 31
            && month_len(year, 7) == 31 && month_len(year, 8) == 31 && month_len(year, 10) == 31
            && month_len(year, 12) == 31,
        month_len(year, 4) == 30 && month_len(year, 6) == 30 && month_len(year, 9) == 30
            && month_len(year, 11) == 30,
        month_len(year, 2) == 28 || month_len(year, 2) == 29,
        year % 4 != 0 ==> month_len(year, 2) == 28,
        year % 4 == 0 && year % 100 != 0 ==> month_len(year, 2) == 29,
        year % 100 == 0 && year % 400 != 0 ==> month_len(year, 2) == 28,
        year % 400 == 0 ==> month_len(year, 2) == 29,
{
}

} // verus!
