//! Date expressions and their resolution to half-open intervals.
//!
//! Every date denotes an interval, not an instant: its precision sets the width.
//! An offset behaves differently as a bare term than as a range bound: bare
//! `{-7d}` is the window from seven days ago to now, but in `{-3mo}..{-1mo}` each
//! side is the point itself. So there are three ways to resolve an expression:
//! [`DateExpr::resolve`] for a bare term, [`DateExpr::start`] for a low bound and
//! [`DateExpr::end`] for a high bound.
use vstd::prelude::*;

use crate::civil::{
    date_at, date_of_number, day_number, days_before_month, is_date, is_leap,
    is_offset, law_every_day_has_a_date, law_next_month_starts_after_month, law_year_length, lemma_number_within_year,
    month_len, months_later, number_of_date, shift_months, wall_offset, Civil,
};

verus! {

/// A half-open interval `[start, end)` in nanoseconds since the Unix epoch.
/// `None` on a side means that it is open there.
#[derive(Clone, Copy, Debug, PartialEq, Eq, Structural)]
pub struct Interval {
    pub start: Option<i64>,
    pub end: Option<i64>,
}

impl Interval {
    pub fn ns(start: i64, end: i64) -> (r: Self)
        ensures
            r.start == Some(start),
            r.end == Some(end),
    {
        Interval { start: Some(start), end: Some(end) }
    }

    /// The interval that is open on both sides.
    pub fn unbounded() -> (r: Self)
        ensures
            r.start is None,
            r.end is None,
    {
        Interval { start: None, end: None }
    }
}

/// A fixed offset from UTC, in seconds east.
#[derive(Clone, Copy, Debug, PartialEq, Eq, Structural)]
pub struct UtcOffset {
    pub east: i32,
}

impl UtcOffset {
    /// The offset, where it is less than a day either way.
    pub fn east_opt(seconds: i32) -> (r: Option<UtcOffset>)
        ensures
            r == (if is_offset(seconds as int) {
                Some(UtcOffset { east: seconds })
            } else {
                None
            }),
    {
        if -86400 < seconds && seconds < 86400 {
            Some(UtcOffset { east: seconds })
        } else {
            None
        }
    }
}

#[derive(Clone, Debug, PartialEq, Eq)]
pub enum DateExpr {
    /// A truncated timestamp.
    Absolute(PartialDate),
    /// A signed duration from now.
    Offset { sign: i8, n: i64, unit: Unit },
    /// A calendar keyword.
    Keyword(Keyword),
}

/// A possibly truncated absolute date. Missing parts default to their minimum to
/// form the start; the least significant part that is present sets the width.
/// Without `tz` the date is in the machine's local time zone.
#[derive(Clone, Debug, PartialEq, Eq)]
pub struct PartialDate {
    pub year: i32,
    pub month: Option<u32>,
    pub day: Option<u32>,
    pub hour: Option<u32>,
    pub min: Option<u32>,
    pub sec: Option<u32>,
    pub tz: Option<UtcOffset>,
}

#[derive(Clone, Copy, Debug, PartialEq, Eq, Structural)]
pub enum Unit {
    Sec,
    Min,
    Hour,
    Day,
    Week,
    Month,
    Year,
}

#[derive(Clone, Copy, Debug, PartialEq, Eq, Structural)]
pub enum Keyword {
    Now,
    Today,
    Yesterday,
    Tomorrow,
    This(CalUnit),
    Last(CalUnit),
    Next(CalUnit),
}

#[derive(Clone, Copy, Debug, PartialEq, Eq, Structural)]
pub enum CalUnit {
    Day,
    Week,
    Month,
    Year,
}

/// An instant together with the machine's UTC offset at it.
#[derive(Clone, Copy, Debug, PartialEq, Eq, Structural)]
pub struct LocalTime {
    /// Nanoseconds since the Unix epoch.
    pub ns: i64,
    /// The local offset in seconds east.
    pub offset: i32,
}

/// The number of the day on which the Unix epoch starts.
pub const EPOCH_DAY: i32 = 719_163;

/// The wall-clock seconds at which a day starts, counted from the start of 1970.
pub open spec fn day_start(day: int) -> int {
    (day - EPOCH_DAY) * 86400
}

/// The number of nanoseconds can be held.
pub open spec fn in_ns(n: int) -> bool {
    i64::MIN <= n <= i64::MAX
}

/// A point in time: an instant, or a local wall-clock time whose instant depends
/// on the offset of the zone at that time.
pub enum Moment {
    Instant(int),
    Wall { secs: int, nanos: int },
}

impl Moment {
    /// The instant, with the zone's offset at the wall-clock time.
    pub open spec fn at(self, offset: int) -> int {
        match self {
            Moment::Instant(n) => n,
            Moment::Wall { secs, nanos } => (secs - offset) * 1_000_000_000 + nanos,
        }
    }

    /// The instant in a zone that has the offset `zone(secs)` at each wall-clock time.
    pub open spec fn in_zone(self, zone: spec_fn(int) -> int) -> int {
        match self {
            Moment::Instant(n) => n,
            Moment::Wall { secs, .. } => self.at(zone(secs)),
        }
    }

    /// The instant can be held, with the zone's offset at the wall-clock time.
    pub open spec fn held(self, offset: int) -> bool {
        in_ns(self.at(offset))
    }

    /// The moment is near enough to be looked at: an instant that can be held, or a
    /// wall-clock time in the years around those that can.
    pub open spec fn near(self) -> bool {
        match self {
            Moment::Instant(n) => in_ns(n),
            Moment::Wall { secs, nanos } => {
                &&& 0 <= nanos < 1_000_000_000
                &&& -9_300_000_000 <= secs <= 9_300_000_000
            },
        }
    }
}

impl LocalTime {
    /// The offset is one that a zone can have.
    pub open spec fn valid(self) -> bool {
        is_offset(self.offset as int)
    }

    /// Nanoseconds of the local wall clock since it showed the start of 1970.
    pub open spec fn wall_ns(self) -> int {
        self.ns + self.offset * 1_000_000_000
    }

    /// The number of the local day.
    pub open spec fn day(self) -> int {
        self.wall_ns() / 86_400_000_000_000 + EPOCH_DAY
    }

    /// The nanoseconds since local midnight.
    pub open spec fn time_ns(self) -> int {
        self.wall_ns() % 86_400_000_000_000
    }

    /// The same local time of day, `months` months away.
    pub open spec fn months_away(self, months: int) -> Moment {
        let (y, m, d) = months_later(date_at(self.day()), months);
        Moment::Wall {
            secs: day_start(day_number(y, m, d)) + self.time_ns() / 1_000_000_000,
            nanos: self.time_ns() % 1_000_000_000,
        }
    }

    /// The moment `k` units away: elapsed time up to weeks, calendar arithmetic
    /// for months and years.
    pub open spec fn shifted(self, k: int, unit: Unit) -> Moment {
        match unit {
            Unit::Sec => Moment::Instant(self.ns + k * 1_000_000_000),
            Unit::Min => Moment::Instant(self.ns + k * 60_000_000_000),
            Unit::Hour => Moment::Instant(self.ns + k * 3_600_000_000_000),
            Unit::Day => Moment::Instant(self.ns + k * 86_400_000_000_000),
            Unit::Week => Moment::Instant(self.ns + k * 604_800_000_000_000),
            Unit::Month => self.months_away(k),
            Unit::Year => self.months_away(k * 12),
        }
    }

    /// The days `[from, to)` of the calendar unit `k` units away from the one that
    /// holds this time. Weeks start on Monday.
    pub open spec fn calendar_days(self, unit: CalUnit, k: int) -> (int, int) {
        let day = self.day();
        let date = date_at(day);
        match unit {
            CalUnit::Day => (day + k, day + k + 1),
            CalUnit::Week => {
                let monday = day - (day - 1) % 7;
                (monday + 7 * k, monday + 7 * k + 7)
            },
            CalUnit::Month => {
                let first = Civil { year: date.year, month: date.month, day: 1 };
                (first_of(first, k), first_of(first, k + 1))
            },
            CalUnit::Year => {
                let first = Civil { year: date.year, month: 1, day: 1 };
                (first_of(first, 12 * k), first_of(first, 12 * k + 12))
            },
        }
    }
}

/// The day number of the date `months` months after `c`.
pub open spec fn first_of(c: Civil, months: int) -> int {
    let (y, m, d) = months_later(c, months);
    day_number(y, m, d)
}

/// A part of a date, or its least value where it is missing.
pub open spec fn part_or(part: Option<u32>, least: int) -> int {
    match part {
        Some(v) => v as int,
        None => least,
    }
}

impl PartialDate {
    pub open spec fn month_or_first(self) -> int {
        part_or(self.month, 1)
    }

    pub open spec fn day_or_first(self) -> int {
        part_or(self.day, 1)
    }

    /// The date and the time of day exist.
    pub open spec fn valid(self) -> bool {
        &&& is_date(self.year as int, self.month_or_first(), self.day_or_first())
        &&& part_or(self.hour, 0) < 24
        &&& part_or(self.min, 0) < 60
        &&& part_or(self.sec, 0) < 60
    }

    /// The seconds since midnight at the start.
    pub open spec fn time(self) -> int {
        part_or(self.hour, 0) * 3600 + part_or(self.min, 0) * 60 + part_or(self.sec, 0)
    }

    /// The wall-clock time at which the date starts.
    pub open spec fn start_wall(self) -> int {
        day_start(day_number(self.year as int, self.month_or_first(), self.day_or_first()))
            + self.time()
    }

    /// The wall-clock time one unit of the least significant present part later.
    pub open spec fn end_wall(self) -> int {
        if self.sec is Some {
            self.start_wall() + 1
        } else if self.min is Some {
            self.start_wall() + 60
        } else if self.hour is Some {
            self.start_wall() + 3600
        } else if self.day is Some {
            self.start_wall() + 86400
        } else {
            let first = Civil {
                year: self.year,
                month: self.month_or_first() as u32,
                day: self.day_or_first() as u32,
            };
            day_start(
                first_of(
                    first,
                    if self.month is Some {
                        1
                    } else {
                        12
                    },
                ),
            )
        }
    }

    /// A wall-clock time of this date's zone as a moment.
    pub open spec fn moment(self, wall: int) -> Moment {
        match self.tz {
            Some(off) => Moment::Instant((wall - off.east) * 1_000_000_000),
            None => Moment::Wall { secs: wall, nanos: 0 },
        }
    }

    /// The first moment of the date.
    pub open spec fn first(self) -> Moment {
        self.moment(self.start_wall())
    }

    /// The first moment after the date.
    pub open spec fn past(self) -> Moment {
        self.moment(self.end_wall())
    }

    /// The date exists and its bounds can be looked at.
    pub open spec fn placed(self) -> bool {
        self.valid() && self.first().near() && self.past().near()
    }

    /// The date exists and its bounds can be held, with the zone's offsets at them.
    pub open spec fn held(self, low: int, high: int) -> bool {
        self.placed() && self.first().held(low) && self.past().held(high)
    }

    /// The interval of the date, where its bounds can be held.
    pub open spec fn interval_if_held(self, low: int, high: int) -> Option<Interval> {
        if self.held(low, high) {
            Some(interval(self.first().at(low), self.past().at(high)))
        } else {
            None
        }
    }
}

impl Keyword {
    /// The unit and how many of it away, where the keyword is a calendar interval.
    pub open spec fn calendar(self) -> Option<(CalUnit, int)> {
        match self {
            Keyword::Now => None,
            Keyword::Today => Some((CalUnit::Day, 0)),
            Keyword::Yesterday => Some((CalUnit::Day, -1)),
            Keyword::Tomorrow => Some((CalUnit::Day, 1)),
            Keyword::This(u) => Some((u, 0)),
            Keyword::Last(u) => Some((u, -1)),
            Keyword::Next(u) => Some((u, 1)),
        }
    }

    /// The first moment of the keyword's interval.
    pub open spec fn first(self, now: LocalTime) -> Moment {
        match self.calendar() {
            None => Moment::Instant(now.ns as int),
            Some((u, k)) => Moment::Wall { secs: day_start(now.calendar_days(u, k).0), nanos: 0 },
        }
    }

    /// The first moment after the keyword's interval; for `now` the instant itself.
    pub open spec fn past(self, now: LocalTime) -> Moment {
        match self.calendar() {
            None => Moment::Instant(now.ns as int),
            Some((u, k)) => Moment::Wall { secs: day_start(now.calendar_days(u, k).1), nanos: 0 },
        }
    }

    /// The bounds can be looked at.
    pub open spec fn placed(self, now: LocalTime) -> bool {
        now.valid() && self.first(now).near() && self.past(now).near()
    }

    /// The bounds can be held, with the zone's offsets at them.
    pub open spec fn held(self, now: LocalTime, low: int, high: int) -> bool {
        self.placed(now) && self.first(now).held(low) && self.past(now).held(high)
    }

    /// The keyword's interval, where its bounds can be held.
    pub open spec fn interval_if_held(self, now: LocalTime, low: int, high: int) -> Option<
        Interval,
    > {
        if self.held(now, low, high) {
            Some(interval(self.first(now).at(low), self.past(now).at(high)))
        } else {
            None
        }
    }

    /// The keyword's interval in a zone that has the offset `zone(secs)` at each
    /// wall-clock time.
    pub open spec fn in_zone(self, now: LocalTime, zone: spec_fn(int) -> int) -> Interval {
        interval(self.first(now).in_zone(zone), self.past(now).in_zone(zone))
    }
}

/// The day of the week of a day number, counted from Monday.
pub open spec fn weekday(day: int) -> int {
    (day - 1) % 7
}

/// The clock of a zone, which shows `clock(t)` at the instant `t`, reaches `wall` at
/// `at` and not before: it does not skip it.
pub open spec fn reaches(clock: spec_fn(int) -> int, wall: int, at: int) -> bool {
    forall|t: int| t < at ==> #[trigger] clock(t) < wall
}

/// The clock of a zone is not set back over `wall` from `at` on.
pub open spec fn stays_past(clock: spec_fn(int) -> int, wall: int, at: int) -> bool {
    forall|t: int| at <= t ==> wall <= #[trigger] clock(t)
}

impl DateExpr {
    /// The bounds of the interval, or the point on both sides for an offset.
    pub open spec fn low(self, now: LocalTime) -> Moment {
        match self {
            DateExpr::Absolute(p) => p.first(),
            DateExpr::Keyword(k) => k.first(now),
            DateExpr::Offset { sign, n, unit } => now.shifted(sign * n, unit),
        }
    }

    /// The high bound, or the point for an offset.
    pub open spec fn high(self, now: LocalTime) -> Moment {
        match self {
            DateExpr::Absolute(p) => p.past(),
            DateExpr::Keyword(k) => k.past(now),
            DateExpr::Offset { sign, n, unit } => now.shifted(sign * n, unit),
        }
    }

    /// The expression denotes an interval whose bounds can be looked at.
    pub open spec fn placed(self, now: LocalTime) -> bool {
        &&& now.valid()
        &&& (self matches DateExpr::Absolute(p) ==> p.valid())
        &&& self.low(now).near()
        &&& self.high(now).near()
    }

    /// The low bound can be held, with the zone's offset at it.
    pub open spec fn low_held(self, now: LocalTime, low: int) -> bool {
        self.placed(now) && self.low(now).held(low)
    }

    /// The high bound can be held, with the zone's offset at it.
    pub open spec fn high_held(self, now: LocalTime, high: int) -> bool {
        self.placed(now) && self.high(now).held(high)
    }

    /// The interval of a bare term can be held, with the zone's offsets at the bounds.
    pub open spec fn held(self, now: LocalTime, low: int, high: int) -> bool {
        self.low_held(now, low) && (self is Offset || self.high_held(now, high))
    }

    /// The interval of a bare term, where it can be held.
    pub open spec fn resolved_if_held(self, now: LocalTime, low: int, high: int) -> Option<
        Interval,
    > {
        if self.held(now, low, high) {
            Some(self.resolved(now, low, high))
        } else {
            None
        }
    }

    /// The interval of a bare term, with the zone's offsets at the two bounds. A
    /// bare offset is the window between its point and now.
    pub open spec fn resolved(self, now: LocalTime, low: int, high: int) -> Interval {
        let (a, b) = (self.low(now).at(low), self.high(now).at(high));
        if self is Offset {
            if a <= now.ns {
                interval(a, now.ns as int)
            } else {
                interval(now.ns as int, a)
            }
        } else {
            interval(a, b)
        }
    }
}

/// The interval with two bounds.
pub open spec fn interval(start: int, end: int) -> Interval {
    Interval { start: Some(start as i64), end: Some(end as i64) }
}

/// A [`Moment`] that can be held.
#[derive(Clone, Copy, Debug, PartialEq, Eq, Structural)]
pub enum Anchor {
    Instant(i64),
    Wall { secs: i64, nanos: u32 },
}

impl View for Anchor {
    type V = Moment;

    open spec fn view(&self) -> Moment {
        match *self {
            Anchor::Instant(n) => Moment::Instant(n as int),
            Anchor::Wall { secs, nanos } => Moment::Wall { secs: secs as int, nanos: nanos as int },
        }
    }
}

impl Anchor {
    fn instant(ns: i128) -> (r: Option<Anchor>)
        ensures
            r is Some <==> Moment::Instant(ns as int).near(),
            r matches Some(a) ==> a@ == Moment::Instant(ns as int),
    {
        if ns < i64::MIN as i128 || ns > i64::MAX as i128 {
            return None;
        }
        Some(Anchor::Instant(ns as i64))
    }

    fn wall(secs: i128, nanos: u32) -> (r: Option<Anchor>)
        requires
            nanos < 1_000_000_000,
        ensures
            r is Some <==> (Moment::Wall { secs: secs as int, nanos: nanos as int }).near(),
            r matches Some(a) ==> a@ == (Moment::Wall { secs: secs as int, nanos: nanos as int }),
    {
        if secs < -9_300_000_000 || secs > 9_300_000_000 {
            return None;
        }
        Some(Anchor::Wall { secs: secs as i64, nanos })
    }

    /// Whether the instant can be held, with the zone's offset at the wall-clock time.
    pub fn can_hold(&self, offset: i32) -> (r: bool)
        ensures
            r == self@.held(offset as int),
    {
        match *self {
            Anchor::Instant(_) => true,
            Anchor::Wall { secs, nanos } => {
                let n: i128 = (secs as i128 - offset as i128) * 1_000_000_000 + nanos as i128;
                i64::MIN as i128 <= n && n <= i64::MAX as i128
            },
        }
    }

    /// The instant, with the zone's offset at the wall-clock time.
    pub fn at(&self, offset: i32) -> (r: i64)
        requires
            self@.held(offset as int),
        ensures
            r == self@.at(offset as int),
    {
        match *self {
            Anchor::Instant(n) => n,
            Anchor::Wall { secs, nanos } => {
                let s: i128 = secs as i128 - offset as i128;
                (s * 1_000_000_000 + nanos as i128) as i64
            },
        }
    }

    /// The wall-clock time whose offset is to be looked up, in seconds as if it were
    /// UTC; none for an instant.
    pub fn wall_secs(&self) -> (r: Option<i64>)
        ensures
            match self@ {
                Moment::Instant(_) => r is None,
                Moment::Wall { secs, .. } => r matches Some(s) && s == secs,
            },
    {
        match *self {
            Anchor::Instant(_) => None,
            Anchor::Wall { secs, .. } => Some(secs),
        }
    }

    /// The offset to read the moment with: the machine's at the wall-clock time, UTC
    /// for an instant. What the machine's is rests on its time zone.
    pub fn zone_offset(&self) -> (r: i32)
        requires
            self@.near(),
        ensures
            is_offset(r as int),
            self@ is Instant ==> r == 0,
    {
        match self.wall_secs() {
            None => 0,
            Some(secs) => wall_offset(secs),
        }
    }
}

proof fn lemma_now_day(now: LocalTime)
    requires
        now.valid(),
    ensures
        600_000 <= now.day() <= 840_000,
        0 <= now.time_ns() < 86_400_000_000_000,
        now.wall_ns() == (now.day() - EPOCH_DAY) * 86_400_000_000_000 + now.time_ns(),
{
}

/// A day whose start can be held lies in a year near ours.
proof fn lemma_near_year(year: int, month: int, day: int)
    requires
        1 <= month <= 12,
        1 <= day <= month_len(year, month),
        -1_000_000 <= day_number(year, month, day) <= 2_000_000,
    ensures
        -4_000 <= year <= 6_000,
{
    lemma_number_within_year(year, month, day);
}

/// Shifting a valid date by months gives a date, but for its year.
proof fn lemma_shifted_shape(c: Civil, months: int)
    requires
        c.valid(),
    ensures
        1 <= months_later(c, months).1 <= 12,
        1 <= months_later(c, months).2 <= month_len(
            months_later(c, months).0,
            months_later(c, months).1,
        ),
{
}

/// A wall-clock time that can be looked at lies on a day near ours.
proof fn lemma_near_day(secs: int, nanos: int, day: int, time: int)
    requires
        (Moment::Wall { secs, nanos }).near(),
        secs == day_start(day) + time,
        0 <= time < 86400,
    ensures
        600_000 <= day <= 840_000,
{
}

impl LocalTime {
    /// Whether the offset is one that a zone can have.
    pub fn is_valid(&self) -> (r: bool)
        ensures
            r == self.valid(),
    {
        -86400 < self.offset && self.offset < 86400
    }

    /// The local calendar date.
    pub fn date(&self) -> (r: Civil)
        requires
            self.valid(),
        ensures
            r.valid(),
            r.number() == self.day(),
            r == date_at(self.day()),
    {
        let wall: i128 = self.ns as i128 + self.offset as i128 * 1_000_000_000;
        proof {
            lemma_now_day(*self);
        }
        let q: i128 = if wall >= 0 {
            wall / 86_400_000_000_000
        } else {
            -((-wall + 86_399_999_999_999) / 86_400_000_000_000)
        };
        assert(q + EPOCH_DAY == self.day());
        let day: i32 = q as i32 + EPOCH_DAY;
        proof {
            lemma_in_chart(day as int);
        }
        date_of_number(day).unwrap()
    }

    /// The nanoseconds since local midnight.
    pub fn time(&self) -> (r: i64)
        requires
            self.valid(),
        ensures
            r == self.time_ns(),
            0 <= r < 86_400_000_000_000,
    {
        let wall: i128 = self.ns as i128 + self.offset as i128 * 1_000_000_000;
        proof {
            lemma_now_day(*self);
        }
        let r: i128 = if wall >= 0 {
            wall % 86_400_000_000_000
        } else {
            86_399_999_999_999 - (-wall - 1) % 86_400_000_000_000
        };
        assert(r == self.time_ns());
        r as i64
    }

    /// The same local time of day some months away, where it can be looked at.
    fn months_anchor(&self, months: i128) -> (r: Option<Anchor>)
        requires
            self.valid(),
        ensures
            r is Some <==> self.months_away(months as int).near(),
            r matches Some(a) ==> a@ == self.months_away(months as int),
    {
        let date: Civil = self.date();
        let time: i64 = self.time();
        let ghost (y, m, d) = months_later(date, months as int);
        proof {
            lemma_shifted_shape(date, months as int);
            if self.months_away(months as int).near() {
                lemma_near_day(
                    day_start(day_number(y, m, d)) + self.time_ns() / 1_000_000_000,
                    self.time_ns() % 1_000_000_000,
                    day_number(y, m, d),
                    self.time_ns() / 1_000_000_000,
                );
                lemma_near_year(y, m, d);
            }
        }
        if months < -1_000_000_000 || months > 1_000_000_000 {
            return None;
        }
        match shift_months(date, months as i64) {
            Some(c) => {
                let number: i32 = number_of_date(c.year, c.month, c.day).unwrap();
                let secs: i128 = (number as i128 - EPOCH_DAY as i128) * 86400 + (time
                    / 1_000_000_000) as i128;
                Anchor::wall(secs, (time % 1_000_000_000) as u32)
            },
            None => None,
        }
    }

    /// The moment `k` units away, where it can be looked at.
    fn shift(&self, k: i128, unit: Unit) -> (r: Option<Anchor>)
        requires
            self.valid(),
            -0x100_0000_0000_0000_0000 <= k <= 0x100_0000_0000_0000_0000,
        ensures
            r is Some <==> self.shifted(k as int, unit).near(),
            r matches Some(a) ==> a@ == self.shifted(k as int, unit),
    {
        let ns: i128 = self.ns as i128;
        match unit {
            Unit::Sec => Anchor::instant(ns + k * 1_000_000_000),
            Unit::Min => Anchor::instant(ns + k * 60_000_000_000),
            Unit::Hour => Anchor::instant(ns + k * 3_600_000_000_000),
            Unit::Day => Anchor::instant(ns + k * 86_400_000_000_000),
            Unit::Week => Anchor::instant(ns + k * 604_800_000_000_000),
            Unit::Month => self.months_anchor(k),
            Unit::Year => self.months_anchor(k * 12),
        }
    }

    /// The days `[from, to)` of the calendar unit `k` units away.
    fn cal_interval(&self, unit: CalUnit, k: i32) -> (r: (i32, i32))
        requires
            self.valid(),
            -1 <= k <= 1,
        ensures
            r.0 == self.calendar_days(unit, k as int).0,
            r.1 == self.calendar_days(unit, k as int).1,
    {
        let date: Civil = self.date();
        proof {
            lemma_now_day(*self);
            lemma_near_year(date.year as int, date.month as int, date.day as int);
        }
        match unit {
            CalUnit::Day => {
                let day: i32 = number_of_date(date.year, date.month, date.day).unwrap();
                (day + k, day + k + 1)
            },
            CalUnit::Week => {
                let day: i32 = number_of_date(date.year, date.month, date.day).unwrap();
                let monday: i32 = day - (day - 1) % 7;
                (monday + 7 * k, monday + 7 * k + 7)
            },
            CalUnit::Month => {
                let first: Civil = Civil { year: date.year, month: date.month, day: 1 };
                (first_number(first, k as i64), first_number(first, k as i64 + 1))
            },
            CalUnit::Year => {
                let first: Civil = Civil { year: date.year, month: 1, day: 1 };
                (first_number(first, 12 * k as i64), first_number(first, 12 * k as i64 + 12))
            },
        }
    }
}

/// The day number of the date some months after a date near ours.
fn first_number(c: Civil, months: i64) -> (r: i32)
    requires
        c.valid(),
        -4_000 <= c.year <= 6_000,
        -1_000 <= months <= 1_000,
    ensures
        r == first_of(c, months as int),
{
    proof {
        lemma_shifted_shape(c, months as int);
    }
    let s: Civil = shift_months(c, months).unwrap();
    number_of_date(s.year, s.month, s.day).unwrap()
}

impl PartialDate {
    /// The bounds of the date, where it exists and they can be looked at.
    pub fn anchors(&self) -> (r: Option<(Anchor, Anchor)>)
        ensures
            r is Some <==> self.placed(),
            r matches Some((a, b)) ==> a@ == self.first() && b@ == self.past(),
    {
        let month: u32 = self.month.unwrap_or(1);
        let day: u32 = self.day.unwrap_or(1);
        let hour: u32 = self.hour.unwrap_or(0);
        let min: u32 = self.min.unwrap_or(0);
        let sec: u32 = self.sec.unwrap_or(0);
        if hour >= 24 || min >= 60 || sec >= 60 {
            return None;
        }
        let number: i32 = match number_of_date(self.year, month, day) {
            Some(n) => n,
            None => return None,
        };
        let time: i128 = hour as i128 * 3600 + min as i128 * 60 + sec as i128;
        let start: i128 = (number as i128 - EPOCH_DAY as i128) * 86400 + time;
        let first: Anchor = match self.anchor(start) {
            Some(a) => a,
            None => return None,
        };
        let end: i128 = if self.sec.is_some() {
            start + 1
        } else if self.min.is_some() {
            start + 60
        } else if self.hour.is_some() {
            start + 3600
        } else if self.day.is_some() {
            start + 86400
        } else {
            proof {
                lemma_start_near(*self, start as int);
                lemma_near_year(self.year as int, month as int, day as int);
            }
            let date: Civil = Civil { year: self.year, month, day };
            let months: i64 = if self.month.is_some() {
                1
            } else {
                12
            };
            (first_number(date, months) as i128 - EPOCH_DAY as i128) * 86400
        };
        match self.anchor(end) {
            Some(b) => Some((first, b)),
            None => None,
        }
    }

    /// A wall-clock time of this date's zone, where it can be looked at.
    fn anchor(&self, wall: i128) -> (r: Option<Anchor>)
        requires
            -0x100_0000_0000_0000_0000 <= wall <= 0x100_0000_0000_0000_0000,
        ensures
            r is Some <==> self.moment(wall as int).near(),
            r matches Some(a) ==> a@ == self.moment(wall as int),
    {
        match self.tz {
            Some(off) => Anchor::instant((wall - off.east as i128) * 1_000_000_000),
            None => Anchor::wall(wall, 0),
        }
    }

    /// The interval of the date, with the zone's offsets at its two bounds.
    pub fn interval_at(&self, low: i32, high: i32) -> (r: Interval)
        requires
            self.held(low as int, high as int),
        ensures
            r == interval(self.first().at(low as int), self.past().at(high as int)),
    {
        let (a, b) = self.anchors().unwrap();
        Interval::ns(a.at(low), b.at(high))
    }

    /// The interval of the date: in its own offset, or in the machine's zone. `None`
    /// where there is no such date or a bound cannot be held.
    pub fn interval(&self) -> (r: Option<Interval>)
        ensures
            exists|low: int, high: int|
                is_offset(low) && is_offset(high) && r == #[trigger] self.interval_if_held(
                    low,
                    high,
                ),
    {
        let (a, b): (Anchor, Anchor) = match self.anchors() {
            Some(p) => p,
            None => {
                assert(is_offset(0) && self.interval_if_held(0, 0) is None);
                return None;
            },
        };
        let low: i32 = a.zone_offset();
        let high: i32 = b.zone_offset();
        let ghost held = self.interval_if_held(low as int, high as int);
        if a.can_hold(low) && b.can_hold(high) {
            Some(self.interval_at(low, high))
        } else {
            None
        }
    }
}

/// A date whose start can be looked at lies near ours.
proof fn lemma_start_near(p: PartialDate, start: int)
    requires
        p.valid(),
        p.moment(start).near(),
        start == p.start_wall(),
    ensures
        -1_000_000 <= day_number(p.year as int, p.month_or_first(), p.day_or_first()) <= 2_000_000,
{
}

impl Keyword {
    /// The bounds of the keyword's interval, where they can be looked at.
    pub fn anchors(&self, now: LocalTime) -> (r: Option<(Anchor, Anchor)>)
        requires
            now.valid(),
        ensures
            r is Some <==> self.placed(now),
            r matches Some((a, b)) ==> a@ == self.first(now) && b@ == self.past(now),
    {
        let (unit, k): (CalUnit, i32) = match *self {
            Keyword::Now => {
                return Some((Anchor::Instant(now.ns), Anchor::Instant(now.ns)));
            },
            Keyword::Today => (CalUnit::Day, 0),
            Keyword::Yesterday => (CalUnit::Day, -1),
            Keyword::Tomorrow => (CalUnit::Day, 1),
            Keyword::This(u) => (u, 0),
            Keyword::Last(u) => (u, -1),
            Keyword::Next(u) => (u, 1),
        };
        let (from, to) = now.cal_interval(unit, k);
        let a: Option<Anchor> = Anchor::wall((from as i128 - EPOCH_DAY as i128) * 86400, 0);
        let b: Option<Anchor> = Anchor::wall((to as i128 - EPOCH_DAY as i128) * 86400, 0);
        match (a, b) {
            (Some(x), Some(y)) => Some((x, y)),
            _ => None,
        }
    }

    /// The keyword's interval, with the zone's offsets at its two bounds.
    pub fn interval_at(&self, now: LocalTime, low: i32, high: i32) -> (r: Interval)
        requires
            self.held(now, low as int, high as int),
        ensures
            r == interval(self.first(now).at(low as int), self.past(now).at(high as int)),
    {
        let (a, b) = self.anchors(now).unwrap();
        Interval::ns(a.at(low), b.at(high))
    }

    /// The keyword's interval in the machine's zone; `None` where a bound cannot be held.
    pub fn interval(&self, now: LocalTime) -> (r: Option<Interval>)
        ensures
            exists|low: int, high: int|
                is_offset(low) && is_offset(high) && r == #[trigger] self.interval_if_held(
                    now,
                    low,
                    high,
                ),
    {
        let found: Option<(Anchor, Anchor)> = if now.is_valid() {
            self.anchors(now)
        } else {
            None
        };
        let (a, b): (Anchor, Anchor) = match found {
            Some(p) => p,
            None => {
                assert(is_offset(0) && self.interval_if_held(now, 0, 0) is None);
                return None;
            },
        };
        let low: i32 = a.zone_offset();
        let high: i32 = b.zone_offset();
        let ghost held = self.interval_if_held(now, low as int, high as int);
        if a.can_hold(low) && b.can_hold(high) {
            Some(self.interval_at(now, low, high))
        } else {
            None
        }
    }
}

impl DateExpr {
    /// The bounds of the expression, or its point on both sides for an offset;
    /// `None` where it names no date or a bound cannot be looked at.
    pub fn anchors(&self, now: LocalTime) -> (r: Option<(Anchor, Anchor)>)
        requires
            now.valid(),
        ensures
            r is Some <==> self.placed(now),
            r matches Some((a, b)) ==> a@ == self.low(now) && b@ == self.high(now),
    {
        match self {
            DateExpr::Absolute(p) => p.anchors(),
            DateExpr::Keyword(k) => k.anchors(now),
            DateExpr::Offset { sign, n, unit } => {
                proof {
                    lemma_signed_bound(*sign as int, *n as int);
                }
                let k: i128 = *sign as i128 * *n as i128;
                match now.shift(k, *unit) {
                    Some(a) => Some((a, a)),
                    None => None,
                }
            },
        }
    }

    /// The interval of a bare term, with the zone's offsets at its two bounds.
    pub fn resolve_at(&self, now: LocalTime, low: i32, high: i32) -> (r: Interval)
        requires
            self.held(now, low as int, high as int),
        ensures
            r == self.resolved(now, low as int, high as int),
    {
        let (a, b) = self.anchors(now).unwrap();
        let start: i64 = a.at(low);
        match self {
            DateExpr::Offset { .. } => {
                if start <= now.ns {
                    Interval::ns(start, now.ns)
                } else {
                    Interval::ns(now.ns, start)
                }
            },
            _ => Interval::ns(start, b.at(high)),
        }
    }

    /// The bounds of the expression, where `now` is a local time and they can be looked
    /// at.
    fn placed_anchors(&self, now: LocalTime) -> (r: Option<(Anchor, Anchor)>)
        ensures
            r is Some <==> self.placed(now),
            r matches Some((a, b)) ==> a@ == self.low(now) && b@ == self.high(now),
    {
        if now.is_valid() {
            self.anchors(now)
        } else {
            None
        }
    }

    /// Whether the low bound can be held, with the zone's offset at it.
    pub fn can_start(&self, now: LocalTime, low: i32) -> (r: bool)
        ensures
            r == self.low_held(now, low as int),
    {
        match self.placed_anchors(now) {
            Some((a, _)) => a.can_hold(low),
            None => false,
        }
    }

    /// Whether the high bound can be held, with the zone's offset at it.
    pub fn can_end(&self, now: LocalTime, high: i32) -> (r: bool)
        ensures
            r == self.high_held(now, high as int),
    {
        match self.placed_anchors(now) {
            Some((_, b)) => b.can_hold(high),
            None => false,
        }
    }

    /// Whether the interval of a bare term can be held, with the zone's offsets at its
    /// two bounds.
    pub fn can_resolve(&self, now: LocalTime, low: i32, high: i32) -> (r: bool)
        ensures
            r == self.held(now, low as int, high as int),
    {
        let offset: bool = match self {
            DateExpr::Offset { .. } => true,
            _ => false,
        };
        self.can_start(now, low) && (offset || self.can_end(now, high))
    }

    /// The interval of a bare term, in the machine's zone. `None` where it names no date
    /// or a bound cannot be held.
    pub fn resolve(&self, now: LocalTime) -> (r: Option<Interval>)
        ensures
            exists|low: int, high: int|
                is_offset(low) && is_offset(high) && r == #[trigger] self.resolved_if_held(
                    now,
                    low,
                    high,
                ),
    {
        let (low, high): (i32, i32) = self.zone_offsets(now);
        let ghost held = self.resolved_if_held(now, low as int, high as int);
        if self.can_resolve(now, low, high) {
            Some(self.resolve_at(now, low, high))
        } else {
            None
        }
    }

    /// The zone's offsets at the two bounds, in the machine's zone; none for bounds that
    /// cannot be looked at.
    pub fn zone_offsets(&self, now: LocalTime) -> (r: (i32, i32))
        ensures
            is_offset(r.0 as int),
            is_offset(r.1 as int),
            self.low(now) is Instant || !self.placed(now) ==> r.0 == 0,
            self.high(now) is Instant || !self.placed(now) ==> r.1 == 0,
    {
        match self.placed_anchors(now) {
            Some((a, b)) => (a.zone_offset(), b.zone_offset()),
            None => (0, 0),
        }
    }

    /// The start as the low side of a range, with the zone's offset at it.
    pub fn start_at(&self, now: LocalTime, low: i32) -> (r: Option<i64>)
        requires
            self.low_held(now, low as int),
        ensures
            r == Some(self.low(now).at(low as int) as i64),
    {
        let (a, _) = self.anchors(now).unwrap();
        Some(a.at(low))
    }

    /// The end as the high side of a range, with the zone's offset at it.
    pub fn end_at(&self, now: LocalTime, high: i32) -> (r: Option<i64>)
        requires
            self.high_held(now, high as int),
        ensures
            r == Some(self.high(now).at(high as int) as i64),
    {
        let (_, b) = self.anchors(now).unwrap();
        Some(b.at(high))
    }

    /// The start, where the expression is the low side of a range; `None` where it names
    /// no date or the start cannot be held.
    pub fn start(&self, now: LocalTime) -> (r: Option<i64>)
        ensures
            exists|low: int|
                #![trigger self.low_held(now, low)]
                is_offset(low) && r == (if self.low_held(now, low) {
                    Some(self.low(now).at(low) as i64)
                } else {
                    None::<i64>
                }),
    {
        let (low, _): (i32, i32) = self.zone_offsets(now);
        assert(is_offset(low as int));
        if self.can_start(now, low) {
            self.start_at(now, low)
        } else {
            None
        }
    }

    /// The end, where the expression is the high side of a range; `None` where it names
    /// no date or the end cannot be held.
    pub fn end(&self, now: LocalTime) -> (r: Option<i64>)
        ensures
            exists|high: int|
                #![trigger self.high_held(now, high)]
                is_offset(high) && r == (if self.high_held(now, high) {
                    Some(self.high(now).at(high) as i64)
                } else {
                    None::<i64>
                }),
    {
        let (_, high): (i32, i32) = self.zone_offsets(now);
        assert(is_offset(high as int));
        if self.can_end(now, high) {
            self.end_at(now, high)
        } else {
            None
        }
    }
}

proof fn lemma_signed_bound(sign: int, n: int)
    requires
        -128 <= sign <= 127,
        i64::MIN <= n <= i64::MAX,
    ensures
        -0x100_0000_0000_0000_0000 <= sign * n <= 0x100_0000_0000_0000_0000,
{
    assert(-128 * 0x8000_0000_0000_0000 <= sign * n <= 128 * 0x8000_0000_0000_0000)
        by (nonlinear_arith)
        requires
            -128 <= sign <= 128,
            -0x8000_0000_0000_0000 <= n <= 0x8000_0000_0000_0000,
    ;
}

/// Days near ours are on the calendar.
proof fn lemma_in_chart(day: int)
    requires
        -1_000_000 <= day <= 2_000_000,
    ensures
        day_number(-262143, 1, 1) <= day <= day_number(262142, 12, 31),
{
    lemma_number_within_year(-262143, 1, 1);
    lemma_number_within_year(262142, 12, 31);
}

/// A calendar unit ends where the next one starts, for any two neighbours: the
/// last and this, this and the next; so yesterday ends where today starts. That holds
/// in every zone, whatever offset it has at each of the midnights.
pub proof fn law_calendar_units_abut(
    now: LocalTime,
    unit: CalUnit,
    k: int,
    zone: spec_fn(int) -> int,
)
    ensures
        now.calendar_days(unit, k).1 == now.calendar_days(unit, k + 1).0,
        Keyword::Last(unit).past(now) == Keyword::This(unit).first(now),
        Keyword::This(unit).past(now) == Keyword::Next(unit).first(now),
        Keyword::Last(unit).in_zone(now, zone).end == Keyword::This(unit).in_zone(now, zone).start,
        Keyword::This(unit).in_zone(now, zone).end == Keyword::Next(unit).in_zone(now, zone).start,
        Keyword::Yesterday.in_zone(now, zone).end == Keyword::Today.in_zone(now, zone).start,
        Keyword::Today.in_zone(now, zone).end == Keyword::Tomorrow.in_zone(now, zone).start,
{
}

/// The words for days are the calendar days around now.
pub proof fn law_day_words_are_calendar_days(now: LocalTime, zone: spec_fn(int) -> int)
    ensures
        Keyword::Today.in_zone(now, zone) == Keyword::This(CalUnit::Day).in_zone(now, zone),
        Keyword::Yesterday.in_zone(now, zone) == Keyword::Last(CalUnit::Day).in_zone(now, zone),
        Keyword::Tomorrow.in_zone(now, zone) == Keyword::Next(CalUnit::Day).in_zone(now, zone),
{
}

/// A week starts at the midnight of a Monday. The Unix epoch was a Thursday.
pub proof fn law_week_starts_on_monday(now: LocalTime, k: int)
    ensures
        weekday(EPOCH_DAY as int) == 3,
        weekday(now.calendar_days(CalUnit::Week, k).0) == 0,
        Keyword::This(CalUnit::Week).first(now) == (Moment::Wall {
            secs: day_start(now.calendar_days(CalUnit::Week, 0).0),
            nanos: 0,
        }),
{
}

/// The calendar unit that now lies in, in days.
proof fn lemma_unit_holds_day(now: LocalTime, unit: CalUnit)
    requires
        now.valid(),
    ensures
        now.calendar_days(unit, 0).0 <= now.day() < now.calendar_days(unit, 0).1,
        day_start(now.calendar_days(unit, 0).0) * 1_000_000_000 <= now.wall_ns(),
        now.wall_ns() < day_start(now.calendar_days(unit, 0).1) * 1_000_000_000,
{
    lemma_now_day(now);
    lemma_in_chart(now.day());
    law_every_day_has_a_date(now.day());
    let date = date_at(now.day());
    let (y, m) = (date.year as int, date.month as int);
    lemma_number_within_year(y, m, date.day as int);
    law_next_month_starts_after_month(y, m);
    law_year_length(y);
    let (from, to) = now.calendar_days(unit, 0);
    match unit {
        CalUnit::Month => {
            let first = Civil { year: date.year, month: date.month, day: 1 };
            assert(months_later(first, 0) == (y, m, 1int));
        },
        CalUnit::Year => {
            let first = Civil { year: date.year, month: 1, day: 1 };
            assert(months_later(first, 0) == (y, 1int, 1int));
            assert(months_later(first, 12) == (y + 1, 1int, 1int));
            assert(days_before_month(y, 1) == 0);
            assert(days_before_month(y + 1, 1) == 0);
        },
        _ => {},
    }
    assert(from <= now.day() < to);
}

/// The calendar unit that `this` names holds now, with an offset for each of its two
/// midnights: the zone's clock reaches the first without skipping it, and is not set
/// back over the second.
pub proof fn law_this_unit_holds_now(
    now: LocalTime,
    unit: CalUnit,
    zone: spec_fn(int) -> int,
    clock: spec_fn(int) -> int,
)
    requires
        now.valid(),
        clock(now.ns as int) == now.wall_ns(),
        reaches(
            clock,
            day_start(now.calendar_days(unit, 0).0) * 1_000_000_000,
            Keyword::This(unit).first(now).in_zone(zone),
        ),
        stays_past(
            clock,
            day_start(now.calendar_days(unit, 0).1) * 1_000_000_000,
            Keyword::This(unit).past(now).in_zone(zone),
        ),
    ensures
        Keyword::This(unit).first(now).in_zone(zone) <= now.ns,
        now.ns < Keyword::This(unit).past(now).in_zone(zone),
{
    lemma_unit_holds_day(now, unit);
    assert(clock(now.ns as int) == now.wall_ns());
}

/// The calendar unit that `this` names holds now in a zone that keeps one offset.
pub proof fn law_this_unit_holds_now_in_one_offset(now: LocalTime, unit: CalUnit)
    requires
        now.valid(),
    ensures
        Keyword::This(unit).first(now).at(now.offset as int) <= now.ns,
        now.ns < Keyword::This(unit).past(now).at(now.offset as int),
{
    let zone = |w: int| now.offset as int;
    let clock = |t: int| t + now.offset * 1_000_000_000;
    law_this_unit_holds_now(now, unit, zone, clock);
}

/// An absolute date denotes an interval that is not empty, in any one offset.
pub proof fn law_absolute_interval_not_empty(p: PartialDate, offset: int)
    requires
        p.valid(),
    ensures
        p.first().at(offset) < p.past().at(offset),
{
    if p.sec is None && p.min is None && p.hour is None && p.day is None {
        let (y, m) = (p.year as int, p.month_or_first());
        law_next_month_starts_after_month(y, m);
        law_year_length(y);
        if p.month is None {
            let first = Civil { year: p.year, month: 1, day: 1 };
            assert(months_later(first, 12) == (y + 1, 1int, 1int));
            assert(days_before_month(y, 1) == 0);
            assert(days_before_month(y + 1, 1) == 0);
        }
    }
}

/// A bare offset is a window with now on one side and its point on the other: a point
/// that is not after now opens the window, one that is not before it closes it.
pub proof fn law_bare_offset_reaches_now(
    now: LocalTime,
    sign: i8,
    n: i64,
    unit: Unit,
    low: int,
    high: int,
)
    ensures
        ({
            let d = DateExpr::Offset { sign, n, unit };
            let point = d.low(now).at(low);
            &&& point <= now.ns ==> d.resolved(now, low, high) == interval(point, now.ns as int)
            &&& point >= now.ns ==> d.resolved(now, low, high) == interval(now.ns as int, point)
        }),
{
}

/// The units are of the sizes that they are known by: a week is seven days, a day is 24
/// hours, an hour is 60 minutes, a minute is 60 seconds, a second is a thousand million
/// nanoseconds, and a year is twelve months.
pub proof fn law_units_have_their_sizes(now: LocalTime, n: int)
    ensures
        now.shifted(n, Unit::Sec) == Moment::Instant(now.ns + n * 1_000_000_000),
        now.shifted(n, Unit::Min) == now.shifted(60 * n, Unit::Sec),
        now.shifted(n, Unit::Hour) == now.shifted(60 * n, Unit::Min),
        now.shifted(n, Unit::Day) == now.shifted(24 * n, Unit::Hour),
        now.shifted(n, Unit::Week) == now.shifted(7 * n, Unit::Day),
        now.shifted(n, Unit::Year) == now.shifted(12 * n, Unit::Month),
{
}

/// Some months away it is the same time of day, on a date whose month is as many months
/// away and whose day is the same, or the last of the month where the month is shorter.
pub proof fn law_months_away_keep_day_and_time(now: LocalTime, n: int)
    requires
        now.valid(),
    ensures
        ({
            let date = date_at(now.day());
            exists|y: int, m: int, d: int|
                #![trigger day_number(y, m, d)]
                {
                    &&& 12 * y + m == 12 * date.year + date.month + n
                    &&& 1 <= m <= 12
                    &&& 1 <= d <= month_len(y, m)
                    &&& d == date.day || (d == month_len(y, m) && d < date.day)
                    &&& now.shifted(n, Unit::Month) == (Moment::Wall {
                        secs: (day_number(y, m, d) - 719_163) * 86_400 + now.wall_ns()
                            % 86_400_000_000_000 / 1_000_000_000,
                        nanos: now.wall_ns() % 86_400_000_000_000 % 1_000_000_000,
                    })
                }
        }),
{
    lemma_now_day(now);
    lemma_in_chart(now.day());
    law_every_day_has_a_date(now.day());
    let date = date_at(now.day());
    let (y, m, d) = months_later(date, n);
    lemma_shifted_shape(date, n);
    assert(12 * y + m == 12 * date.year + date.month + n);
    let here = day_number(y, m, d);
}

/// An elapsed offset lies on its side of now, whatever the zone: what is taken off lies
/// in the past and what is added in the future.
pub proof fn law_elapsed_offset_lies_on_its_side(now: LocalTime, n: i64, unit: Unit, low: int)
    requires
        n >= 0,
        unit is Sec || unit is Min || unit is Hour || unit is Day || unit is Week,
    ensures
        (DateExpr::Offset { sign: -1i8 as i8, n, unit }).low(now).at(low) <= now.ns,
        now.ns <= (DateExpr::Offset { sign: 1, n, unit }).low(now).at(low),
{
    let minus: i8 = -1i8 as i8;
    assert(minus * n == -n) by (nonlinear_arith)
        requires
            minus == -1,
    ;
    assert(1i8 * n == n);
    match unit {
        Unit::Sec => {},
        Unit::Min => {},
        Unit::Hour => {},
        Unit::Day => {},
        Unit::Week => {},
        _ => {},
    }
}

/// An absolute date lasts one unit of its least significant part: a second, a minute,
/// an hour, a day, the days of its month, or the days of its year.
pub proof fn law_absolute_date_lasts_its_unit(p: PartialDate, offset: int)
    requires
        p.valid(),
        p.sec is Some ==> p.min is Some,
        p.min is Some ==> p.hour is Some,
        p.hour is Some ==> p.day is Some,
        p.day is Some ==> p.month is Some,
    ensures
        ({
            let lasts = p.past().at(offset) - p.first().at(offset);
            let day = 24 * 60 * 60 * 1_000_000_000;
            &&& p.sec is Some ==> lasts == 1_000_000_000
            &&& p.min is Some && p.sec is None ==> lasts == 60 * 1_000_000_000
            &&& p.hour is Some && p.min is None ==> lasts == 60 * 60 * 1_000_000_000
            &&& p.day is Some && p.hour is None ==> lasts == day
            &&& p.month is Some && p.day is None ==> lasts == month_len(
                p.year as int,
                p.month->0 as int,
            ) * day
            &&& p.month is None ==> lasts == (if is_leap(p.year as int) {
                366 * day
            } else {
                365 * day
            })
        }),
{
    let (y, m) = (p.year as int, p.month_or_first());
    if p.day is None {
        law_next_month_starts_after_month(y, m);
        law_year_length(y);
        if p.month is None {
            let first = Civil { year: p.year, month: 1, day: 1 };
            assert(months_later(first, 12) == (y + 1, 1int, 1int));
            assert(days_before_month(y, 1) == 0);
            assert(days_before_month(y + 1, 1) == 0);
        }
    }
}

/// A date starts where its first month, its first day, its first hour, its first minute
/// and its first second start; a time of day lies as many hours, minutes and seconds
/// after the midnight of its date.
pub proof fn law_date_starts_with_its_first_part(p: PartialDate, offset: int)
    requires
        p.valid(),
    ensures
        p.month is None ==> (PartialDate { month: Some(1), ..p }).first() == p.first(),
        p.day is None ==> (PartialDate { day: Some(1), ..p }).first() == p.first(),
        p.hour is None ==> (PartialDate { hour: Some(0), ..p }).first() == p.first(),
        p.min is None ==> (PartialDate { min: Some(0), ..p }).first() == p.first(),
        p.sec is None ==> (PartialDate { sec: Some(0), ..p }).first() == p.first(),
        p.hour is Some && p.min is Some && p.sec is Some ==> p.first().at(offset) - (PartialDate {
            hour: None,
            min: None,
            sec: None,
            ..p
        }).first().at(offset) == (p.hour->0 * 3600 + p.min->0 * 60 + p.sec->0) * 1_000_000_000,
{
}

/// A date in a zone is the instant at which a clock that is so far east of UTC shows
/// it: further east it comes earlier by as much. A local date is one in the offset that
/// the local zone has.
pub proof fn law_dates_further_east_come_earlier(p: PartialDate, off: UtcOffset, other: int)
    requires
        p.valid(),
        p.tz is None,
    ensures
        ({
            let there = PartialDate { tz: Some(off), ..p };
            let utc = PartialDate { tz: Some(UtcOffset { east: 0 }), ..p };
            &&& there.first().at(other) == utc.first().at(other) - off.east * 1_000_000_000
            &&& there.past().at(other) == utc.past().at(other) - off.east * 1_000_000_000
            &&& p.first().at(off.east as int) == there.first().at(other)
            &&& p.past().at(off.east as int) == there.past().at(other)
        }),
{
}

/// The bounds of a bare date are its start and its end; those of `now` are one instant.
pub proof fn law_bare_date_is_its_interval(d: DateExpr, now: LocalTime, low: int, high: int)
    ensures
        d matches DateExpr::Absolute(p) ==> d.resolved(now, low, high) == interval(
            p.first().at(low),
            p.past().at(high),
        ),
        d matches DateExpr::Keyword(k) ==> d.resolved(now, low, high) == interval(
            k.first(now).at(low),
            k.past(now).at(high),
        ),
        Keyword::Now.first(now) == Moment::Instant(now.ns as int),
        Keyword::Now.past(now) == Moment::Instant(now.ns as int),
{
}

/// A calendar unit is as long as it is known to be: a day is one day and a week seven,
/// and each is as far from the one that holds now as it says.
pub proof fn law_calendar_days_and_weeks(now: LocalTime, k: int)
    ensures
        now.calendar_days(CalUnit::Day, k).0 == now.day() + k,
        now.calendar_days(CalUnit::Day, k).1 == now.day() + k + 1,
        now.calendar_days(CalUnit::Week, k).1 - now.calendar_days(CalUnit::Week, k).0 == 7,
        now.calendar_days(CalUnit::Week, k).0 - now.calendar_days(CalUnit::Week, 0).0 == 7 * k,
        now.calendar_days(CalUnit::Week, 0).0 <= now.day() < now.calendar_days(CalUnit::Week, 0).1,
{
}

/// Months and years of the calendar start on the first: this month on the first of the
/// month of today, this year on the first of January of its year, and the others as
/// many months or years away.
pub proof fn law_calendar_months_and_years(now: LocalTime, k: int)
    ensures
        ({
            let date = date_at(now.day());
            let months = 12 * date.year + date.month - 1 + k;
            &&& now.calendar_days(CalUnit::Month, k).0 == day_number(months / 12, months % 12 + 1, 1)
            &&& now.calendar_days(CalUnit::Year, k).0 == day_number(date.year + k, 1, 1)
        }),
{
    let date = date_at(now.day());
    let first = Civil { year: date.year, month: 1, day: 1 };
    assert(months_later(first, 12 * k) == (date.year + k, 1int, 1int)) by {
        let index = date.year * 12 + 12 * k;
        assert(index / 12 == date.year + k);
        assert(index % 12 == 0);
    }
}

/// A date exists where its month is one of twelve, its day one of its month, its hour
/// one of 24, and its minute and its second are of sixty.
pub proof fn law_dates_that_exist(p: PartialDate)
    requires
        -262143 <= p.year <= 262142,
        p.month is Some,
        p.day is Some,
        p.hour is Some,
        p.min is Some,
        p.sec is Some,
    ensures
        p.valid() <==> {
            &&& 1 <= p.month->0 <= 12
            &&& 1 <= p.day->0 <= month_len(p.year as int, p.month->0 as int)
            &&& p.hour->0 <= 23
            &&& p.min->0 <= 59
            &&& p.sec->0 <= 59
        },
{
}

/// A date is held exactly where it exists and both its bounds can be: being near enough
/// to be looked at rules out none that could be.
pub proof fn law_dates_are_held_where_their_bounds_are(p: PartialDate, low: int, high: int)
    requires
        is_offset(low),
        is_offset(high),
    ensures
        p.held(low, high) <==> p.valid() && i64::MIN <= p.first().at(low) <= i64::MAX && i64::MIN
            <= p.past().at(high) <= i64::MAX,
        p.interval_if_held(low, high) is Some <==> p.held(low, high),
        p.interval_if_held(low, high) matches Some(iv) ==> iv.start == Some(
            p.first().at(low) as i64,
        ) && iv.end == Some(p.past().at(high) as i64),
{
}

/// A keyword is held exactly where both its bounds can be.
pub proof fn law_keywords_are_held_where_their_bounds_are(
    k: Keyword,
    now: LocalTime,
    low: int,
    high: int,
)
    requires
        now.valid(),
        is_offset(low),
        is_offset(high),
    ensures
        k.held(now, low, high) <==> i64::MIN <= k.first(now).at(low) <= i64::MAX && i64::MIN
            <= k.past(now).at(high) <= i64::MAX,
        k.interval_if_held(now, low, high) matches Some(iv) ==> iv.start == Some(
            k.first(now).at(low) as i64,
        ) && iv.end == Some(k.past(now).at(high) as i64),
{
}

/// A moment of the wall clock is as many nanoseconds after the epoch as its seconds,
/// less the offset of the zone, and its nanoseconds say; an instant does not depend on
/// the zone.
pub proof fn law_moments_in_a_zone(secs: int, nanos: int, offset: int, n: int)
    ensures
        (Moment::Wall { secs, nanos }).at(offset) == secs * 1_000_000_000 - offset * 1_000_000_000
            + nanos,
        (Moment::Wall { secs, nanos }).at(0) == secs * 1_000_000_000 + nanos,
        Moment::Instant(n).at(offset) == n,
{
}

/// The local clock is ahead of UTC by its offset; a day of it starts at its midnight,
/// and the time of day is what has passed since.
pub proof fn law_local_day_and_time(now: LocalTime)
    ensures
        now.wall_ns() == now.ns + now.offset * 1_000_000_000,
        (now.day() - 719_163) * 86_400_000_000_000 + now.time_ns() == now.wall_ns(),
        0 <= now.time_ns() < 86_400_000_000_000,
        day_start(719_163) == 0,
        day_start(now.day()) * 1_000_000_000 + now.time_ns() == now.wall_ns(),
{
}

/// An offset of a zone is less than a day either way; no other is taken.
pub proof fn law_offsets_are_less_than_a_day(seconds: i32, r: Option<UtcOffset>)
    requires
        call_ensures(UtcOffset::east_opt, (seconds,), r),
    ensures
        r is Some <==> -24 * 60 * 60 < seconds < 24 * 60 * 60,
        r is Some ==> r->0.east == seconds,
{
}

} // verus!
