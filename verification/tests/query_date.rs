//! Dates of the query language: absolute dates, offsets from now and calendar words.
use chrono::{DateTime, Datelike, Duration, Local, TimeZone, Timelike, Utc};
use hashit::civil::{offset_or_utc, wall_offset};
use hashit::query::date::{
    Anchor, CalUnit, DateExpr, Interval, Keyword, LocalTime, PartialDate, Unit, UtcOffset,
};

const DAY_NS: i64 = 24 * 3600 * 1_000_000_000;

fn noon() -> DateTime<Local> {
    // Noon avoids DST edge cases in any sane zone.
    Local
        .with_ymd_and_hms(2026, 6, 19, 12, 0, 0)
        .single()
        .unwrap()
}

fn to_ns<Tz: TimeZone>(dt: DateTime<Tz>) -> i64 {
    dt.timestamp_nanos_opt()
        .expect("timestamp within representable range")
}

fn local(dt: DateTime<Local>) -> LocalTime {
    LocalTime {
        ns: to_ns(dt),
        offset: dt.offset().local_minus_utc(),
    }
}

fn utc() -> UtcOffset {
    UtcOffset::east_opt(0).unwrap()
}

fn utc_ns(y: i32, mo: u32, d: u32, h: u32, mi: u32, s: u32) -> i64 {
    Utc.with_ymd_and_hms(y, mo, d, h, mi, s)
        .single()
        .unwrap()
        .timestamp_nanos_opt()
        .unwrap()
}

fn at_utc(year: i32, month: Option<u32>, day: Option<u32>) -> PartialDate {
    PartialDate {
        year,
        month,
        day,
        hour: None,
        min: None,
        sec: None,
        tz: Some(utc()),
    }
}

#[test]
fn absolute_year_in_utc() {
    let p = PartialDate {
        year: 2024,
        month: None,
        day: None,
        hour: None,
        min: None,
        sec: None,
        tz: Some(utc()),
    };
    assert_eq!(
        p.interval().unwrap(),
        Interval::ns(utc_ns(2024, 1, 1, 0, 0, 0), utc_ns(2025, 1, 1, 0, 0, 0))
    );
}

#[test]
fn absolute_february_has_leap_day_width() {
    let feb = PartialDate {
        year: 2024, // leap year
        month: Some(2),
        day: None,
        hour: None,
        min: None,
        sec: None,
        tz: Some(utc()),
    };
    let iv = feb.interval().unwrap();
    assert_eq!(iv.end.unwrap() - iv.start.unwrap(), 29 * DAY_NS);
}

#[test]
fn absolute_day_respects_offset() {
    let off = UtcOffset::east_opt(9 * 3600).unwrap();
    let p = PartialDate {
        year: 2024,
        month: Some(3),
        day: Some(15),
        hour: None,
        min: None,
        sec: None,
        tz: Some(off),
    };
    let iv = p.interval().unwrap();
    assert_eq!(iv.end.unwrap() - iv.start.unwrap(), DAY_NS);
    // Local midnight at +09:00 is 15:00Z the previous day.
    assert_eq!(iv.start, Some(utc_ns(2024, 3, 14, 15, 0, 0)));
}

#[test]
fn offset_is_a_point_anchored_at_now() {
    let now = noon();
    let d = DateExpr::Offset {
        sign: -1,
        n: 7,
        unit: Unit::Day,
    };
    let expected = to_ns(now - Duration::days(7));
    assert_eq!(d.start(local(now)), Some(expected));
    assert_eq!(d.end(local(now)), Some(expected));
}

#[test]
fn bare_offset_is_the_window_to_now() {
    let now = noon();
    let d = DateExpr::Offset {
        sign: -1,
        n: 1,
        unit: Unit::Day,
    };
    let iv = d.resolve(local(now)).unwrap();
    assert_eq!(iv.start, Some(to_ns(now - Duration::days(1))));
    assert_eq!(iv.end, Some(to_ns(now)));
}

#[test]
fn rolling_day_differs_from_calendar_yesterday() {
    let now = local(noon());
    let rolling = DateExpr::Offset {
        sign: -1,
        n: 1,
        unit: Unit::Day,
    }
    .resolve(now).unwrap();
    let calendar = DateExpr::Keyword(Keyword::Yesterday).resolve(now).unwrap();
    assert_ne!(rolling.start, calendar.start);
}

#[test]
fn today_contains_now_and_yesterday_abuts_it() {
    let now = noon();
    let today = Keyword::Today.interval(local(now)).unwrap();
    let yesterday = Keyword::Yesterday.interval(local(now)).unwrap();
    let n = to_ns(now);
    assert!(today.start.unwrap() <= n && n < today.end.unwrap());
    assert_eq!(yesterday.end, today.start);
}

#[test]
fn offset_range_bound_is_a_point_before_now() {
    // In `{-3mo}..{-1mo}` the high bound must be now-1mo, not the window's end.
    let now = noon();
    let hi = DateExpr::Offset {
        sign: -1,
        n: 1,
        unit: Unit::Month,
    };
    assert!(hi.end(local(now)).unwrap() < to_ns(now));
    // ...whereas the *bare* term's end snaps to now.
    assert_eq!(hi.resolve(local(now)).unwrap().end, Some(to_ns(now)));
}

#[test]
fn a_forward_offset_opens_at_now() {
    let now = noon();
    let iv = DateExpr::Offset {
        sign: 1,
        n: 2,
        unit: Unit::Hour,
    }
    .resolve(local(now)).unwrap();
    assert_eq!(iv.start, Some(to_ns(now)));
    assert_eq!(iv.end, Some(to_ns(now + Duration::hours(2))));
}

#[test]
fn a_month_back_is_cut_to_the_month() {
    let now = Local
        .with_ymd_and_hms(2024, 3, 31, 12, 0, 0)
        .single()
        .unwrap();
    let d = DateExpr::Offset {
        sign: -1,
        n: 1,
        unit: Unit::Month,
    };
    let got = d.start(local(now)).unwrap();
    let back = Local.timestamp_nanos(got);
    assert_eq!((back.year(), back.month(), back.day()), (2024, 2, 29));
    assert_eq!(back.hour(), 12);
}

#[test]
fn every_part_of_a_date_has_its_width() {
    let mut p = at_utc(2023, Some(12), Some(31));
    let day = p.interval().unwrap();
    assert_eq!(day.start, Some(utc_ns(2023, 12, 31, 0, 0, 0)));
    assert_eq!(day.end, Some(utc_ns(2024, 1, 1, 0, 0, 0)));
    p.hour = Some(23);
    assert_eq!(p.interval().unwrap().end, Some(utc_ns(2024, 1, 1, 0, 0, 0)));
    p.min = Some(59);
    assert_eq!(p.interval().unwrap().start, Some(utc_ns(2023, 12, 31, 23, 59, 0)));
    p.sec = Some(59);
    assert_eq!(p.interval().unwrap().start, Some(utc_ns(2023, 12, 31, 23, 59, 59)));
    assert_eq!(p.interval().unwrap().end, Some(utc_ns(2024, 1, 1, 0, 0, 0)));
}

#[test]
fn december_ends_with_the_year() {
    assert_eq!(
        at_utc(1999, Some(12), None).interval().unwrap(),
        Interval::ns(utc_ns(1999, 12, 1, 0, 0, 0), utc_ns(2000, 1, 1, 0, 0, 0))
    );
}

#[test]
fn calendar_units_abut() {
    let now = local(noon());
    for unit in [CalUnit::Day, CalUnit::Week, CalUnit::Month, CalUnit::Year] {
        let last = Keyword::Last(unit).interval(now).unwrap();
        let this = Keyword::This(unit).interval(now).unwrap();
        let next = Keyword::Next(unit).interval(now).unwrap();
        assert_eq!(last.end, this.start);
        assert_eq!(this.end, next.start);
        assert!(this.start.unwrap() <= now.ns && now.ns < this.end.unwrap());
    }
}

#[test]
fn a_week_starts_on_monday() {
    let now = noon();
    let week = Keyword::This(CalUnit::Week).interval(local(now)).unwrap();
    let monday = Local.timestamp_nanos(week.start.unwrap());
    assert_eq!((monday.year(), monday.month(), monday.day()), (2026, 6, 15));
    assert_eq!(monday.hour(), 0);
}

#[test]
fn tomorrow_follows_today() {
    let now = local(noon());
    assert_eq!(
        Keyword::Today.interval(now).unwrap().end,
        Keyword::Tomorrow.interval(now).unwrap().start
    );
}

#[test]
fn dates_that_do_not_exist_do_not_resolve() {
    let now = local(noon());
    let resolves = |p: PartialDate| DateExpr::Absolute(p).resolve(now).is_some();
    assert!(!resolves(at_utc(2023, Some(2), Some(29))));
    assert!(resolves(at_utc(2024, Some(2), Some(29))));
    assert!(!resolves(at_utc(2024, Some(13), None)));
    // Out of the range of 64 bits of nanoseconds.
    assert!(!resolves(at_utc(3000, None, None)));
    assert!(at_utc(2024, Some(13), None).interval().is_none());
}

#[test]
fn offsets_of_a_zone_are_less_than_a_day() {
    assert!(UtcOffset::east_opt(86_399).is_some());
    assert!(UtcOffset::east_opt(86_400).is_none());
    assert!(UtcOffset::east_opt(-86_400).is_none());
}

#[test]
fn an_unbounded_interval_has_no_sides() {
    assert_eq!(Interval::unbounded().start, None);
    assert_eq!(Interval::unbounded().end, None);
}

#[test]
fn only_a_wall_clock_time_is_looked_up() {
    assert_eq!(Anchor::Instant(7).wall_secs(), None);
    assert_eq!(Anchor::Instant(7).zone_offset(), 0);
    let t = noon();
    let wall = Anchor::Wall {
        secs: t.naive_local().and_utc().timestamp(),
        nanos: 0,
    };
    assert_eq!(wall.wall_secs(), Some(t.naive_local().and_utc().timestamp()));
    assert_eq!(wall.zone_offset(), t.offset().local_minus_utc());
    assert_eq!(wall.at(wall.zone_offset()), to_ns(t));
    assert_eq!(
        wall_offset(t.naive_local().and_utc().timestamp()),
        t.offset().local_minus_utc()
    );
}

#[test]
fn a_time_that_the_clock_skips_is_read_as_utc() {
    assert_eq!(offset_or_utc(Some(-3600)), -3600);
    assert_eq!(offset_or_utc(Some(19_800)), 19_800);
    assert_eq!(offset_or_utc(None), 0);
}

#[test]
fn a_bound_is_read_with_the_offset_at_it() {
    let now = local(noon());
    let today = DateExpr::Keyword(Keyword::Today);
    let (low, high) = today.zone_offsets(now);
    assert_eq!(today.start_at(now, low), today.start(now));
    assert_eq!(today.end_at(now, high), today.end(now));
    assert_eq!(
        today.start_at(now, 3600).unwrap() - today.start_at(now, 7200).unwrap(),
        3600 * 1_000_000_000
    );
    let hour = DateExpr::Offset {
        sign: -1,
        n: 1,
        unit: Unit::Hour,
    };
    assert_eq!(hour.zone_offsets(now), (0, 0));
}

#[test]
fn day_words_are_calendar_days() {
    let now = local(noon());
    for (word, day) in [
        (Keyword::Today, Keyword::This(CalUnit::Day)),
        (Keyword::Yesterday, Keyword::Last(CalUnit::Day)),
        (Keyword::Tomorrow, Keyword::Next(CalUnit::Day)),
    ] {
        assert_eq!(word.interval_at(now, -3600, 3600), day.interval_at(now, -3600, 3600));
    }
}

#[test]
fn a_date_near_the_limits_is_held_where_its_offset_lets_it() {
    let now = local(noon());
    // The last instant that can be held is 2262-04-11T23:47:16.854775807Z.
    let hour = |hour: u32| {
        DateExpr::Absolute(PartialDate {
            hour: Some(hour),
            tz: None,
            ..at_utc(2262, Some(4), Some(11))
        })
    };
    assert!(hour(10).can_resolve(now, 0, 0));
    assert_eq!(
        hour(10).resolve_at(now, 0, 0),
        Interval::ns(utc_ns(2262, 4, 11, 10, 0, 0), utc_ns(2262, 4, 11, 11, 0, 0))
    );
    assert!(!hour(23).can_resolve(now, 0, 0));
    assert!(hour(23).can_start(now, 0));
    assert!(!hour(23).can_end(now, 0));
    assert!(hour(23).can_resolve(now, 3600, 3600));
    assert!(!hour(10).can_resolve(now, -14 * 3600, -14 * 3600));
    let (low, high) = hour(10).zone_offsets(now);
    assert_eq!(
        hour(10).resolve(now).is_some(),
        hour(10).can_resolve(now, low, high)
    );
    let first = |hour: u32| {
        DateExpr::Absolute(PartialDate {
            hour: Some(hour),
            tz: None,
            ..at_utc(1677, Some(9), Some(21))
        })
    };
    assert!(!first(0).can_resolve(now, 0, 0));
    assert!(first(1).can_resolve(now, 0, 0));
    assert!(first(0).can_resolve(now, -3600, -3600));
}

#[test]
fn a_bare_offset_of_months_reaches_now() {
    let now = local(noon());
    for unit in [Unit::Month, Unit::Year] {
        let back = DateExpr::Offset { sign: -1, n: 2, unit };
        assert_eq!(back.resolve(now).unwrap().end, Some(now.ns));
        assert_eq!(back.resolve(now).unwrap().start, back.start(now));
        let on = DateExpr::Offset { sign: 1, n: 2, unit };
        assert_eq!(on.resolve(now).unwrap().start, Some(now.ns));
        assert_eq!(on.resolve(now).unwrap().end, on.end(now));
    }
}
