//! The scanner: a query string becomes a [`Query`].
//!
//! Terms are separated by whitespace, which does not split inside quotes or
//! `{...}`. Each term is an optional `+` or `-`, an optional field with its
//! operator, then a value or an `A..B` range.
use vstd::prelude::*;

use crate::number::{
    all_digits, decimal, digits_value, law_decimal_reads_back, number_of, parse_at_most, parse_u32,
    parse_u64, without_plus,
};
use crate::query::ast::{
    term_views, Field, FieldView, Matcher, MatcherView, Op, Presence, Query, Term, TermView, Value,
    ValueView,
};
use crate::query::date::{CalUnit, DateExpr, Keyword, PartialDate, Unit, UtcOffset};
use crate::text::{
    alnum_char, chars_of, digit_char, has_prefix, index_or_len, is_alnum, is_digit, is_space,
    lemma_index_first, lemma_index_or_len, lemma_pieces_concat, lemma_pieces_nonempty,
    lemma_pieces_of_plain, lowered, part_at, pieces,
    space_char, split_all, split_first, split_once, text_between, text_eq, to_lower, trim, trimmed,
    views,
};

verus! {

/// A part of an absolute date.
#[derive(Clone, Copy, Debug, PartialEq, Eq, Structural)]
pub enum DatePart {
    Month,
    Day,
    Hour,
    Minute,
    Second,
}

/// Why a query string is refused.
#[derive(Clone, Debug, PartialEq, Eq)]
pub enum ParseError {
    TrailingBackslash,
    UnterminatedQuote,
    UnterminatedBrace,
    ExpectedValue,
    InvalidSize(String),
    EmptyDate,
    InvalidYear,
    InvalidPart(DatePart),
    OffsetOutOfRange,
    OffsetNeedsUnit,
    InvalidMagnitude,
    UnknownUnit(String),
    UnknownKeyword(String),
}

/// What a [`ParseError`] holds.
pub enum Refusal {
    TrailingBackslash,
    UnterminatedQuote,
    UnterminatedBrace,
    ExpectedValue,
    InvalidSize(Seq<char>),
    EmptyDate,
    InvalidYear,
    InvalidPart(DatePart),
    OffsetOutOfRange,
    OffsetNeedsUnit,
    InvalidMagnitude,
    UnknownUnit(Seq<char>),
    UnknownKeyword(Seq<char>),
}

impl View for ParseError {
    type V = Refusal;

    open spec fn view(&self) -> Refusal {
        match *self {
            ParseError::TrailingBackslash => Refusal::TrailingBackslash,
            ParseError::UnterminatedQuote => Refusal::UnterminatedQuote,
            ParseError::UnterminatedBrace => Refusal::UnterminatedBrace,
            ParseError::ExpectedValue => Refusal::ExpectedValue,
            ParseError::InvalidSize(w) => Refusal::InvalidSize(w@),
            ParseError::EmptyDate => Refusal::EmptyDate,
            ParseError::InvalidYear => Refusal::InvalidYear,
            ParseError::InvalidPart(p) => Refusal::InvalidPart(p),
            ParseError::OffsetOutOfRange => Refusal::OffsetOutOfRange,
            ParseError::OffsetNeedsUnit => Refusal::OffsetNeedsUnit,
            ParseError::InvalidMagnitude => Refusal::InvalidMagnitude,
            ParseError::UnknownUnit(w) => Refusal::UnknownUnit(w@),
            ParseError::UnknownKeyword(w) => Refusal::UnknownKeyword(w@),
        }
    }
}

// ---- dates -----------------------------------------------------------------

/// The text ends in an offset of the form `+hh:mm` or `-hh:mm`.
pub open spec fn has_zone_tail(s: Seq<char>) -> bool {
    let n = s.len();
    &&& n >= 6
    &&& (s[n - 6] == '+' || s[n - 6] == '-')
    &&& is_digit(s[n - 5])
    &&& is_digit(s[n - 4])
    &&& s[n - 3] == ':'
    &&& is_digit(s[n - 2])
    &&& is_digit(s[n - 1])
}

/// The seconds east of a trailing `+hh:mm` or `-hh:mm`.
pub open spec fn zone_tail_seconds(s: Seq<char>) -> int {
    let n = s.len() as int;
    let secs = digits_value(s.subrange(n - 5, n - 3)) * 3600 + digits_value(s.subrange(n - 2, n))
        * 60;
    if s[n - 6] == '+' {
        secs as int
    } else {
        -(secs as int)
    }
}

/// The text without its trailing zone, and the zone: `Z` is UTC, `+hh:mm` an
/// offset, nothing the local zone.
pub open spec fn zone_split(s: Seq<char>) -> Result<(Seq<char>, Option<UtcOffset>), Refusal> {
    if s.len() > 0 && s.last() == 'Z' {
        Ok((s.drop_last(), Some(UtcOffset { east: 0 })))
    } else if has_zone_tail(s) {
        let secs = zone_tail_seconds(s);
        if -86400 < secs < 86400 {
            Ok((s.take(s.len() - 6), Some(UtcOffset { east: secs as i32 })))
        } else {
            Err(Refusal::OffsetOutOfRange)
        }
    } else {
        Ok((s, None))
    }
}

/// The number in the `i`-th piece, where there is one.
pub open spec fn date_part(parts: Seq<Seq<char>>, i: int, which: DatePart) -> Result<
    Option<u32>,
    Refusal,
> {
    if i >= parts.len() {
        Ok(None)
    } else {
        match number_of(parts[i]) {
            Some(v) if v <= u32::MAX => Ok(Some(v as u32)),
            _ => Err(Refusal::InvalidPart(which)),
        }
    }
}

/// The year in the first piece.
pub open spec fn year_part(parts: Seq<Seq<char>>) -> Result<i32, Refusal> {
    match number_of(parts[0]) {
        Some(v) if v <= i32::MAX => Ok(v as i32),
        _ => Err(Refusal::InvalidYear),
    }
}

/// Year, month and day of a date.
pub open spec fn day_parts(date: Seq<char>) -> Result<(i32, Option<u32>, Option<u32>), Refusal> {
    let parts = pieces(date, '-');
    match (year_part(parts), date_part(parts, 1, DatePart::Month), date_part(
        parts,
        2,
        DatePart::Day,
    )) {
        (Ok(y), Ok(m), Ok(d)) => Ok((y, m, d)),
        (Err(e), _, _) => Err(e),
        (_, Err(e), _) => Err(e),
        (_, _, Err(e)) => Err(e),
    }
}

/// Hour, minute and second of a time, none of them without one.
pub open spec fn time_parts(time: Option<Seq<char>>) -> Result<
    (Option<u32>, Option<u32>, Option<u32>),
    Refusal,
> {
    match time {
        None => Ok((None, None, None)),
        Some(t) => {
            let parts = pieces(t, ':');
            match (
                date_part(parts, 0, DatePart::Hour),
                date_part(parts, 1, DatePart::Minute),
                date_part(parts, 2, DatePart::Second),
            ) {
                (Ok(h), Ok(m), Ok(s)) => Ok((h, m, s)),
                (Err(e), _, _) => Err(e),
                (_, Err(e), _) => Err(e),
                (_, _, Err(e)) => Err(e),
            }
        },
    }
}

/// A truncated timestamp: `year-month-day`, `T`, `hour:minute:second`, each part
/// but the year optional, then an optional zone.
pub open spec fn absolute_of(s: Seq<char>) -> Result<DateExpr, Refusal> {
    match zone_split(s) {
        Err(e) => Err(e),
        Ok((body, tz)) => {
            let (date, time) = match split_first(body, 'T') {
                Some((d, t)) => (d, Some(t)),
                None => (body, None),
            };
            match (day_parts(date), time_parts(time)) {
                (Err(e), _) => Err(e),
                (_, Err(e)) => Err(e),
                (Ok((year, month, day)), Ok((hour, min, sec))) => Ok(
                    DateExpr::Absolute(PartialDate { year, month, day, hour, min, sec, tz }),
                ),
            }
        },
    }
}

/// The number of digits that a text starts with.
pub open spec fn digit_run(s: Seq<char>) -> nat
    decreases s.len(),
{
    if s.len() == 0 || !is_digit(s[0]) {
        0
    } else {
        1 + digit_run(s.skip(1))
    }
}

/// The unit that a word names in an offset.
pub open spec fn unit_named(w: Seq<char>) -> Option<Unit> {
    if w == "s"@ {
        Some(Unit::Sec)
    } else if w == "m"@ {
        Some(Unit::Min)
    } else if w == "h"@ {
        Some(Unit::Hour)
    } else if w == "d"@ {
        Some(Unit::Day)
    } else if w == "w"@ {
        Some(Unit::Week)
    } else if w == "mo"@ {
        Some(Unit::Month)
    } else if w == "y"@ {
        Some(Unit::Year)
    } else {
        None
    }
}

/// A sign, a number and a unit.
pub open spec fn offset_of(s: Seq<char>) -> Result<DateExpr, Refusal> {
    let rest = s.skip(1);
    let k = digit_run(rest) as int;
    if k == rest.len() {
        Err(Refusal::OffsetNeedsUnit)
    } else if k == 0 || digits_value(rest.take(k)) > i64::MAX {
        Err(Refusal::InvalidMagnitude)
    } else {
        match unit_named(rest.skip(k)) {
            None => Err(Refusal::UnknownUnit(rest.skip(k))),
            Some(unit) => Ok(
                DateExpr::Offset {
                    sign: if s[0] == '-' {
                        -1int as i8
                    } else {
                        1
                    },
                    n: digits_value(rest.take(k)) as i64,
                    unit,
                },
            ),
        }
    }
}

/// The text without the whitespace that it starts with.
pub open spec fn after_spaces(s: Seq<char>) -> Seq<char>
    decreases s.len(),
{
    if s.len() == 0 || !is_space(s[0]) {
        s
    } else {
        after_spaces(s.skip(1))
    }
}

/// The number of characters before the first whitespace.
pub open spec fn solid_run(s: Seq<char>) -> nat
    decreases s.len(),
{
    if s.len() == 0 || is_space(s[0]) {
        0
    } else {
        1 + solid_run(s.skip(1))
    }
}

/// The first word of a text; empty where there is none.
pub open spec fn first_word(s: Seq<char>) -> Seq<char> {
    after_spaces(s).take(solid_run(after_spaces(s)) as int)
}

/// What follows the first word.
pub open spec fn after_word(s: Seq<char>) -> Seq<char> {
    after_spaces(s).skip(solid_run(after_spaces(s)) as int)
}

/// The calendar unit that a word names.
pub open spec fn cal_unit_named(w: Seq<char>) -> Option<CalUnit> {
    if w == "day"@ {
        Some(CalUnit::Day)
    } else if w == "week"@ {
        Some(CalUnit::Week)
    } else if w == "month"@ {
        Some(CalUnit::Month)
    } else if w == "year"@ {
        Some(CalUnit::Year)
    } else {
        None
    }
}

/// The keyword that a lowercase text names: one word, or a qualifier and a unit.
pub open spec fn keyword_named(l: Seq<char>) -> Option<Keyword> {
    if l == "now"@ {
        Some(Keyword::Now)
    } else if l == "today"@ {
        Some(Keyword::Today)
    } else if l == "yesterday"@ {
        Some(Keyword::Yesterday)
    } else if l == "tomorrow"@ {
        Some(Keyword::Tomorrow)
    } else {
        let q = first_word(l);
        match cal_unit_named(first_word(after_word(l))) {
            None => None,
            Some(u) => if q == "this"@ {
                Some(Keyword::This(u))
            } else if q == "last"@ {
                Some(Keyword::Last(u))
            } else if q == "next"@ {
                Some(Keyword::Next(u))
            } else {
                None
            },
        }
    }
}

/// What the inside of a `{...}` denotes: a leading digit makes an absolute date, a
/// leading sign an offset, anything else a keyword.
pub open spec fn date_of(body: Seq<char>) -> Result<DateExpr, Refusal> {
    let t = trimmed(body);
    if t.len() == 0 {
        Err(Refusal::EmptyDate)
    } else if is_digit(t[0]) {
        absolute_of(t)
    } else if t[0] == '+' || t[0] == '-' {
        offset_of(t)
    } else {
        match keyword_named(lowered(t)) {
            Some(k) => Ok(DateExpr::Keyword(k)),
            None => Err(Refusal::UnknownKeyword(t)),
        }
    }
}

/// The tail of a tail is a tail.
broadcast proof fn lemma_skip_skip(s: Seq<char>, a: int, b: int)
    requires
        0 <= a,
        0 <= b,
        a + b <= s.len(),
    ensures
        #[trigger] s.skip(a).skip(b) == s.skip(a + b),
{
    assert(s.skip(a).skip(b) =~= s.skip(a + b));
}

/// A number at a place among some pieces.
fn parse_opt(parts: &Vec<String>, i: usize, which: DatePart) -> (r: Result<Option<u32>, ParseError>)
    ensures
        match date_part(views(parts@), i as int, which) {
            Ok(v) => r == Ok::<Option<u32>, ParseError>(v),
            Err(e) => r matches Err(x) && x@ == e,
        },
{
    if i >= parts.len() {
        return Ok(None);
    }
    assert(views(parts@)[i as int] == parts@[i as int]@);
    match parse_u32(parts[i].as_str()) {
        Some(v) => Ok(Some(v)),
        None => Err(ParseError::InvalidPart(which)),
    }
}

/// Strips a trailing zone.
fn split_tz(s: &str) -> (r: Result<(String, Option<UtcOffset>), ParseError>)
    ensures
        match zone_split(s@) {
            Ok((body, tz)) => r matches Ok(p) && p.0@ == body && p.1 == tz,
            Err(e) => r matches Err(x) && x@ == e,
        },
{
    let c: Vec<char> = chars_of(s);
    let n: usize = c.len();
    if n > 0 && c[n - 1] == 'Z' {
        assert(s@.drop_last() =~= s@.subrange(0, n - 1));
        return Ok((text_between(&c, 0, n - 1), Some(UtcOffset { east: 0 })));
    }
    if n >= 6 && (c[n - 6] == '+' || c[n - 6] == '-') && digit_char(c[n - 5]) && digit_char(
        c[n - 4],
    ) && c[n - 3] == ':' && digit_char(c[n - 2]) && digit_char(c[n - 1]) {
        let h: i32 = two_digits(c[n - 5], c[n - 4]);
        let m: i32 = two_digits(c[n - 2], c[n - 1]);
        proof {
            assert(s@.subrange(n - 5, n - 3) =~= seq![c@[n - 5], c@[n - 4]]);
            assert(s@.subrange(n - 2, n as int) =~= seq![c@[n - 2], c@[n - 1]]);
        }
        let secs: i32 = if c[n - 6] == '+' {
            h * 3600 + m * 60
        } else {
            -(h * 3600 + m * 60)
        };
        assert(secs == zone_tail_seconds(s@));
        return match UtcOffset::east_opt(secs) {
            Some(off) => {
                assert(s@.take(n - 6) =~= s@.subrange(0, n - 6));
                Ok((text_between(&c, 0, n - 6), Some(off)))
            },
            None => Err(ParseError::OffsetOutOfRange),
        };
    }
    Ok((s.to_owned(), None))
}

/// The number that two digits denote.
fn two_digits(a: char, b: char) -> (r: i32)
    requires
        is_digit(a),
        is_digit(b),
    ensures
        r == digits_value(seq![a, b]),
        0 <= r <= 99,
{
    proof {
        let t = seq![a, b];
        assert(t.drop_last() =~= seq![a]);
        assert(seq![a].drop_last() =~= Seq::<char>::empty());
        reveal_with_fuel(digits_value, 3);
    }
    (a as u32 - '0' as u32) as i32 * 10 + (b as u32 - '0' as u32) as i32
}

fn parse_day_parts(date: &str) -> (r: Result<(i32, Option<u32>, Option<u32>), ParseError>)
    ensures
        match day_parts(date@) {
            Ok(v) => r == Ok::<(i32, Option<u32>, Option<u32>), ParseError>(v),
            Err(e) => r matches Err(x) && x@ == e,
        },
{
    let parts: Vec<String> = split_all(date, '-');
    proof {
        lemma_pieces_nonempty(date@, '-');
        assert(views(parts@)[0] == parts@[0]@);
    }
    let year: i32 = match parse_at_most(parts[0].as_str(), i32::MAX as u64) {
        Some(y) => y as i32,
        None => return Err(ParseError::InvalidYear),
    };
    let month: Option<u32> = match parse_opt(&parts, 1, DatePart::Month) {
        Ok(v) => v,
        Err(e) => return Err(e),
    };
    match parse_opt(&parts, 2, DatePart::Day) {
        Ok(day) => Ok((year, month, day)),
        Err(e) => Err(e),
    }
}

fn parse_time_parts(time: &Option<String>) -> (r: Result<
    (Option<u32>, Option<u32>, Option<u32>),
    ParseError,
>)
    ensures
        match time_parts(
            match *time {
                Some(t) => Some(t@),
                None => None,
            },
        ) {
            Ok(v) => r == Ok::<(Option<u32>, Option<u32>, Option<u32>), ParseError>(v),
            Err(e) => r matches Err(x) && x@ == e,
        },
{
    match time {
        None => Ok((None, None, None)),
        Some(t) => {
            let parts: Vec<String> = split_all(t.as_str(), ':');
            let hour: Option<u32> = match parse_opt(&parts, 0, DatePart::Hour) {
                Ok(v) => v,
                Err(e) => return Err(e),
            };
            let min: Option<u32> = match parse_opt(&parts, 1, DatePart::Minute) {
                Ok(v) => v,
                Err(e) => return Err(e),
            };
            match parse_opt(&parts, 2, DatePart::Second) {
                Ok(sec) => Ok((hour, min, sec)),
                Err(e) => Err(e),
            }
        },
    }
}

fn parse_absolute(s: &str) -> (r: Result<DateExpr, ParseError>)
    ensures
        match absolute_of(s@) {
            Ok(d) => r == Ok::<DateExpr, ParseError>(d),
            Err(e) => r matches Err(x) && x@ == e,
        },
{
    let (body, tz): (String, Option<UtcOffset>) = match split_tz(s) {
        Ok(p) => p,
        Err(e) => return Err(e),
    };
    let (date, time): (String, Option<String>) = match split_once(body.as_str(), 'T') {
        Some((d, t)) => (d, Some(t)),
        None => (body, None),
    };
    let (year, month, day): (i32, Option<u32>, Option<u32>) = match parse_day_parts(
        date.as_str(),
    ) {
        Ok(p) => p,
        Err(e) => return Err(e),
    };
    match parse_time_parts(&time) {
        Ok((hour, min, sec)) => Ok(
            DateExpr::Absolute(PartialDate { year, month, day, hour, min, sec, tz }),
        ),
        Err(e) => Err(e),
    }
}

fn parse_unit(w: &str) -> (r: Option<Unit>)
    ensures
        r == unit_named(w@),
{
    if text_eq(w, "s") {
        Some(Unit::Sec)
    } else if text_eq(w, "m") {
        Some(Unit::Min)
    } else if text_eq(w, "h") {
        Some(Unit::Hour)
    } else if text_eq(w, "d") {
        Some(Unit::Day)
    } else if text_eq(w, "w") {
        Some(Unit::Week)
    } else if text_eq(w, "mo") {
        Some(Unit::Month)
    } else if text_eq(w, "y") {
        Some(Unit::Year)
    } else {
        None
    }
}

/// The digits that a text starts with are digits, and the next character is none.
proof fn lemma_digit_run(s: Seq<char>, k: int)
    requires
        0 <= k <= s.len(),
        forall|i: int| 0 <= i < k ==> is_digit(#[trigger] s[i]),
        k < s.len() ==> !is_digit(s[k]),
    ensures
        digit_run(s) == k,
    decreases s.len(),
{
    if k > 0 {
        assert(is_digit(s[0]));
        assert forall|i: int| 0 <= i < k - 1 implies is_digit(#[trigger] s.skip(1)[i]) by {
            assert(is_digit(s[i + 1]));
        }
        lemma_digit_run(s.skip(1), k - 1);
    }
}

fn parse_offset(s: &str) -> (r: Result<DateExpr, ParseError>)
    requires
        s@.len() > 0,
    ensures
        match offset_of(s@) {
            Ok(d) => r == Ok::<DateExpr, ParseError>(d),
            Err(e) => r matches Err(x) && x@ == e,
        },
{
    let c: Vec<char> = chars_of(s);
    let n: usize = c.len();
    let ghost rest = s@.skip(1);
    let mut i: usize = 1;
    while i < n && digit_char(c[i])
        invariant
            n == c@.len(),
            c@ == s@,
            1 <= i <= n,
            rest == s@.skip(1),
            forall|k: int| 0 <= k < i - 1 ==> is_digit(#[trigger] rest[k]),
        decreases n - i,
    {
        assert(rest[i - 1] == c@[i as int]);
        i += 1;
    }
    proof {
        lemma_digit_run(rest, i - 1);
    }
    if i == n {
        return Err(ParseError::OffsetNeedsUnit);
    }
    let digits: String = text_between(&c, 1, i);
    let word: String = text_between(&c, i, n);
    proof {
        assert(digits@ =~= rest.take(i - 1));
        assert(word@ =~= rest.skip(i - 1));
        if i > 1 {
            assert(rest.take(i - 1)[0] == rest[0]);
            assert(all_digits(rest.take(i - 1)));
        }
    }
    let magnitude: i64 = match parse_at_most(digits.as_str(), i64::MAX as u64) {
        Some(v) => v as i64,
        None => return Err(ParseError::InvalidMagnitude),
    };
    match parse_unit(word.as_str()) {
        Some(unit) => Ok(
            DateExpr::Offset {
                sign: if c[0] == '-' {
                    -1
                } else {
                    1
                },
                n: magnitude,
                unit,
            },
        ),
        None => Err(ParseError::UnknownUnit(word)),
    }
}

/// Where the first character that is no whitespace stands, from `i` on.
fn skip_spaces(c: &Vec<char>, i: usize) -> (r: usize)
    requires
        i <= c@.len(),
    ensures
        i <= r <= c@.len(),
        c@.skip(r as int) == after_spaces(c@.skip(i as int)),
{
    let mut j: usize = i;
    while j < c.len() && space_char(c[j])
        invariant
            i <= j <= c@.len(),
            after_spaces(c@.skip(j as int)) == after_spaces(c@.skip(i as int)),
        decreases c@.len() - j,
    {
        assert(c@.skip(j as int)[0] == c@[j as int]);
        assert(c@.skip(j as int).skip(1) =~= c@.skip(j + 1));
        j += 1;
    }
    assert(j < c@.len() ==> c@.skip(j as int)[0] == c@[j as int]);
    j
}

/// Where the next whitespace stands, from `i` on.
fn skip_solid(c: &Vec<char>, i: usize) -> (r: usize)
    requires
        i <= c@.len(),
    ensures
        i <= r <= c@.len(),
        r - i == solid_run(c@.skip(i as int)),
{
    let mut j: usize = i;
    while j < c.len() && !space_char(c[j])
        invariant
            i <= j <= c@.len(),
            j - i + solid_run(c@.skip(j as int)) == solid_run(c@.skip(i as int)),
        decreases c@.len() - j,
    {
        assert(c@.skip(j as int)[0] == c@[j as int]);
        assert(c@.skip(j as int).skip(1) =~= c@.skip(j + 1));
        j += 1;
    }
    assert(j < c@.len() ==> c@.skip(j as int)[0] == c@[j as int]);
    j
}

fn parse_cal_unit(w: &str) -> (r: Option<CalUnit>)
    ensures
        r == cal_unit_named(w@),
{
    if text_eq(w, "day") {
        Some(CalUnit::Day)
    } else if text_eq(w, "week") {
        Some(CalUnit::Week)
    } else if text_eq(w, "month") {
        Some(CalUnit::Month)
    } else if text_eq(w, "year") {
        Some(CalUnit::Year)
    } else {
        None
    }
}

fn parse_keyword(l: &str) -> (r: Option<Keyword>)
    ensures
        r == keyword_named(l@),
{
    broadcast use lemma_skip_skip;

    if text_eq(l, "now") {
        return Some(Keyword::Now);
    }
    if text_eq(l, "today") {
        return Some(Keyword::Today);
    }
    if text_eq(l, "yesterday") {
        return Some(Keyword::Yesterday);
    }
    if text_eq(l, "tomorrow") {
        return Some(Keyword::Tomorrow);
    }
    let c: Vec<char> = chars_of(l);
    assert(c@.skip(0) =~= l@);
    let a: usize = skip_spaces(&c, 0);
    let b: usize = skip_solid(&c, a);
    let qualifier: String = text_between(&c, a, b);
    assert(qualifier@ =~= first_word(l@));
    assert(c@.skip(b as int) =~= after_word(l@));
    let d: usize = skip_spaces(&c, b);
    let e: usize = skip_solid(&c, d);
    let word: String = text_between(&c, d, e);
    assert(word@ =~= first_word(after_word(l@)));
    let unit: CalUnit = match parse_cal_unit(word.as_str()) {
        Some(u) => u,
        None => return None,
    };
    let q: &str = qualifier.as_str();
    if text_eq(q, "this") {
        Some(Keyword::This(unit))
    } else if text_eq(q, "last") {
        Some(Keyword::Last(unit))
    } else if text_eq(q, "next") {
        Some(Keyword::Next(unit))
    } else {
        None
    }
}

/// Parses the inside of a `{...}`.
pub fn parse_date(body: &str) -> (r: Result<DateExpr, ParseError>)
    ensures
        match date_of(body@) {
            Ok(d) => r == Ok::<DateExpr, ParseError>(d),
            Err(e) => r matches Err(x) && x@ == e,
        },
{
    let t: String = trim(body);
    let c: Vec<char> = chars_of(t.as_str());
    if c.len() == 0 {
        return Err(ParseError::EmptyDate);
    }
    let first: char = c[0];
    if digit_char(first) {
        parse_absolute(t.as_str())
    } else if first == '+' || first == '-' {
        parse_offset(t.as_str())
    } else {
        let l: String = to_lower(t.as_str());
        match parse_keyword(l.as_str()) {
            Some(k) => Ok(DateExpr::Keyword(k)),
            None => Err(ParseError::UnknownKeyword(t)),
        }
    }
}

// ---- terms -----------------------------------------------------------------

/// A character of a bare field name.
pub open spec fn field_char(c: char) -> bool {
    is_alnum(c) || c == '_' || c == '-'
}

/// The number of field characters that a text starts with.
pub open spec fn field_run(s: Seq<char>) -> nat
    decreases s.len(),
{
    if s.len() == 0 || !field_char(s[0]) {
        0
    } else {
        1 + field_run(s.skip(1))
    }
}

/// The length of the bare word that a text starts with: up to whitespace or `..`.
pub open spec fn word_run(s: Seq<char>) -> nat
    decreases s.len(),
{
    if s.len() == 0 || is_space(s[0]) || (s.len() > 1 && s[0] == '.' && s[1] == '.') {
        0
    } else {
        1 + word_run(s.skip(1))
    }
}

/// The text starts with a quote.
pub open spec fn opens_quote(s: Seq<char>) -> bool {
    s.len() > 0 && (s[0] == '\'' || s[0] == '"')
}

/// The rest of a quoted text after `seen`, and what follows the closing quote. A
/// backslash makes the next character stand for itself.
pub open spec fn quoted_after(seen: Seq<char>, s: Seq<char>, quote: char) -> Result<
    (Seq<char>, Seq<char>),
    Refusal,
>
    decreases s.len(),
{
    if s.len() == 0 {
        Err(Refusal::UnterminatedQuote)
    } else if s[0] == '\\' {
        if s.len() == 1 {
            Err(Refusal::TrailingBackslash)
        } else {
            quoted_after(seen.push(s[1]), s.skip(2), quote)
        }
    } else if s[0] == quote {
        Ok((seen, s.skip(1)))
    } else {
        quoted_after(seen.push(s[0]), s.skip(1), quote)
    }
}

/// A quoted text and what follows it.
pub open spec fn quoted(s: Seq<char>) -> Result<(Seq<char>, Seq<char>), Refusal> {
    quoted_after(Seq::empty(), s.skip(1), s[0])
}

/// The inside of a `{...}` and what follows it.
pub open spec fn braced(s: Seq<char>) -> Result<(Seq<char>, Seq<char>), Refusal> {
    match split_first(s.skip(1), '}') {
        Some(p) => Ok(p),
        None => Err(Refusal::UnterminatedBrace),
    }
}

/// The field that a name stands for: a known column, or else a metadata key.
pub open spec fn field_named(w: Seq<char>) -> FieldView {
    if w == "name"@ {
        FieldView::Name
    } else if w == "path"@ {
        FieldView::Path
    } else if w == "dir"@ {
        FieldView::Dir
    } else if w == "hash"@ {
        FieldView::Hash
    } else if w == "algo"@ {
        FieldView::Algo
    } else if w == "size"@ {
        FieldView::Size
    } else if w == "mtime"@ {
        FieldView::Mtime
    } else if w == "ext"@ {
        FieldView::Ext
    } else if w == "file_type"@ || w == "type"@ {
        FieldView::FileType
    } else {
        FieldView::Meta(w)
    }
}

/// A bare field name with `:` written as `-`.
pub open spec fn with_colons(s: Seq<char>) -> Seq<char> {
    s.map_values(
        |c: char|
            if c == '-' {
                ':'
            } else {
                c
            },
    )
}

/// The operator that a text starts with, and what follows it: `:=` before `:`.
pub open spec fn op_of(s: Seq<char>) -> Option<(Op, Seq<char>)> {
    if s.len() > 1 && s[0] == ':' && s[1] == '=' {
        Some((Op::Like, s.skip(2)))
    } else if s.len() > 0 && s[0] == '=' {
        Some((Op::Exact, s.skip(1)))
    } else if s.len() > 0 && s[0] == ':' {
        Some((Op::Match, s.skip(1)))
    } else {
        None
    }
}

/// The field name that a text starts with, and what follows it: quoted, or bare.
pub open spec fn field_name_of(s: Seq<char>) -> Result<Option<(FieldView, Seq<char>)>, Refusal> {
    if opens_quote(s) {
        match quoted(s) {
            Ok((name, rest)) => Ok(Some((field_named(name), rest))),
            Err(e) => Err(e),
        }
    } else {
        let n = field_run(s) as int;
        if n == 0 {
            Ok(None)
        } else {
            Ok(Some((field_named(with_colons(s.take(n))), s.skip(n))))
        }
    }
}

/// The field and operator of a term and what follows them. Without an operator
/// behind it a name belongs to the value.
pub open spec fn target_of(s: Seq<char>) -> Result<(FieldView, Op, Seq<char>), Refusal> {
    match field_name_of(s) {
        Err(e) => Err(e),
        Ok(None) => Ok((FieldView::Default, Op::Match, s)),
        Ok(Some((field, rest))) => match op_of(rest) {
            Some((op, value)) => Ok((field, op, value)),
            None => Ok((FieldView::Default, Op::Match, s)),
        },
    }
}

/// The bytes that a size suffix multiplies by.
pub open spec fn size_factor(w: Seq<char>) -> int {
    if w.len() == 0 {
        1
    } else if w.last() == 'k' || w.last() == 'K' {
        1024
    } else if w.last() == 'm' || w.last() == 'M' {
        1048576
    } else if w.last() == 'g' || w.last() == 'G' {
        1073741824
    } else {
        1
    }
}

/// The size that a word denotes: a number with an optional binary suffix.
pub open spec fn size_of(w: Seq<char>) -> Option<int> {
    let factor = size_factor(w);
    match number_of(
        if factor == 1 {
            w
        } else {
            w.drop_last()
        },
    ) {
        Some(n) if n <= u64::MAX && n * factor <= u64::MAX => Some(n * factor),
        _ => None,
    }
}

/// The single value that a text starts with, and what follows it.
pub open spec fn single_of(s: Seq<char>, field: FieldView) -> Result<
    (ValueView, Seq<char>),
    Refusal,
> {
    if s.len() > 0 && s[0] == '{' {
        match braced(s) {
            Err(e) => Err(e),
            Ok((body, rest)) => match date_of(body) {
                Ok(d) => Ok((ValueView::Date(d), rest)),
                Err(e) => Err(e),
            },
        }
    } else if opens_quote(s) {
        match quoted(s) {
            Ok((text, rest)) => Ok((ValueView::Text(text), rest)),
            Err(e) => Err(e),
        }
    } else {
        let n = word_run(s) as int;
        let w = s.take(n);
        if n == 0 {
            Err(Refusal::ExpectedValue)
        } else if field is Size {
            match size_of(w) {
                Some(v) => Ok((ValueView::Number(v as u64), s.skip(n))),
                None => Err(Refusal::InvalidSize(w)),
            }
        } else {
            Ok((ValueView::Text(w), s.skip(n)))
        }
    }
}

/// The text starts with the range operator.
pub open spec fn dots(s: Seq<char>) -> bool {
    s.len() > 1 && s[0] == '.' && s[1] == '.'
}

/// The text is at its end, or at a blank.
pub open spec fn term_ends(s: Seq<char>) -> bool {
    s.len() == 0 || s[0] == ' ' || s[0] == '\t' || s[0] == '\n' || s[0] == '\r'
}

/// The value or range that a text starts with, and what follows it.
pub open spec fn matcher_of(s: Seq<char>, field: FieldView) -> Result<
    (MatcherView, Seq<char>),
    Refusal,
> {
    if dots(s) {
        match single_of(s.skip(2), field) {
            Ok((hi, rest)) => Ok((MatcherView::Range(None, Some(hi)), rest)),
            Err(e) => Err(e),
        }
    } else {
        match single_of(s, field) {
            Err(e) => Err(e),
            Ok((lo, rest)) => if !dots(rest) {
                Ok((MatcherView::Single(lo), rest))
            } else if term_ends(rest.skip(2)) {
                Ok((MatcherView::Range(Some(lo), None), rest.skip(2)))
            } else {
                match single_of(rest.skip(2), field) {
                    Ok((hi, end)) => Ok((MatcherView::Range(Some(lo), Some(hi)), end)),
                    Err(e) => Err(e),
                }
            },
        }
    }
}

/// The presence that a text starts with, and what follows it.
pub open spec fn presence_of(s: Seq<char>) -> (Presence, Seq<char>) {
    if s.len() > 0 && s[0] == '+' {
        (Presence::Must, s.skip(1))
    } else if s.len() > 0 && s[0] == '-' {
        (Presence::MustNot, s.skip(1))
    } else {
        (Presence::Must, s)
    }
}

/// The term that a text starts with, and what follows it.
pub open spec fn term_of(s: Seq<char>) -> Result<(TermView, Seq<char>), Refusal> {
    let (presence, body) = presence_of(s);
    match target_of(body) {
        Err(e) => Err(e),
        Ok((field, op, value)) => match matcher_of(value, field) {
            Err(e) => Err(e),
            Ok((matcher, rest)) => Ok((TermView { presence, field, op, matcher }, rest)),
        },
    }
}

/// The terms of a query, after those seen.
pub open spec fn terms_after(seen: Seq<TermView>, s: Seq<char>) -> Result<Seq<TermView>, Refusal>
    decreases s.len() via terms_after_shrinks
{
    let t = after_spaces(s);
    if t.len() == 0 {
        Ok(seen)
    } else {
        match term_of(t) {
            Err(e) => Err(e),
            Ok((term, rest)) => terms_after(seen.push(term), rest),
        }
    }
}

/// The terms of a query.
pub open spec fn terms_of(s: Seq<char>) -> Result<Seq<TermView>, Refusal> {
    terms_after(Seq::empty(), s)
}

#[via_fn]
proof fn terms_after_shrinks(seen: Seq<TermView>, s: Seq<char>) {
    let t = after_spaces(s);
    lemma_after_spaces_shorter(s);
    if t.len() > 0 {
        lemma_term_consumes(t);
    }
}

proof fn lemma_after_spaces_shorter(s: Seq<char>)
    ensures
        after_spaces(s).len() <= s.len(),
    decreases s.len(),
{
    if s.len() > 0 && is_space(s[0]) {
        lemma_after_spaces_shorter(s.skip(1));
    }
}

proof fn lemma_field_run_bound(s: Seq<char>)
    ensures
        field_run(s) <= s.len(),
    decreases s.len(),
{
    if s.len() > 0 && field_char(s[0]) {
        lemma_field_run_bound(s.skip(1));
    }
}

proof fn lemma_word_run_bound(s: Seq<char>)
    ensures
        word_run(s) <= s.len(),
    decreases s.len(),
{
    if s.len() > 0 && !is_space(s[0]) {
        lemma_word_run_bound(s.skip(1));
    }
}

proof fn lemma_quoted_shorter(seen: Seq<char>, s: Seq<char>, quote: char)
    ensures
        quoted_after(seen, s, quote) matches Ok((_, rest)) ==> rest.len() < s.len(),
    decreases s.len(),
{
    if s.len() > 1 && s[0] == '\\' {
        lemma_quoted_shorter(seen.push(s[1]), s.skip(2), quote);
    } else if s.len() > 0 && s[0] != quote && s[0] != '\\' {
        lemma_quoted_shorter(seen.push(s[0]), s.skip(1), quote);
    }
}

proof fn lemma_single_consumes(s: Seq<char>, field: FieldView)
    ensures
        single_of(s, field) matches Ok((_, rest)) ==> rest.len() < s.len(),
{
    if s.len() > 0 && s[0] == '{' {
        lemma_index_first(s.skip(1), '}');
    } else if opens_quote(s) {
        lemma_quoted_shorter(Seq::empty(), s.skip(1), s[0]);
    } else {
        lemma_word_run_bound(s);
    }
}

proof fn lemma_term_consumes(s: Seq<char>)
    requires
        s.len() > 0,
    ensures
        term_of(s) matches Ok((_, rest)) ==> rest.len() < s.len(),
{
    let (presence, body) = presence_of(s);
    lemma_field_run_bound(body);
    if opens_quote(body) {
        lemma_quoted_shorter(Seq::empty(), body.skip(1), body[0]);
    }
    if let Ok((field, op, value)) = target_of(body) {
        assert(value.len() <= s.len());
        lemma_single_consumes(value, field);
        if dots(value) {
            lemma_single_consumes(value.skip(2), field);
        } else if let Ok((lo, rest)) = single_of(value, field) {
            if dots(rest) {
                lemma_single_consumes(rest.skip(2), field);
            }
        }
    }
}

// ---- the scanner -----------------------------------------------------------

/// A position in a query string.
pub struct Scanner {
    chars: Vec<char>,
    i: usize,
}

impl Scanner {
    /// The position lies in the text.
    pub closed spec fn wf(&self) -> bool {
        self.i <= self.chars@.len()
    }

    /// The whole text.
    pub closed spec fn text(&self) -> Seq<char> {
        self.chars@
    }

    /// The text that is left.
    pub closed spec fn rest(&self) -> Seq<char> {
        self.chars@.skip(self.i as int)
    }

    pub fn new(s: &str) -> (r: Self)
        ensures
            r.wf(),
            r.rest() == s@,
    {
        let chars: Vec<char> = chars_of(s);
        assert(chars@.skip(0) =~= s@);
        Scanner { chars, i: 0 }
    }

    pub fn at_end(&self) -> (r: bool)
        requires
            self.wf(),
        ensures
            r == (self.rest().len() == 0),
    {
        self.i >= self.chars.len()
    }

    pub fn peek(&self) -> (r: Option<char>)
        requires
            self.wf(),
        ensures
            r == (if self.rest().len() > 0 {
                Some(self.rest()[0])
            } else {
                None
            }),
    {
        if self.i < self.chars.len() {
            Some(self.chars[self.i])
        } else {
            None
        }
    }

    pub fn bump(&mut self) -> (r: Option<char>)
        requires
            old(self).wf(),
        ensures
            final(self).wf(),
            final(self).text() == old(self).text(),
            if old(self).rest().len() > 0 {
                r == Some(old(self).rest()[0]) && final(self).rest() == old(self).rest().skip(1)
            } else {
                r is None && final(self).rest() == old(self).rest()
            },
    {
        let c: Option<char> = self.peek();
        if self.i < self.chars.len() {
            assert(self.chars@.skip(self.i as int).skip(1) =~= self.chars@.skip(self.i + 1));
            self.i += 1;
        }
        c
    }

    fn pos(&self) -> (r: usize)
        ensures
            r == self.i,
    {
        self.i
    }

    fn set_pos(&mut self, p: usize)
        requires
            p <= old(self).chars@.len(),
        ensures
            final(self).chars@ == old(self).chars@,
            final(self).i == p,
            final(self).wf(),
    {
        self.i = p;
    }

    pub fn skip_ws(&mut self)
        requires
            old(self).wf(),
        ensures
            final(self).wf(),
            final(self).rest() == after_spaces(old(self).rest()),
    {
        self.i = skip_spaces(&self.chars, self.i);
    }

    /// Whether the term ends here: at the end of the text or at a blank.
    pub fn at_term_end(&self) -> (r: bool)
        requires
            self.wf(),
        ensures
            r == term_ends(self.rest()),
    {
        match self.peek() {
            None => true,
            Some(c) => c == ' ' || c == '\t' || c == '\n' || c == '\r',
        }
    }

    /// Takes the characters up to the first that `pred` refuses.
    fn take_while<F: Fn(char) -> bool>(&mut self, pred: F) -> (r: String)
        requires
            old(self).wf(),
            forall|c: char| #[trigger] call_requires(pred, (c,)),
        ensures
            final(self).wf(),
            final(self).chars@ == old(self).chars@,
            r@.len() <= old(self).rest().len(),
            r@ == old(self).rest().take(r@.len() as int),
            final(self).rest() == old(self).rest().skip(r@.len() as int),
            forall|k: int|
                0 <= k < r@.len() ==> call_ensures(pred, (#[trigger] old(self).rest()[k],), true),
            r@.len() < old(self).rest().len() ==> call_ensures(
                pred,
                (old(self).rest()[r@.len() as int],),
                false,
            ),
    {
        let start: usize = self.i;
        let n: usize = self.chars.len();
        let mut j: usize = start;
        let ghost rest = self.rest();
        while j < n
            invariant
                start <= j <= n,
                n == self.chars@.len(),
                rest == self.chars@.skip(start as int),
                forall|c: char| #[trigger] call_requires(pred, (c,)),
                forall|k: int| 0 <= k < j - start ==> call_ensures(pred, (#[trigger] rest[k],), true),
            ensures
                start <= j <= n,
                forall|k: int| 0 <= k < j - start ==> call_ensures(pred, (#[trigger] rest[k],), true),
                j < n ==> call_ensures(pred, (rest[j - start],), false),
            decreases n - j,
        {
            assert(rest[j - start] == self.chars@[j as int]);
            if !pred(self.chars[j]) {
                break;
            }
            j += 1;
        }
        let out: String = text_between(&self.chars, start, j);
        self.i = j;
        proof {
            assert(out@ =~= rest.take(j - start));
            assert(self.chars@.skip(j as int) =~= rest.skip(j - start));
        }
        out
    }

    /// Consumes a short literal where it is next, and says whether it was.
    pub fn eat_str(&mut self, lit: &str) -> (r: bool)
        requires
            old(self).wf(),
        ensures
            final(self).wf(),
            final(self).text() == old(self).text(),
            r == has_prefix(old(self).rest(), lit@),
            final(self).rest() == (if r {
                old(self).rest().skip(lit@.len() as int)
            } else {
                old(self).rest()
            }),
    {
        let lc: Vec<char> = chars_of(lit);
        let n: usize = self.chars.len();
        let ghost rest = self.rest();
        let ok: bool = part_at(&self.chars, &lc, self.i);
        proof {
            let here = self.i as int;
            if here + lc@.len() <= self.chars@.len() {
                assert(self.chars@.subrange(here, here + lc@.len()) =~= rest.subrange(
                    0,
                    lc@.len() as int,
                ));
            }
        }
        if ok {
            assert(rest.skip(lc@.len() as int) =~= self.chars@.skip(self.i + lc@.len()));
            self.i = self.i + lc.len();
        }
        ok
    }

    /// Takes a bare word.
    pub fn take_word(&mut self) -> (r: String)
        requires
            old(self).wf(),
        ensures
            final(self).wf(),
            r@ == old(self).rest().take(word_run(old(self).rest()) as int),
            final(self).rest() == old(self).rest().skip(word_run(old(self).rest()) as int),
    {
        let start: usize = self.i;
        let n: usize = self.chars.len();
        let mut j: usize = start;
        let ghost rest = self.rest();
        assert(rest.skip(0) =~= rest);
        while j < n && !space_char(self.chars[j]) && !(j + 1 < n && self.chars[j] == '.'
            && self.chars[j + 1] == '.')
            invariant
                start <= j <= n,
                n == self.chars@.len(),
                rest == self.chars@.skip(start as int),
                j - start + word_run(rest.skip(j - start)) == word_run(rest),
            decreases n - j,
        {
            let ghost t = rest.skip(j - start);
            proof {
                assert(t[0] == self.chars@[j as int]);
                assert(t.len() > 1 ==> t[1] == self.chars@[j + 1]);
                assert(t.skip(1) =~= rest.skip(j + 1 - start));
            }
            j += 1;
        }
        proof {
            let t = rest.skip(j - start);
            assert(t.len() > 0 ==> t[0] == self.chars@[j as int]);
            assert(t.len() > 1 ==> t[1] == self.chars@[j + 1]);
            assert(word_run(t) == 0);
            assert(self.chars@.subrange(start as int, j as int) =~= rest.take(j - start));
            assert(self.chars@.skip(j as int) =~= rest.skip(j - start));
        }
        let out: String = text_between(&self.chars, start, j);
        self.i = j;
        out
    }

    /// Takes the inside of a `{...}`, standing at the brace.
    pub fn take_braced(&mut self) -> (r: Result<String, ParseError>)
        requires
            old(self).wf(),
            old(self).rest().len() > 0,
        ensures
            final(self).wf(),
            match braced(old(self).rest()) {
                Ok((body, rest)) => r matches Ok(b) && b@ == body && final(self).rest() == rest,
                Err(e) => r matches Err(x) && x@ == e,
            },
    {
        let ghost rest = self.rest().skip(1);
        let n: usize = self.chars.len();
        let start: usize = self.i + 1;
        assert(self.chars@.skip(start as int) =~= rest);
        let mut j: usize = start;
        while j < n && self.chars[j] != '}'
            invariant
                start <= j <= n,
                n == self.chars@.len(),
                rest == self.chars@.skip(start as int),
                forall|k: int| 0 <= k < j - start ==> rest[k] != '}',
            decreases n - j,
        {
            assert(rest[j - start] == self.chars@[j as int]);
            j += 1;
        }
        proof {
            if j < n {
                assert(rest[j - start] == self.chars@[j as int]);
            }
            lemma_index_or_len(rest, '}', j - start);
        }
        if j == n {
            return Err(ParseError::UnterminatedBrace);
        }
        let out: String = text_between(&self.chars, start, j);
        self.i = j + 1;
        proof {
            assert(out@ =~= rest.take(j - start));
            assert(self.chars@.skip(j + 1) =~= rest.skip(j - start + 1));
        }
        Ok(out)
    }

    /// Takes a quoted text, standing at the quote.
    pub fn take_quoted(&mut self) -> (r: Result<String, ParseError>)
        requires
            old(self).wf(),
            old(self).rest().len() > 0,
        ensures
            final(self).wf(),
            final(self).text() == old(self).text(),
            match quoted(old(self).rest()) {
                Ok((text, rest)) => r matches Ok(t) && t@ == text && final(self).rest() == rest,
                Err(e) => r matches Err(x) && x@ == e,
            },
    {
        let ghost whole = quoted(self.rest());
        let quote: char = self.bump().unwrap();
        let mut out: String = String::new();
        loop
            invariant
                self.wf(),
                self.text() == old(self).text(),
                whole == quoted(old(self).rest()),
                whole == quoted_after(out@, self.rest(), quote),
            decreases self.rest().len(),
        {
            let ghost here = self.rest();
            assert(here.len() > 1 ==> here.skip(1).skip(1) =~= here.skip(2));
            match self.bump() {
                None => return Err(ParseError::UnterminatedQuote),
                Some(c) => {
                    if c == '\\' {
                        match self.bump() {
                            None => return Err(ParseError::TrailingBackslash),
                            Some(d) => out.push(d),
                        }
                    } else if c == quote {
                        return Ok(out);
                    } else {
                        out.push(c);
                    }
                },
            }
        }
    }
}

/// Whether a bare field name can hold a character.
pub fn is_field_char(c: char) -> (r: bool)
    ensures
        r == field_char(c),
{
    alnum_char(c) || c == '_' || c == '-'
}

/// A run of field characters that ends where they end is the whole run.
proof fn lemma_field_run(s: Seq<char>, k: int)
    requires
        0 <= k <= s.len(),
        forall|i: int| 0 <= i < k ==> field_char(#[trigger] s[i]),
        k < s.len() ==> !field_char(s[k]),
    ensures
        field_run(s) == k,
    decreases s.len(),
{
    if k > 0 {
        assert(field_char(s[0]));
        assert forall|i: int| 0 <= i < k - 1 implies field_char(#[trigger] s.skip(1)[i]) by {
            assert(field_char(s[i + 1]));
        }
        lemma_field_run(s.skip(1), k - 1);
    }
}

/// The field that a name stands for.
pub fn resolve_field(word: &str) -> (r: Field)
    ensures
        r@ == field_named(word@),
{
    if text_eq(word, "name") {
        Field::Name
    } else if text_eq(word, "path") {
        Field::Path
    } else if text_eq(word, "dir") {
        Field::Dir
    } else if text_eq(word, "hash") {
        Field::Hash
    } else if text_eq(word, "algo") {
        Field::Algo
    } else if text_eq(word, "size") {
        Field::Size
    } else if text_eq(word, "mtime") {
        Field::Mtime
    } else if text_eq(word, "ext") {
        Field::Ext
    } else if text_eq(word, "file_type") || text_eq(word, "type") {
        Field::FileType
    } else {
        Field::Meta(word.to_owned())
    }
}

/// A bare field name with `:` for each `-`.
fn colons(s: &str) -> (r: String)
    ensures
        r@ == with_colons(s@),
{
    let c: Vec<char> = chars_of(s);
    let mut out: String = String::new();
    let n: usize = c.len();
    let mut i: usize = 0;
    while i < n
        invariant
            n == c@.len(),
            c@ == s@,
            i <= n,
            out@ == with_colons(s@).take(i as int),
        decreases n - i,
    {
        assert(with_colons(s@).take(i + 1) =~= with_colons(s@).take(i as int).push(
            with_colons(s@)[i as int],
        ));
        if c[i] == '-' {
            out.push(':');
        } else {
            out.push(c[i]);
        }
        i += 1;
    }
    assert(with_colons(s@).take(n as int) =~= with_colons(s@));
    out
}

/// Reads a field name: a quoted text, taken as it is, or a bare name.
fn parse_field_name(s: &mut Scanner) -> (r: Result<Option<Field>, ParseError>)
    requires
        old(s).wf(),
    ensures
        final(s).wf(),
        final(s).text() == old(s).text(),
        match field_name_of(old(s).rest()) {
            Err(e) => r matches Err(x) && x@ == e,
            Ok(None) => r == Ok::<Option<Field>, ParseError>(None),
            Ok(Some((field, rest))) => r matches Ok(Some(f)) && f@ == field && final(s).rest()
                == rest,
        },
{
    let ghost before = s.rest();
    let c: Option<char> = s.peek();
    if c == Some('\'') || c == Some('"') {
        return match s.take_quoted() {
            Ok(name) => Ok(Some(resolve_field(name.as_str()))),
            Err(e) => Err(e),
        };
    }
    let name: String = s.take_while(is_field_char);
    proof {
        assert forall|i: int| 0 <= i < name@.len() implies field_char(#[trigger] before[i]) by {
            assert(call_ensures(is_field_char, (before[i],), true));
        }
        lemma_field_run(before, name@.len() as int);
    }
    if name.as_str().is_empty() {
        return Ok(None);
    }
    let key: String = colons(name.as_str());
    Ok(Some(resolve_field(key.as_str())))
}

/// Consumes the operator that is next, if any.
pub fn parse_op(s: &mut Scanner) -> (r: Option<Op>)
    requires
        old(s).wf(),
    ensures
        final(s).wf(),
        final(s).text() == old(s).text(),
        match op_of(old(s).rest()) {
            Some((op, rest)) => r == Some(op) && final(s).rest() == rest,
            None => r is None && final(s).rest() == old(s).rest(),
        },
{
    let ghost before = s.rest();
    proof {
        reveal_strlit(":=");
        assert(has_prefix(before, ":="@) <==> before.len() > 1 && before[0] == ':' && before[1]
            == '=') by {
            if before.len() > 1 {
                let two = before.subrange(0, 2);
                assert(two[0] == before[0] && two[1] == before[1]);
                if before[0] == ':' && before[1] == '=' {
                    assert(two =~= ":="@);
                }
            }
        }
    }
    if s.eat_str(":=") {
        return Some(Op::Like);
    }
    let c: Option<char> = s.peek();
    if c == Some('=') {
        let _ = s.bump();
        Some(Op::Exact)
    } else if c == Some(':') {
        let _ = s.bump();
        Some(Op::Match)
    } else {
        None
    }
}

/// Parses a size: digits with an optional binary suffix.
pub fn parse_size(w: &str) -> (r: Result<u64, ParseError>)
    ensures
        match size_of(w@) {
            Some(n) => r == Ok::<u64, ParseError>(n as u64),
            None => r matches Err(x) && x@ == Refusal::InvalidSize(w@),
        },
{
    let c: Vec<char> = chars_of(w);
    let n: usize = c.len();
    let factor: u64 = if n == 0 {
        1
    } else if c[n - 1] == 'k' || c[n - 1] == 'K' {
        1024
    } else if c[n - 1] == 'm' || c[n - 1] == 'M' {
        1048576
    } else if c[n - 1] == 'g' || c[n - 1] == 'G' {
        1073741824
    } else {
        1
    };
    assert(factor == size_factor(w@));
    let digits: String = if factor == 1 {
        w.to_owned()
    } else {
        assert(w@.drop_last() =~= c@.subrange(0, n - 1));
        text_between(&c, 0, n - 1)
    };
    match parse_u64(digits.as_str()) {
        None => Err(ParseError::InvalidSize(w.to_owned())),
        Some(v) => match v.checked_mul(factor) {
            Some(size) => Ok(size),
            None => Err(ParseError::InvalidSize(w.to_owned())),
        },
    }
}

fn parse_single(s: &mut Scanner, field: &Field) -> (r: Result<Value, ParseError>)
    requires
        old(s).wf(),
    ensures
        final(s).wf(),
        match single_of(old(s).rest(), field@) {
            Ok((value, rest)) => r matches Ok(v) && v@ == value && final(s).rest() == rest,
            Err(e) => r matches Err(x) && x@ == e,
        },
{
    let c: Option<char> = s.peek();
    if c == Some('{') {
        return match s.take_braced() {
            Err(e) => Err(e),
            Ok(body) => match parse_date(body.as_str()) {
                Ok(d) => Ok(Value::Date(d)),
                Err(e) => Err(e),
            },
        };
    }
    if c == Some('\'') || c == Some('"') {
        return match s.take_quoted() {
            Ok(t) => Ok(Value::Text(t)),
            Err(e) => Err(e),
        };
    }
    proof {
        lemma_word_run_bound(s.rest());
    }
    let w: String = s.take_word();
    if w.as_str().is_empty() {
        return Err(ParseError::ExpectedValue);
    }
    match field {
        Field::Size => match parse_size(w.as_str()) {
            Ok(n) => Ok(Value::Number(n)),
            Err(e) => Err(e),
        },
        _ => Ok(Value::Text(w)),
    }
}

/// Consumes the range operator where it is next.
fn eat_dots(s: &mut Scanner) -> (r: bool)
    requires
        old(s).wf(),
    ensures
        final(s).wf(),
        r == dots(old(s).rest()),
        final(s).rest() == (if r {
            old(s).rest().skip(2)
        } else {
            old(s).rest()
        }),
{
    let ghost before = s.rest();
    proof {
        reveal_strlit("..");
        assert(has_prefix(before, ".."@) <==> dots(before)) by {
            if before.len() > 1 {
                let two = before.subrange(0, 2);
                assert(two[0] == before[0] && two[1] == before[1]);
                if before[0] == '.' && before[1] == '.' {
                    assert(two =~= ".."@);
                }
            }
        }
    }
    s.eat_str("..")
}

fn parse_matcher(s: &mut Scanner, field: &Field) -> (r: Result<Matcher, ParseError>)
    requires
        old(s).wf(),
    ensures
        final(s).wf(),
        match matcher_of(old(s).rest(), field@) {
            Ok((matcher, rest)) => r matches Ok(m) && m@ == matcher && final(s).rest() == rest,
            Err(e) => r matches Err(x) && x@ == e,
        },
{
    if eat_dots(s) {
        return match parse_single(s, field) {
            Ok(hi) => Ok(Matcher::Range(None, Some(hi))),
            Err(e) => Err(e),
        };
    }
    let first: Value = match parse_single(s, field) {
        Ok(v) => v,
        Err(e) => return Err(e),
    };
    if !eat_dots(s) {
        return Ok(Matcher::Single(first));
    }
    if s.at_term_end() {
        return Ok(Matcher::Range(Some(first), None));
    }
    match parse_single(s, field) {
        Ok(hi) => Ok(Matcher::Range(Some(first), Some(hi))),
        Err(e) => Err(e),
    }
}

fn parse_presence(s: &mut Scanner) -> (r: Presence)
    requires
        old(s).wf(),
    ensures
        final(s).wf(),
        r == presence_of(old(s).rest()).0,
        final(s).rest() == presence_of(old(s).rest()).1,
{
    let c: Option<char> = s.peek();
    if c == Some('+') {
        let _ = s.bump();
        Presence::Must
    } else if c == Some('-') {
        let _ = s.bump();
        Presence::MustNot
    } else {
        Presence::Must
    }
}

/// Reads the field and operator of a term. Without an operator it goes back: the
/// name belongs to the value.
fn parse_target(s: &mut Scanner) -> (r: Result<(Field, Op), ParseError>)
    requires
        old(s).wf(),
    ensures
        final(s).wf(),
        match target_of(old(s).rest()) {
            Ok((field, op, rest)) => r matches Ok(p) && p.0@ == field && p.1 == op && final(s).rest() == rest,
            Err(e) => r matches Err(x) && x@ == e,
        },
{
    let save: usize = s.pos();
    match parse_field_name(s) {
        Err(e) => Err(e),
        Ok(Some(f)) => match parse_op(s) {
            Some(op) => Ok((f, op)),
            None => {
                s.set_pos(save);
                Ok((Field::Default, Op::Match))
            },
        },
        Ok(None) => {
            s.set_pos(save);
            Ok((Field::Default, Op::Match))
        },
    }
}

fn parse_term(s: &mut Scanner) -> (r: Result<Term, ParseError>)
    requires
        old(s).wf(),
    ensures
        final(s).wf(),
        match term_of(old(s).rest()) {
            Ok((term, rest)) => r matches Ok(t) && t@ == term && final(s).rest() == rest,
            Err(e) => r matches Err(x) && x@ == e,
        },
{
    let presence: Presence = parse_presence(s);
    let (field, op): (Field, Op) = match parse_target(s) {
        Ok(p) => p,
        Err(e) => return Err(e),
    };
    match parse_matcher(s, &field) {
        Ok(matcher) => Ok(Term { presence, field, op, matcher }),
        Err(e) => Err(e),
    }
}

/// Parses a query string.
pub fn parse(input: &str) -> (r: Result<Query, ParseError>)
    ensures
        match terms_of(input@) {
            Ok(terms) => r matches Ok(q) && term_views(q.terms@) == terms && q.limit == 0
                && q.offset == 0,
            Err(e) => r matches Err(x) && x@ == e,
        },
{
    let mut s: Scanner = Scanner::new(input);
    let mut terms: Vec<Term> = Vec::new();
    assert(term_views(terms@) =~= Seq::<TermView>::empty());
    s.skip_ws();
    proof {
        lemma_spaces_do_not_matter(Seq::empty(), input@);
    }
    while !s.at_end()
        invariant
            s.wf(),
            after_spaces(s.rest()) == s.rest(),
            terms_of(input@) == terms_after(term_views(terms@), s.rest()),
        decreases s.rest().len(),
    {
        let ghost before = s.rest();
        proof {
            lemma_term_consumes(before);
        }
        let term: Term = match parse_term(&mut s) {
            Ok(t) => t,
            Err(e) => return Err(e),
        };
        let ghost rest = s.rest();
        assert(term_views(terms@.push(term)) =~= term_views(terms@).push(term@));
        terms.push(term);
        s.skip_ws();
        proof {
            lemma_spaces_do_not_matter(term_views(terms@), rest);
            lemma_after_spaces_shorter(rest);
        }
    }
    Ok(Query { terms, limit: 0, offset: 0 })
}

/// Whitespace before a term does not matter.
proof fn lemma_spaces_do_not_matter(seen: Seq<TermView>, s: Seq<char>)
    ensures
        terms_after(seen, s) == terms_after(seen, after_spaces(s)),
        after_spaces(after_spaces(s)) == after_spaces(s),
    decreases s.len(),
{
    lemma_after_spaces_idempotent(s);
}

proof fn lemma_after_spaces_idempotent(s: Seq<char>)
    ensures
        after_spaces(after_spaces(s)) == after_spaces(s),
    decreases s.len(),
{
    if s.len() > 0 && is_space(s[0]) {
        lemma_after_spaces_idempotent(s.skip(1));
    }
}

// ---- laws ------------------------------------------------------------------

/// What is appended after a blank.
spec fn blank_first(tail: Seq<char>) -> bool {
    tail.len() > 0 && tail[0] == ' '
}

proof fn lemma_tail_skip(s: Seq<char>, tail: Seq<char>, k: int)
    requires
        0 <= k <= s.len(),
    ensures
        (s + tail).skip(k) == s.skip(k) + tail,
        (s + tail).take(k) == s.take(k),
{
    assert((s + tail).skip(k) =~= s.skip(k) + tail);
    assert((s + tail).take(k) =~= s.take(k));
}

proof fn lemma_field_run_tail(s: Seq<char>, tail: Seq<char>)
    requires
        blank_first(tail),
    ensures
        field_run(s + tail) == field_run(s),
    decreases s.len(),
{
    if s.len() > 0 {
        assert((s + tail)[0] == s[0]);
        lemma_tail_skip(s, tail, 1);
        lemma_field_run_tail(s.skip(1), tail);
    } else {
        assert((s + tail)[0] == ' ');
    }
}

proof fn lemma_word_run_tail(s: Seq<char>, tail: Seq<char>)
    requires
        blank_first(tail),
    ensures
        word_run(s + tail) == word_run(s),
    decreases s.len(),
{
    if s.len() > 0 {
        assert((s + tail)[0] == s[0]);
        assert((s + tail)[1] == if s.len() > 1 {
            s[1]
        } else {
            tail[0]
        });
        lemma_tail_skip(s, tail, 1);
        lemma_word_run_tail(s.skip(1), tail);
    } else {
        assert((s + tail)[0] == ' ');
    }
}

proof fn lemma_quoted_tail(seen: Seq<char>, s: Seq<char>, tail: Seq<char>, quote: char)
    ensures
        quoted_after(seen, s, quote) matches Ok((t, rest)) ==> quoted_after(seen, s + tail, quote)
            == Ok::<(Seq<char>, Seq<char>), Refusal>((t, rest + tail)),
    decreases s.len(),
{
    if s.len() > 0 {
        assert((s + tail)[0] == s[0]);
        lemma_tail_skip(s, tail, 1);
        if s[0] == '\\' {
            if s.len() > 1 {
                assert((s + tail)[1] == s[1]);
                lemma_tail_skip(s, tail, 2);
                lemma_quoted_tail(seen.push(s[1]), s.skip(2), tail, quote);
            }
        } else if s[0] != quote {
            lemma_quoted_tail(seen.push(s[0]), s.skip(1), tail, quote);
        }
    }
}

proof fn lemma_single_tail(s: Seq<char>, tail: Seq<char>, field: FieldView)
    requires
        blank_first(tail),
    ensures
        single_of(s, field) matches Ok((v, rest)) ==> single_of(s + tail, field) == Ok::<
            (ValueView, Seq<char>),
            Refusal,
        >((v, rest + tail)),
{
    if s.len() > 0 {
        let whole = s + tail;
        assert(whole[0] == s[0]);
        lemma_tail_skip(s, tail, 1);
        if s[0] == '{' {
            let body = s.skip(1);
            let i = index_or_len(body, '}');
            lemma_index_first(body, '}');
            if i < body.len() {
                assert(forall|j: int| 0 <= j < i ==> (body + tail)[j] == body[j]);
                lemma_index_or_len(body + tail, '}', i);
                lemma_tail_skip(body, tail, i);
                lemma_tail_skip(body, tail, i + 1);
            }
        } else if opens_quote(s) {
            lemma_quoted_tail(Seq::empty(), s.skip(1), tail, s[0]);
        } else {
            lemma_word_run_bound(s);
            lemma_word_run_tail(s, tail);
            lemma_tail_skip(s, tail, word_run(s) as int);
        }
    }
}

proof fn lemma_op_tail(s: Seq<char>, tail: Seq<char>)
    requires
        blank_first(tail),
    ensures
        op_of(s + tail) == match op_of(s) {
            Some((op, rest)) => Some((op, rest + tail)),
            None => None,
        },
{
    if s.len() > 0 {
        assert((s + tail)[0] == s[0]);
        assert((s + tail)[1] == if s.len() > 1 {
            s[1]
        } else {
            tail[0]
        });
        lemma_tail_skip(s, tail, 1);
        if s.len() > 1 {
            lemma_tail_skip(s, tail, 2);
        }
    }
}

proof fn lemma_target_tail(s: Seq<char>, tail: Seq<char>)
    requires
        blank_first(tail),
    ensures
        target_of(s) matches Ok((f, op, rest)) ==> target_of(s + tail) == Ok::<
            (FieldView, Op, Seq<char>),
            Refusal,
        >((f, op, rest + tail)),
{
    lemma_field_run_bound(s);
    lemma_field_run_tail(s, tail);
    if s.len() > 0 {
        assert((s + tail)[0] == s[0]);
        lemma_tail_skip(s, tail, 1);
        if opens_quote(s) {
            lemma_quoted_tail(Seq::empty(), s.skip(1), tail, s[0]);
        } else {
            lemma_tail_skip(s, tail, field_run(s) as int);
        }
    }
    if let Ok(Some((field, rest))) = field_name_of(s) {
        lemma_op_tail(rest, tail);
    }
}

proof fn lemma_dots_tail(s: Seq<char>, tail: Seq<char>)
    requires
        blank_first(tail),
    ensures
        dots(s + tail) == dots(s),
        term_ends(s + tail) == term_ends(s),
        dots(s) ==> (s + tail).skip(2) == s.skip(2) + tail,
{
    if s.len() > 0 {
        assert((s + tail)[0] == s[0]);
        assert((s + tail)[1] == if s.len() > 1 {
            s[1]
        } else {
            tail[0]
        });
    }
    if s.len() > 1 {
        lemma_tail_skip(s, tail, 2);
    }
}

proof fn lemma_term_tail(s: Seq<char>, tail: Seq<char>)
    requires
        blank_first(tail),
        term_of(s) is Ok,
    ensures
        term_of(s + tail) == Ok::<(TermView, Seq<char>), Refusal>(
            (term_of(s)->Ok_0.0, term_of(s)->Ok_0.1 + tail),
        ),
{
    let (presence, body) = presence_of(s);
    if s.len() > 0 {
        assert((s + tail)[0] == s[0]);
        lemma_tail_skip(s, tail, 1);
    } else {
        assert(target_of(s) == Ok::<(FieldView, Op, Seq<char>), Refusal>(
            (FieldView::Default, Op::Match, s),
        ));
        assert(matcher_of(s, FieldView::Default) is Err);
    }
    lemma_target_tail(body, tail);
    let (field, op, value) = target_of(body)->Ok_0;
    lemma_dots_tail(value, tail);
    if dots(value) {
        lemma_single_tail(value.skip(2), tail, field);
    } else {
        lemma_single_tail(value, tail, field);
        let (lo, rest) = single_of(value, field)->Ok_0;
        lemma_dots_tail(rest, tail);
        if dots(rest) {
            lemma_dots_tail(rest.skip(2), tail);
            lemma_single_tail(rest.skip(2), tail, field);
        }
    }
}

proof fn lemma_after_spaces_tail(s: Seq<char>, tail: Seq<char>)
    ensures
        after_spaces(s).len() > 0 ==> after_spaces(s + tail) == after_spaces(s) + tail,
        after_spaces(s).len() == 0 ==> after_spaces(s + tail) == after_spaces(tail),
    decreases s.len(),
{
    if s.len() > 0 {
        assert((s + tail)[0] == s[0]);
        if is_space(s[0]) {
            lemma_tail_skip(s, tail, 1);
            lemma_after_spaces_tail(s.skip(1), tail);
        }
    } else {
        assert(s + tail =~= tail);
    }
}

proof fn lemma_terms_tail(seen: Seq<TermView>, s: Seq<char>, tail: Seq<char>)
    requires
        blank_first(tail),
        terms_after(seen, s) is Ok,
    ensures
        terms_after(seen, s + tail) == terms_after(terms_after(seen, s)->Ok_0, tail),
    decreases s.len(),
{
    let t = after_spaces(s);
    lemma_after_spaces_shorter(s);
    lemma_after_spaces_tail(s, tail);
    if t.len() == 0 {
        lemma_spaces_do_not_matter(seen, s + tail);
        lemma_spaces_do_not_matter(seen, tail);
    } else {
        lemma_term_consumes(t);
        lemma_term_tail(t, tail);
        let (term, rest) = term_of(t)->Ok_0;
        lemma_terms_tail(seen.push(term), rest, tail);
    }
}

proof fn lemma_terms_seen(seen: Seq<TermView>, more: Seq<TermView>, s: Seq<char>)
    ensures
        terms_after(seen + more, s) == match terms_after(more, s) {
            Ok(terms) => Ok::<Seq<TermView>, Refusal>(seen + terms),
            Err(e) => Err(e),
        },
    decreases s.len(),
{
    let t = after_spaces(s);
    lemma_after_spaces_shorter(s);
    if t.len() > 0 {
        lemma_term_consumes(t);
        if let Ok((term, rest)) = term_of(t) {
            assert((seen + more).push(term) =~= seen + more.push(term));
            lemma_terms_seen(seen, more.push(term), rest);
        }
    }
}

/// Queries combine: two query strings with a blank between them are one query with
/// the terms of the first and then those of the second.
pub proof fn law_queries_combine(a: Seq<char>, b: Seq<char>)
    requires
        terms_of(a) is Ok,
    ensures
        terms_of(a + seq![' '] + b) == match terms_of(b) {
            Ok(terms) => Ok::<Seq<TermView>, Refusal>(terms_of(a)->Ok_0 + terms),
            Err(e) => Err(e),
        },
{
    let tail = seq![' '] + b;
    let ta = terms_of(a)->Ok_0;
    assert(a + seq![' '] + b =~= a + tail);
    lemma_terms_tail(Seq::empty(), a, tail);
    assert(tail[0] == ' ' && tail.skip(1) =~= b);
    assert(after_spaces(tail) == after_spaces(b));
    lemma_spaces_do_not_matter(ta, tail);
    lemma_spaces_do_not_matter(ta, b);
    assert(ta + Seq::<TermView>::empty() =~= ta);
    lemma_terms_seen(ta, Seq::empty(), b);
}

/// A text with a backslash before each double quote and each backslash.
pub open spec fn in_quotes(s: Seq<char>) -> Seq<char>
    decreases s.len(),
{
    if s.len() == 0 {
        Seq::empty()
    } else if s.last() == '"' || s.last() == '\\' {
        in_quotes(s.drop_last()).push('\\').push(s.last())
    } else {
        in_quotes(s.drop_last()).push(s.last())
    }
}

proof fn lemma_quoting_reads_back(seen: Seq<char>, s: Seq<char>, rest: Seq<char>)
    ensures
        quoted_after(seen, in_quotes(s) + rest, '"') == quoted_after(seen + s, rest, '"'),
    decreases s.len(),
{
    if s.len() == 0 {
        assert(in_quotes(s) + rest =~= rest);
        assert(seen + s =~= seen);
    } else {
        let init = s.drop_last();
        let c = s.last();
        let more = if c == '"' || c == '\\' {
            seq!['\\', c] + rest
        } else {
            seq![c] + rest
        };
        assert(in_quotes(s) + rest =~= in_quotes(init) + more);
        lemma_quoting_reads_back(seen, init, more);
        assert((seen + init).push(c) =~= seen + s);
        if c == '"' || c == '\\' {
            assert(more.skip(2) =~= rest);
            assert(more[0] == '\\' && more[1] == c);
        } else {
            assert(more.skip(1) =~= rest);
            assert(more[0] == c);
        }
    }
}

/// Quoting reads back: whatever a text holds, quoting and escaping it gives a query
/// of one term for that text in the default fields.
pub proof fn law_quoting_reads_back(s: Seq<char>)
    ensures
        terms_of(seq!['"'] + in_quotes(s) + seq!['"']) == Ok::<Seq<TermView>, Refusal>(
            seq![
                TermView {
                    presence: Presence::Must,
                    field: FieldView::Default,
                    op: Op::Match,
                    matcher: MatcherView::Single(ValueView::Text(s)),
                },
            ],
        ),
{
    let text = seq!['"'] + in_quotes(s) + seq!['"'];
    let close = seq!['"'];
    lemma_quoting_reads_back(Seq::empty(), s, close);
    assert(Seq::<char>::empty() + s =~= s);
    assert(text.skip(1) =~= in_quotes(s) + close);
    assert(text[0] == '"');
    assert(close.skip(1) =~= Seq::<char>::empty());
    assert(quoted(text) == Ok::<(Seq<char>, Seq<char>), Refusal>((s, Seq::empty())));
    assert(after_spaces(text) == text);
    assert(op_of(Seq::<char>::empty()) is None);
    let term = TermView {
        presence: Presence::Must,
        field: FieldView::Default,
        op: Op::Match,
        matcher: MatcherView::Single(ValueView::Text(s)),
    };
    assert(term_of(text) == Ok::<(TermView, Seq<char>), Refusal>((term, Seq::empty())));
    assert(after_spaces(Seq::<char>::empty()).len() == 0);
    assert(terms_after(seq![term], Seq::empty()) == Ok::<Seq<TermView>, Refusal>(seq![term]));
    assert(Seq::<TermView>::empty().push(term) =~= seq![term]);
}

// ---- what a text denotes ---------------------------------------------------

/// A size is a number of bytes, or of `k`, `m` or `g` of them, each 1024 of the one
/// before, in either case; it denotes nothing where it is too large to hold.
pub proof fn law_size_suffixes_multiply(n: nat)
    ensures
        size_of(decimal(n)) == if n <= u64::MAX {
            Some(n as int)
        } else {
            None
        },
        forall|c: char|
            c == 'k' || c == 'K' ==> #[trigger] size_of(decimal(n).push(c)) == if n * 1024
                <= u64::MAX {
                Some((n * 1024) as int)
            } else {
                None
            },
        forall|c: char|
            c == 'm' || c == 'M' ==> #[trigger] size_of(decimal(n).push(c)) == if n * (1024 * 1024)
                <= u64::MAX {
                Some((n * (1024 * 1024)) as int)
            } else {
                None
            },
        forall|c: char|
            c == 'g' || c == 'G' ==> #[trigger] size_of(decimal(n).push(c)) == if n * (1024 * 1024
                * 1024) <= u64::MAX {
                Some((n * (1024 * 1024 * 1024)) as int)
            } else {
                None
            },
        forall|c: char|
            !is_digit(c) && c != 'k' && c != 'K' && c != 'm' && c != 'M' && c != 'g' && c != 'G'
                ==> #[trigger] size_of(decimal(n).push(c)) is None,
{
    let d = decimal(n);
    law_decimal_reads_back(n);
    assert(is_digit(d[0]) && is_digit(d[d.len() - 1]));
    assert(size_factor(d) == 1);
    assert(n * (1024 * 1024) == n * 1048576) by (nonlinear_arith);
    assert(n * (1024 * 1024 * 1024) == n * 1073741824) by (nonlinear_arith);
    assert forall|c: char| #[trigger] d.push(c).drop_last() == d && d.push(c).last() == c by {
        assert(d.push(c).drop_last() =~= d);
    }
    assert forall|c: char|
        !is_digit(c) && c != 'k' && c != 'K' && c != 'm' && c != 'M' && c != 'g' && c
            != 'G' implies #[trigger] size_of(d.push(c)) is None by {
        let w = d.push(c);
        assert(w[0] == d[0]);
        assert(without_plus(w) == w);
        assert(!is_digit(w[d.len() as int]));
    }
}

/// An offset in braces is a sign, a number and the word of its unit: `s`, `m`, `h`,
/// `d`, `w`, `mo` or `y`.
pub proof fn law_offset_reads_back(sign: char, n: nat, unit: Unit)
    requires
        sign == '+' || sign == '-',
        n <= i64::MAX,
    ensures
        date_of(
            seq![sign] + decimal(n) + match unit {
                Unit::Sec => "s"@,
                Unit::Min => "m"@,
                Unit::Hour => "h"@,
                Unit::Day => "d"@,
                Unit::Week => "w"@,
                Unit::Month => "mo"@,
                Unit::Year => "y"@,
            },
        ) == Ok::<DateExpr, Refusal>(
            DateExpr::Offset {
                sign: if sign == '-' {
                    -1i8
                } else {
                    1i8
                },
                n: n as i64,
                unit,
            },
        ),
{
    reveal_strlit("s");
    reveal_strlit("m");
    reveal_strlit("h");
    reveal_strlit("d");
    reveal_strlit("w");
    reveal_strlit("mo");
    reveal_strlit("y");
    let word = match unit {
        Unit::Sec => "s"@,
        Unit::Min => "m"@,
        Unit::Hour => "h"@,
        Unit::Day => "d"@,
        Unit::Week => "w"@,
        Unit::Month => "mo"@,
        Unit::Year => "y"@,
    };
    let d = decimal(n);
    law_decimal_reads_back(n);
    let text = seq![sign] + d + word;
    let rest = text.skip(1);
    assert(rest =~= d + word);
    lemma_untrimmed(text);
    assert forall|i: int| 0 <= i < d.len() implies is_digit(#[trigger] rest[i]) by {
        assert(rest[i] == d[i]);
    }
    assert(rest[d.len() as int] == word[0]);
    lemma_digit_run(rest, d.len() as int);
    assert(rest.take(d.len() as int) =~= d);
    assert(rest.skip(d.len() as int) =~= word);
    assert(is_digit(d[0]));
    assert(without_plus(d) == d);
    assert(unit_named(word) == Some(unit)) by {
        assert("s"@[0] == 's' && "m"@[0] == 'm' && "h"@[0] == 'h' && "d"@[0] == 'd' && "w"@[0]
            == 'w' && "y"@[0] == 'y' && "mo"@.len() == 2 && "m"@.len() == 1);
    }
}

/// A text without white space at its ends is as it is.
proof fn lemma_untrimmed(s: Seq<char>)
    requires
        s.len() > 0,
        !is_space(s[0]),
        !is_space(s.last()),
    ensures
        trimmed(s) == s,
{
}

/// The words for days.
pub proof fn law_words_name_days()
    ensures
        keyword_named("now"@) == Some(Keyword::Now),
        keyword_named("today"@) == Some(Keyword::Today),
        keyword_named("yesterday"@) == Some(Keyword::Yesterday),
        keyword_named("tomorrow"@) == Some(Keyword::Tomorrow),
{
    reveal_strlit("now");
    reveal_strlit("today");
    reveal_strlit("yesterday");
    reveal_strlit("tomorrow");
    assert("now"@.len() == 3 && "today"@.len() == 5 && "yesterday"@.len() == 9 && "tomorrow"@.len()
        == 8);
}

/// A calendar unit is named by its word behind `this`, `last` or `next`, with any white
/// space between the two.
pub proof fn law_words_name_units(unit: CalUnit, gap: Seq<char>)
    requires
        gap.len() > 0,
        forall|i: int| 0 <= i < gap.len() ==> is_space(#[trigger] gap[i]),
    ensures
        ({
            let word = match unit {
                CalUnit::Day => "day"@,
                CalUnit::Week => "week"@,
                CalUnit::Month => "month"@,
                CalUnit::Year => "year"@,
            };
            &&& keyword_named("this"@ + gap + word) == Some(Keyword::This(unit))
            &&& keyword_named("last"@ + gap + word) == Some(Keyword::Last(unit))
            &&& keyword_named("next"@ + gap + word) == Some(Keyword::Next(unit))
        }),
{
    reveal_strlit("this");
    reveal_strlit("last");
    reveal_strlit("next");
    reveal_strlit("day");
    reveal_strlit("week");
    reveal_strlit("month");
    reveal_strlit("year");
    let word = match unit {
        CalUnit::Day => "day"@,
        CalUnit::Week => "week"@,
        CalUnit::Month => "month"@,
        CalUnit::Year => "year"@,
    };
    assert(word.len() > 0);
    assert(forall|i: int| 0 <= i < word.len() ==> !is_space(#[trigger] word[i]));
    assert("this"@[0] == 't' && "last"@[0] == 'l' && "next"@[0] == 'n');
    assert("day"@[0] == 'd' && "week"@[0] == 'w' && "month"@[0] == 'm' && "year"@[0] == 'y');
    assert(cal_unit_named(word) == Some(unit));
    lemma_two_words("this"@, gap, word);
    lemma_two_words("last"@, gap, word);
    lemma_two_words("next"@, gap, word);
}

proof fn lemma_two_words(q: Seq<char>, gap: Seq<char>, word: Seq<char>)
    requires
        q.len() == 4,
        forall|i: int| 0 <= i < q.len() ==> !is_space(#[trigger] q[i]),
        gap.len() > 0,
        forall|i: int| 0 <= i < gap.len() ==> is_space(#[trigger] gap[i]),
        word.len() > 0,
        forall|i: int| 0 <= i < word.len() ==> !is_space(#[trigger] word[i]),
    ensures
        ({
            let l = q + gap + word;
            &&& l != "now"@
            &&& l != "today"@
            &&& l != "yesterday"@
            &&& l != "tomorrow"@
            &&& first_word(l) == q
            &&& first_word(after_word(l)) == word
        }),
{
    reveal_strlit("now");
    reveal_strlit("today");
    reveal_strlit("yesterday");
    reveal_strlit("tomorrow");
    let l = q + gap + word;
    assert(l[4] == gap[0]);
    assert(is_space(gap[0]));
    assert(!is_space("today"@[4]) && !is_space("yesterday"@[4]) && !is_space("tomorrow"@[4]));
    assert forall|i: int| 0 <= i < 4 implies !is_space(#[trigger] l[i]) by {
        assert(l[i] == q[i]);
    }
    lemma_solid_run(l, 4);
    assert(after_spaces(l) == l);
    assert(first_word(l) =~= q);
    let tail = after_word(l);
    assert(tail =~= gap + word);
    lemma_spaces_skipped(gap, word);
    lemma_solid_run(word, word.len() as int);
    assert(first_word(tail) =~= word);
}

proof fn lemma_spaces_skipped(gap: Seq<char>, word: Seq<char>)
    requires
        forall|i: int| 0 <= i < gap.len() ==> is_space(#[trigger] gap[i]),
        word.len() > 0,
        !is_space(word[0]),
    ensures
        after_spaces(gap + word) == word,
    decreases gap.len(),
{
    if gap.len() == 0 {
        assert(gap + word =~= word);
    } else {
        let less = gap.skip(1);
        assert((gap + word)[0] == gap[0]);
        assert(is_space(gap[0]));
        assert((gap + word).skip(1) =~= less + word);
        assert forall|i: int| 0 <= i < less.len() implies is_space(#[trigger] less[i]) by {
            assert(less[i] == gap[i + 1]);
        }
        lemma_spaces_skipped(less, word);
    }
}

/// A text in braces that is no date or offset names the keyword that its lower-case form
/// names, without the white space around it, or is refused as it stands.
pub proof fn law_keywords_in_any_case(body: Seq<char>)
    requires
        trimmed(body).len() > 0,
        !is_digit(trimmed(body)[0]),
        trimmed(body)[0] != '+',
        trimmed(body)[0] != '-',
    ensures
        date_of(body) is Ok <==> keyword_named(lowered(trimmed(body))) is Some,
        date_of(body) is Ok ==> date_of(body)->Ok_0 == DateExpr::Keyword(
            keyword_named(lowered(trimmed(body)))->0,
        ),
        date_of(body) is Err ==> date_of(body)->Err_0 == Refusal::UnknownKeyword(trimmed(body)),
{
}

proof fn lemma_solid_run(s: Seq<char>, k: int)
    requires
        0 <= k <= s.len(),
        forall|i: int| 0 <= i < k ==> !is_space(#[trigger] s[i]),
        k < s.len() ==> is_space(s[k]),
    ensures
        solid_run(s) == k,
    decreases s.len(),
{
    if k > 0 {
        assert(!is_space(s[0]));
        assert forall|i: int| 0 <= i < k - 1 implies !is_space(#[trigger] s.skip(1)[i]) by {
            assert(!is_space(s[i + 1]));
        }
        lemma_solid_run(s.skip(1), k - 1);
    }
}

/// A zone at the end of a timestamp: `Z` is UTC; a sign, two digits, a colon and two
/// digits are hours and minutes east or west of it, less than a day; without either
/// it is the local zone.
pub proof fn law_zone_of_a_timestamp(body: Seq<char>, east: bool, h: Seq<char>, m: Seq<char>)
    requires
        h.len() == 2,
        m.len() == 2,
        all_digits(h),
        all_digits(m),
    ensures
        zone_split(body.push('Z')) == Ok::<(Seq<char>, Option<UtcOffset>), Refusal>(
            (body, Some(UtcOffset { east: 0 })),
        ),
        ({
            let sign = if east {
                '+'
            } else {
                '-'
            };
            let secs = digits_value(h) * 3600 + digits_value(m) * 60;
            zone_split(body + seq![sign] + h + seq![':'] + m) == if secs >= 24 * 60 * 60 {
                Err(Refusal::OffsetOutOfRange)
            } else {
                Ok::<(Seq<char>, Option<UtcOffset>), Refusal>(
                    (
                        body,
                        Some(
                            UtcOffset {
                                east: if east {
                                    secs as i32
                                } else {
                                    (-secs) as i32
                                },
                            },
                        ),
                    ),
                )
            }
        }),
        (forall|i: int| 0 <= i < body.len() ==> is_digit(#[trigger] body[i]) || body[i] == '-')
            ==> zone_split(body) == Ok::<(Seq<char>, Option<UtcOffset>), Refusal>((body, None)),
{
    assert(body.push('Z').drop_last() =~= body);
    let sign = if east {
        '+'
    } else {
        '-'
    };
    let s = body + seq![sign] + h + seq![':'] + m;
    let n = s.len() as int;
    assert(s[n - 6] == sign && s[n - 3] == ':');
    assert(s[n - 5] == h[0] && s[n - 4] == h[1] && s[n - 2] == m[0] && s[n - 1] == m[1]);
    assert(is_digit(h[0]) && is_digit(h[1]) && is_digit(m[0]) && is_digit(m[1]));
    assert(s.last() == m[1]);
    assert(s.subrange(n - 5, n - 3) =~= h);
    assert(s.subrange(n - 2, n) =~= m);
    assert(s.take(n - 6) =~= body);
    lemma_two_digits_at_most(h);
    lemma_two_digits_at_most(m);
    if forall|i: int| 0 <= i < body.len() ==> is_digit(#[trigger] body[i]) || body[i] == '-' {
        if body.len() >= 6 {
            assert(is_digit(body[body.len() - 3]) || body[body.len() - 3] == '-');
        }
        if body.len() > 0 {
            assert(is_digit(body[body.len() - 1]) || body[body.len() - 1] == '-');
        }
    }
}

proof fn lemma_two_digits_at_most(s: Seq<char>)
    requires
        s.len() == 2,
        all_digits(s),
    ensures
        digits_value(s) <= 99,
{
    assert(is_digit(s[0]) && is_digit(s[1]));
    assert(s.drop_last().drop_last() =~= Seq::<char>::empty());
    assert(s.drop_last().last() == s[0]);
    reveal_with_fuel(digits_value, 3);
}

/// A date is a year, a month and a day with `-` between them, a time an hour, a minute
/// and a second with `:` between them, each part but the first optional.
pub proof fn law_date_and_time_parts_read_back(a: nat, b: nat, c: nat)
    requires
        a <= i32::MAX,
        b <= u32::MAX,
        c <= u32::MAX,
    ensures
        day_parts(decimal(a)) == Ok::<(i32, Option<u32>, Option<u32>), Refusal>(
            (a as i32, None, None),
        ),
        day_parts(decimal(a) + seq!['-'] + decimal(b)) == Ok::<
            (i32, Option<u32>, Option<u32>),
            Refusal,
        >((a as i32, Some(b as u32), None)),
        day_parts(decimal(a) + seq!['-'] + (decimal(b) + seq!['-'] + decimal(c))) == Ok::<
            (i32, Option<u32>, Option<u32>),
            Refusal,
        >((a as i32, Some(b as u32), Some(c as u32))),
        time_parts(None) == Ok::<(Option<u32>, Option<u32>, Option<u32>), Refusal>(
            (None, None, None),
        ),
        time_parts(Some(decimal(a))) == Ok::<(Option<u32>, Option<u32>, Option<u32>), Refusal>(
            (Some(a as u32), None, None),
        ),
        time_parts(Some(decimal(a) + seq![':'] + decimal(b))) == Ok::<
            (Option<u32>, Option<u32>, Option<u32>),
            Refusal,
        >((Some(a as u32), Some(b as u32), None)),
        time_parts(Some(decimal(a) + seq![':'] + (decimal(b) + seq![':'] + decimal(c)))) == Ok::<
            (Option<u32>, Option<u32>, Option<u32>),
            Refusal,
        >((Some(a as u32), Some(b as u32), Some(c as u32))),
{
    lemma_three_pieces(a, b, c, '-');
    lemma_three_pieces(a, b, c, ':');
    law_decimal_reads_back(a);
    law_decimal_reads_back(b);
    law_decimal_reads_back(c);
}

proof fn lemma_three_pieces(a: nat, b: nat, c: nat, sep: char)
    requires
        !is_digit(sep),
    ensures
        pieces(decimal(a), sep) == seq![decimal(a)],
        pieces(decimal(a) + seq![sep] + decimal(b), sep) == seq![decimal(a), decimal(b)],
        pieces(decimal(a) + seq![sep] + (decimal(b) + seq![sep] + decimal(c)), sep) == seq![
            decimal(a),
            decimal(b),
            decimal(c),
        ],
{
    law_decimal_reads_back(a);
    law_decimal_reads_back(b);
    law_decimal_reads_back(c);
    lemma_pieces_of_plain(decimal(a), sep);
    lemma_pieces_of_plain(decimal(b), sep);
    lemma_pieces_of_plain(decimal(c), sep);
    lemma_pieces_concat(decimal(a), decimal(b), sep);
    lemma_pieces_concat(decimal(b), decimal(c), sep);
    lemma_pieces_concat(decimal(a), decimal(b) + seq![sep] + decimal(c), sep);
    assert(seq![decimal(a)] + seq![decimal(b)] =~= seq![decimal(a), decimal(b)]);
    assert(seq![decimal(b)] + seq![decimal(c)] =~= seq![decimal(b), decimal(c)]);
    assert(seq![decimal(a)] + seq![decimal(b), decimal(c)] =~= seq![
        decimal(a),
        decimal(b),
        decimal(c),
    ]);
}

/// A timestamp is its date, a `T` and its time where it has one, and its zone: what
/// each says is what the whole says.
pub proof fn law_timestamp_is_date_time_and_zone(s: Seq<char>, date: Seq<char>, time: Seq<char>)
    requires
        zone_split(s) is Ok,
        !date.contains('T'),
    ensures
        zone_split(s)->Ok_0.0 == date && day_parts(date) is Ok ==> ({
            let (year, month, day) = day_parts(date)->Ok_0;
            absolute_of(s) == Ok::<DateExpr, Refusal>(
                DateExpr::Absolute(
                    PartialDate {
                        year,
                        month,
                        day,
                        hour: None,
                        min: None,
                        sec: None,
                        tz: zone_split(s)->Ok_0.1,
                    },
                ),
            )
        }),
        zone_split(s)->Ok_0.0 == date + seq!['T'] + time && day_parts(date) is Ok && time_parts(
            Some(time),
        ) is Ok ==> ({
            let (year, month, day) = day_parts(date)->Ok_0;
            let (hour, min, sec) = time_parts(Some(time))->Ok_0;
            absolute_of(s) == Ok::<DateExpr, Refusal>(
                DateExpr::Absolute(
                    PartialDate { year, month, day, hour, min, sec, tz: zone_split(s)->Ok_0.1 },
                ),
            )
        }),
{
    assert forall|j: int| 0 <= j < date.len() implies date[j] != 'T' by {
        if date[j] == 'T' {
            assert(date.contains('T'));
        }
    }
    lemma_index_or_len(date, 'T', date.len() as int);
    let whole = date + seq!['T'] + time;
    assert forall|j: int| 0 <= j < date.len() implies whole[j] != 'T' by {
        assert(whole[j] == date[j]);
    }
    assert(whole[date.len() as int] == 'T');
    lemma_index_or_len(whole, 'T', date.len() as int);
    assert(whole.take(date.len() as int) =~= date);
    assert(whole.skip((date.len() + 1) as int) =~= time);
}

/// The names of the fields that have a column; `type` is another name of `file_type`,
/// and any other name is a key of the metadata.
pub proof fn law_fields_by_name(w: Seq<char>)
    ensures
        w == "name"@ ==> field_named(w) == FieldView::Name,
        w == "path"@ ==> field_named(w) == FieldView::Path,
        w == "dir"@ ==> field_named(w) == FieldView::Dir,
        w == "hash"@ ==> field_named(w) == FieldView::Hash,
        w == "algo"@ ==> field_named(w) == FieldView::Algo,
        w == "size"@ ==> field_named(w) == FieldView::Size,
        w == "mtime"@ ==> field_named(w) == FieldView::Mtime,
        w == "ext"@ ==> field_named(w) == FieldView::Ext,
        w == "file_type"@ ==> field_named(w) == FieldView::FileType,
        w == "type"@ ==> field_named(w) == FieldView::FileType,
        field_named(w) == FieldView::Meta(w) || w == "name"@ || w == "path"@ || w == "dir"@ || w
            == "hash"@ || w == "algo"@ || w == "size"@ || w == "mtime"@ || w == "ext"@ || w
            == "file_type"@ || w == "type"@,
{
    reveal_strlit("name");
    reveal_strlit("path");
    reveal_strlit("dir");
    reveal_strlit("hash");
    reveal_strlit("algo");
    reveal_strlit("size");
    reveal_strlit("mtime");
    reveal_strlit("ext");
    reveal_strlit("file_type");
    reveal_strlit("type");
    assert("name"@[0] == 'n' && "path"@[0] == 'p' && "dir"@[0] == 'd' && "hash"@[0] == 'h'
        && "algo"@[0] == 'a' && "size"@[0] == 's' && "mtime"@[0] == 'm' && "ext"@[0] == 'e'
        && "file_type"@[0] == 'f' && "type"@[0] == 't');
}

/// A word that stands for itself as a value: without white space and dots, and not
/// quoted or in braces.
pub open spec fn plain_word(w: Seq<char>) -> bool {
    &&& w.len() > 0
    &&& w[0] != '{'
    &&& w[0] != '"'
    &&& w[0] != '\''
    &&& forall|i: int| 0 <= i < w.len() ==> !is_space(#[trigger] w[i]) && w[i] != '.'
}

/// What may stand behind a value: nothing, white space, or the dots of a range.
pub open spec fn value_ends(tail: Seq<char>) -> bool {
    tail.len() == 0 || is_space(tail[0]) || dots(tail)
}

proof fn lemma_word_alone(w: Seq<char>, tail: Seq<char>)
    requires
        forall|i: int| 0 <= i < w.len() ==> !is_space(#[trigger] w[i]) && w[i] != '.',
        value_ends(tail),
    ensures
        word_run(w + tail) == w.len(),
    decreases w.len(),
{
    if w.len() == 0 {
        assert(w + tail =~= tail);
    } else {
        let less = w.skip(1);
        assert((w + tail)[0] == w[0]);
        assert(!is_space(w[0]) && w[0] != '.');
        assert((w + tail).skip(1) =~= less + tail);
        assert forall|i: int| 0 <= i < less.len() implies !is_space(#[trigger] less[i]) && less[i]
            != '.' by {
            assert(less[i] == w[i + 1]);
        }
        lemma_word_alone(less, tail);
    }
}

/// The value of a word: a size for the size, else the word as it stands.
pub open spec fn word_value(field: FieldView, w: Seq<char>) -> ValueView {
    if field is Size {
        ValueView::Number(size_of(w)->0 as u64)
    } else {
        ValueView::Text(w)
    }
}

/// A plain word is read as its value, whatever may stand behind it.
pub proof fn law_word_is_its_value(field: FieldView, w: Seq<char>, tail: Seq<char>)
    requires
        plain_word(w),
        value_ends(tail),
        field is Size ==> size_of(w) is Some,
    ensures
        single_of(w + tail, field) == Ok::<(ValueView, Seq<char>), Refusal>(
            (word_value(field, w), tail),
        ),
{
    lemma_word_alone(w, tail);
    assert((w + tail)[0] == w[0]);
    assert((w + tail).take(w.len() as int) =~= w);
    assert((w + tail).skip(w.len() as int) =~= tail);
}

/// What stands in braces is read as its date, whatever stands behind it.
pub proof fn law_braces_hold_a_date(field: FieldView, body: Seq<char>, tail: Seq<char>)
    requires
        !body.contains('}'),
        date_of(body) is Ok,
    ensures
        single_of(seq!['{'] + body + seq!['}'] + tail, field) == Ok::<
            (ValueView, Seq<char>),
            Refusal,
        >((ValueView::Date(date_of(body)->Ok_0), tail)),
{
    let s = seq!['{'] + body + seq!['}'] + tail;
    let rest = s.skip(1);
    assert(s[0] == '{');
    assert forall|j: int| 0 <= j < body.len() implies rest[j] != '}' by {
        assert(rest[j] == body[j]);
        if body[j] == '}' {
            assert(body.contains('}'));
        }
    }
    assert(rest[body.len() as int] == '}');
    lemma_index_or_len(rest, '}', body.len() as int);
    assert(rest.take(body.len() as int) =~= body);
    assert(rest.skip((body.len() + 1) as int) =~= tail);
}

/// A range is its two values with `..` between them, either of which may be missing.
pub proof fn law_dots_make_a_range(field: FieldView, a: Seq<char>, b: Seq<char>)
    requires
        plain_word(a),
        plain_word(b),
        field is Size ==> size_of(a) is Some && size_of(b) is Some,
    ensures
        matcher_of(a, field) == Ok::<(MatcherView, Seq<char>), Refusal>(
            (MatcherView::Single(word_value(field, a)), Seq::empty()),
        ),
        matcher_of(a + seq!['.', '.'] + b, field) == Ok::<(MatcherView, Seq<char>), Refusal>(
            (
                MatcherView::Range(Some(word_value(field, a)), Some(word_value(field, b))),
                Seq::empty(),
            ),
        ),
        matcher_of(a + seq!['.', '.'], field) == Ok::<(MatcherView, Seq<char>), Refusal>(
            (MatcherView::Range(Some(word_value(field, a)), None), Seq::empty()),
        ),
        matcher_of(seq!['.', '.'] + b, field) == Ok::<(MatcherView, Seq<char>), Refusal>(
            (MatcherView::Range(None, Some(word_value(field, b))), Seq::empty()),
        ),
{
    let none = Seq::<char>::empty();
    let d = seq!['.', '.'];
    assert(a + none =~= a);
    assert(b + none =~= b);
    assert(a[0] != '.' && b[0] != '.' && !is_space(b[0]));
    law_word_is_its_value(field, a, none);
    law_word_is_its_value(field, b, none);
    assert(a + d + b =~= a + (d + b));
    assert((a + (d + b))[0] == a[0]);
    assert((d + b)[0] == '.' && (d + b)[1] == '.');
    law_word_is_its_value(field, a, d + b);
    assert((d + b).skip(2) =~= b);
    assert((a + d)[0] == a[0]);
    law_word_is_its_value(field, a, d);
    assert(d.skip(2) =~= none);
}

/// A term with a field is read as it is written: `-` before it excludes, nothing or `+`
/// requires; then the name of the field, then `:` for a match, `=` for equality or `:=`
/// for a pattern, then the value.
pub proof fn law_term_reads_back(sign: Seq<char>, name: Seq<char>, op: Op, w: Seq<char>)
    requires
        sign == Seq::<char>::empty() || sign == seq!['+'] || sign == seq!['-'],
        name.len() > 0,
        forall|i: int| 0 <= i < name.len() ==> is_alnum(#[trigger] name[i]) || name[i] == '_',
        plain_word(w),
        w[0] != '=',
        field_named(name) is Size ==> size_of(w) is Some,
    ensures
        ({
            let mark = match op {
                Op::Match => ":"@,
                Op::Exact => "="@,
                Op::Like => ":="@,
            };
            terms_of(sign + (name + (mark + w))) == Ok::<Seq<TermView>, Refusal>(
                seq![
                    TermView {
                        presence: if sign == seq!['-'] {
                            Presence::MustNot
                        } else {
                            Presence::Must
                        },
                        field: field_named(name),
                        op,
                        matcher: MatcherView::Single(word_value(field_named(name), w)),
                    },
                ],
            )
        }),
{
    reveal_strlit(":");
    reveal_strlit("=");
    reveal_strlit(":=");
    let mark = match op {
        Op::Match => ":"@,
        Op::Exact => "="@,
        Op::Like => ":="@,
    };
    let field = field_named(name);
    let body = name + (mark + w);
    let text = sign + body;
    assert(mark.len() > 0 && (mark[0] == ':' || mark[0] == '='));
    assert(is_alnum(name[0]) || name[0] == '_');
    assert(body[0] == name[0]);
    assert(presence_of(text) == (
        if sign == seq!['-'] {
            Presence::MustNot
        } else {
            Presence::Must
        },
        body,
    )) by {
        if sign.len() == 0 {
            assert(text =~= body);
        } else {
            assert(text[0] == sign[0]);
            assert(text.skip(1) =~= body);
        }
    }
    assert(after_spaces(text) == text) by {
        assert(text[0] == if sign.len() > 0 {
            sign[0]
        } else {
            name[0]
        });
    }
    let n = name.len() as int;
    assert forall|i: int| 0 <= i < n implies field_char(#[trigger] body[i]) by {
        assert(body[i] == name[i]);
    }
    assert(body[n] == mark[0]);
    lemma_field_run(body, n);
    assert(body.take(n) =~= name);
    assert(body.skip(n) =~= mark + w);
    assert(with_colons(name) =~= name) by {
        assert forall|i: int| 0 <= i < name.len() implies with_colons(name)[i] == name[i] by {
            assert(is_alnum(name[i]) || name[i] == '_');
        }
    }
    let after = mark + w;
    assert(op_of(after) == Some((op, w))) by {
        assert(after[0] == mark[0]);
        assert(after.len() > 1);
        match op {
            Op::Like => {
                assert(after[1] == '=');
                assert(after.skip(2) =~= w);
            },
            _ => {
                assert(after[1] == w[0]);
                assert(after.skip(1) =~= w);
            },
        }
    }
    law_dots_make_a_range(field, w, w);
    let term = TermView {
        presence: presence_of(text).0,
        field,
        op,
        matcher: MatcherView::Single(word_value(field, w)),
    };
    assert(term_of(text) == Ok::<(TermView, Seq<char>), Refusal>((term, Seq::empty())));
    assert(after_spaces(Seq::<char>::empty()).len() == 0);
    assert(terms_after(seq![term], Seq::empty()) == Ok::<Seq<TermView>, Refusal>(seq![term]));
    assert(Seq::<TermView>::empty().push(term) =~= seq![term]);
}

/// A word without a field is looked for in the default fields.
pub proof fn law_bare_word_is_looked_for(w: Seq<char>)
    requires
        plain_word(w),
        w[0] != '+',
        w[0] != '-',
        !w.contains(':'),
        !w.contains('='),
    ensures
        terms_of(w) == Ok::<Seq<TermView>, Refusal>(
            seq![
                TermView {
                    presence: Presence::Must,
                    field: FieldView::Default,
                    op: Op::Match,
                    matcher: MatcherView::Single(ValueView::Text(w)),
                },
            ],
        ),
{
    lemma_field_run_bound(w);
    let n = field_run(w) as int;
    let rest = w.skip(n);
    assert(op_of(rest) is None) by {
        if rest.len() > 0 {
            assert(rest[0] == w[n]);
            if w[n] == ':' {
                assert(w.contains(':'));
            }
            if w[n] == '=' {
                assert(w.contains('='));
            }
        }
    }
    assert(!is_space(w[0]));
    assert(after_spaces(w) == w);
    law_dots_make_a_range(FieldView::Default, w, w);
    let term = TermView {
        presence: Presence::Must,
        field: FieldView::Default,
        op: Op::Match,
        matcher: MatcherView::Single(ValueView::Text(w)),
    };
    assert(term_of(w) == Ok::<(TermView, Seq<char>), Refusal>((term, Seq::empty())));
    assert(after_spaces(Seq::<char>::empty()).len() == 0);
    assert(terms_after(seq![term], Seq::empty()) == Ok::<Seq<TermView>, Refusal>(seq![term]));
    assert(Seq::<TermView>::empty().push(term) =~= seq![term]);
}

/// A dash in the bare name of a field stands for a colon, so that `exif-make` is the
/// key `exif:make`; what follows the name is left.
pub proof fn law_dash_in_a_name_is_a_colon(name: Seq<char>, key: Seq<char>, rest: Seq<char>)
    requires
        name.len() > 0,
        name.len() == key.len(),
        forall|i: int|
            0 <= i < name.len() ==> if (#[trigger] name[i]) == '-' {
                key[i] == ':'
            } else {
                key[i] == name[i] && (is_alnum(name[i]) || name[i] == '_')
            },
        rest.len() > 0 ==> rest[0] == ':' || rest[0] == '=',
    ensures
        field_name_of(name + rest) == Ok::<Option<(FieldView, Seq<char>)>, Refusal>(
            Some((field_named(key), rest)),
        ),
{
    let s = name + rest;
    let n = name.len() as int;
    assert(s[0] == name[0]);
    assert forall|i: int| 0 <= i < n implies field_char(#[trigger] s[i]) by {
        assert(s[i] == name[i]);
    }
    lemma_field_run(s, n);
    assert(s.take(n) =~= name);
    assert(s.skip(n) =~= rest);
    assert(with_colons(name) =~= key) by {
        assert forall|i: int| 0 <= i < n implies with_colons(name)[i] == key[i] by {
            assert(name[i] == '-' || key[i] == name[i]);
        }
    }
}

/// A text in single or double quotes that holds neither its quote nor a backslash is
/// read as it stands, white space and dots among it.
pub proof fn law_quotes_hold_a_text(
    field: FieldView,
    quote: char,
    text: Seq<char>,
    rest: Seq<char>,
)
    requires
        quote == '"' || quote == '\'',
        !text.contains(quote),
        !text.contains('\\'),
    ensures
        single_of(seq![quote] + text + seq![quote] + rest, field) == Ok::<
            (ValueView, Seq<char>),
            Refusal,
        >((ValueView::Text(text), rest)),
{
    let s = seq![quote] + text + seq![quote] + rest;
    assert(s[0] == quote);
    assert(s.skip(1) =~= text + (seq![quote] + rest));
    lemma_plain_quoted(Seq::empty(), text, quote, rest);
    assert(Seq::<char>::empty() + text =~= text);
}

proof fn lemma_plain_quoted(seen: Seq<char>, text: Seq<char>, quote: char, rest: Seq<char>)
    requires
        quote != '\\',
        !text.contains(quote),
        !text.contains('\\'),
    ensures
        quoted_after(seen, text + (seq![quote] + rest), quote) == Ok::<
            (Seq<char>, Seq<char>),
            Refusal,
        >((seen + text, rest)),
    decreases text.len(),
{
    let s = text + (seq![quote] + rest);
    if text.len() == 0 {
        assert(s =~= seq![quote] + rest);
        assert(s.skip(1) =~= rest);
        assert(seen + text =~= seen);
    } else {
        assert(text.contains(text[0]));
        assert(s[0] == text[0]);
        let less = text.skip(1);
        assert(s.skip(1) =~= less + (seq![quote] + rest));
        assert forall|c: char| less.contains(c) implies text.contains(c) by {
            let k = choose|k: int| 0 <= k < less.len() && less[k] == c;
            assert(text[k + 1] == c);
        }
        lemma_plain_quoted(seen.push(text[0]), less, quote, rest);
        assert(seen.push(text[0]) + less =~= seen + text);
    }
}

/// Blanks between terms mean nothing; the first term is followed by what is read of the
/// rest, and a term that is refused refuses the query.
pub proof fn law_terms_are_read_one_by_one(t: Seq<char>, c: char)
    requires
        t.len() > 0,
        !is_space(t[0]),
        is_space(c),
    ensures
        terms_of(seq![c] + t) == terms_of(t),
        terms_of(seq![c]) == Ok::<Seq<TermView>, Refusal>(Seq::empty()),
        match term_of(t) {
            Err(e) => terms_of(t) == Err::<Seq<TermView>, Refusal>(e),
            Ok((x, rest)) => match terms_of(rest) {
                Err(e) => terms_of(t) == Err::<Seq<TermView>, Refusal>(e),
                Ok(more) => terms_of(t) == Ok::<Seq<TermView>, Refusal>(seq![x] + more),
            },
        },
{
    let none = Seq::<TermView>::empty();
    let one = seq![c];
    reveal_with_fuel(after_spaces, 2);
    assert((one + t).skip(1) =~= t);
    assert((one + t)[0] == c);
    assert(after_spaces(one + t) == after_spaces(t));
    assert(one.skip(1).len() == 0);
    assert(after_spaces(one).len() == 0);
    if let Ok((x, rest)) = term_of(t) {
        lemma_terms_seen(seq![x], none, rest);
        assert(none.push(x) =~= seq![x] + none);
    }
}

/// A quote that is not closed is refused, and so is a backslash with nothing behind it
/// and a brace that is not closed.
pub proof fn law_what_is_open_is_refused(field: FieldView, quote: char, text: Seq<char>)
    requires
        quote == '"' || quote == '\'',
        !text.contains(quote),
        !text.contains('\\'),
    ensures
        single_of(seq![quote] + text, field) == Err::<(ValueView, Seq<char>), Refusal>(
            Refusal::UnterminatedQuote,
        ),
        single_of(seq![quote] + (text + seq!['\\']), field) == Err::<
            (ValueView, Seq<char>),
            Refusal,
        >(Refusal::TrailingBackslash),
        !text.contains('}') ==> single_of(seq!['{'] + text, field) == Err::<
            (ValueView, Seq<char>),
            Refusal,
        >(Refusal::UnterminatedBrace),
{
    let (a, b, c) = (seq![quote] + text, seq![quote] + (text + seq!['\\']), seq!['{'] + text);
    assert(a[0] == quote && b[0] == quote && c[0] == '{');
    assert(a.skip(1) =~= text);
    assert(b.skip(1) =~= text + seq!['\\']);
    assert(c.skip(1) =~= text);
    lemma_open_quote(Seq::empty(), text, quote);
    if !text.contains('}') {
        crate::text::law_split_at_the_first(text, '}', Seq::empty());
    }
}

proof fn lemma_open_quote(seen: Seq<char>, text: Seq<char>, quote: char)
    requires
        quote != '\\',
        !text.contains(quote),
        !text.contains('\\'),
    ensures
        quoted_after(seen, text, quote) == Err::<(Seq<char>, Seq<char>), Refusal>(
            Refusal::UnterminatedQuote,
        ),
        quoted_after(seen, text + seq!['\\'], quote) == Err::<(Seq<char>, Seq<char>), Refusal>(
            Refusal::TrailingBackslash,
        ),
    decreases text.len(),
{
    if text.len() == 0 {
        assert(text + seq!['\\'] =~= seq!['\\']);
    } else {
        let less = text.skip(1);
        assert(text.contains(text[0]));
        assert((text + seq!['\\'])[0] == text[0]);
        assert((text + seq!['\\']).skip(1) =~= less + seq!['\\']);
        assert forall|c: char| less.contains(c) implies text.contains(c) by {
            let k = choose|k: int| 0 <= k < less.len() && less[k] == c;
            assert(text[k + 1] == c);
        }
        lemma_open_quote(seen.push(text[0]), less, quote);
    }
}

/// Where a value should stand and none does, the query is refused; so is a size that is
/// none, which is named.
pub proof fn law_missing_values_are_refused(w: Seq<char>, tail: Seq<char>, c: char)
    requires
        plain_word(w),
        value_ends(tail),
        is_space(c),
    ensures
        single_of(Seq::empty(), FieldView::Size) == Err::<(ValueView, Seq<char>), Refusal>(
            Refusal::ExpectedValue,
        ),
        single_of(seq![c] + tail, FieldView::Name) == Err::<(ValueView, Seq<char>), Refusal>(
            Refusal::ExpectedValue,
        ),
        size_of(w) is None ==> single_of(w + tail, FieldView::Size) == Err::<
            (ValueView, Seq<char>),
            Refusal,
        >(Refusal::InvalidSize(w)),
{
    let s = seq![c] + tail;
    assert(s[0] == c);
    lemma_word_alone(w, tail);
    assert((w + tail)[0] == w[0]);
    assert((w + tail).take(w.len() as int) =~= w);
}

} // verus!
