//! Lowering: a [`Query`] and a captured `now` become a [`Filter`], a flat AND of
//! column predicates that can each be negated.
use vstd::prelude::*;

use crate::civil::is_offset;
use crate::query::ast::{
    side, term_views, value_text, Field, FieldView, Matcher, MatcherView, Op, Presence, Query, Term,
    TermView, Value, ValueView,
};
use crate::query::date::{DateExpr, Interval, LocalTime};

verus! {

/// A flat AND of column predicates.
#[derive(Clone, Debug, PartialEq, Eq)]
pub struct Filter {
    pub preds: Vec<Pred>,
    pub limit: u32,
    pub offset: u32,
}

#[derive(Clone, Debug, PartialEq, Eq)]
pub enum Pred {
    /// A match on a text column.
    Text { col: TextCol, needle: String, mode: TextMode, negate: bool },
    /// A substring match on any of the default columns.
    AnyText { needle: String, negate: bool },
    /// `lo <= column < hi` on an ordered column; `None` is an open side.
    Range { col: NumCol, lo: Option<i64>, hi: Option<i64>, negate: bool },
    /// A tag or property key with a value that matches.
    Meta { key: String, value: Option<String>, mode: TextMode, negate: bool },
}

/// How a text column is compared, always without regard to case.
#[derive(Clone, Copy, Debug, PartialEq, Eq, Structural)]
pub enum TextMode {
    Substring,
    Prefix,
    Exact,
    Like,
}

#[derive(Clone, Copy, Debug, PartialEq, Eq, Structural)]
pub enum TextCol {
    Name,
    Path,
    Dir,
    Hash,
    Algo,
    Ext,
    FileType,
}

#[derive(Clone, Copy, Debug, PartialEq, Eq, Structural)]
pub enum NumCol {
    Size,
    Mtime,
}

/// Why a query cannot be lowered.
#[derive(Clone, Debug, PartialEq, Eq)]
pub enum LowerError {
    /// The field takes no ranges.
    RangeUnsupported(Field),
    /// The field takes no such value.
    ValueUnsupported(Field),
    /// The field takes no `=` or `:=`.
    OpUnsupported(Field),
    /// `mtime` takes a date.
    ExpectedDate,
    /// A bound of `mtime` is a date.
    ExpectedDateBound,
    /// `size` takes a number.
    ExpectedNumber,
    /// A bound of `size` is a number.
    ExpectedNumberBound,
    /// A date does not exist, or cannot be held.
    NoSuchDate,
}

/// What a [`LowerError`] holds.
pub enum LowerRefusal {
    RangeUnsupported(FieldView),
    ValueUnsupported(FieldView),
    OpUnsupported(FieldView),
    ExpectedDate,
    ExpectedDateBound,
    ExpectedNumber,
    ExpectedNumberBound,
    NoSuchDate,
}

impl View for LowerError {
    type V = LowerRefusal;

    open spec fn view(&self) -> LowerRefusal {
        match *self {
            LowerError::RangeUnsupported(f) => LowerRefusal::RangeUnsupported(f@),
            LowerError::ValueUnsupported(f) => LowerRefusal::ValueUnsupported(f@),
            LowerError::OpUnsupported(f) => LowerRefusal::OpUnsupported(f@),
            LowerError::ExpectedDate => LowerRefusal::ExpectedDate,
            LowerError::ExpectedDateBound => LowerRefusal::ExpectedDateBound,
            LowerError::ExpectedNumber => LowerRefusal::ExpectedNumber,
            LowerError::ExpectedNumberBound => LowerRefusal::ExpectedNumberBound,
            LowerError::NoSuchDate => LowerRefusal::NoSuchDate,
        }
    }
}

/// What a predicate holds.
pub enum PredView {
    Text { col: TextCol, needle: Seq<char>, mode: TextMode, negate: bool },
    AnyText { needle: Seq<char>, negate: bool },
    Range { col: NumCol, lo: Option<i64>, hi: Option<i64>, negate: bool },
    Meta { key: Seq<char>, value: Option<Seq<char>>, mode: TextMode, negate: bool },
}

impl View for Pred {
    type V = PredView;

    open spec fn view(&self) -> PredView {
        match *self {
            Pred::Text { col, needle, mode, negate } => PredView::Text {
                col,
                needle: needle@,
                mode,
                negate,
            },
            Pred::AnyText { needle, negate } => PredView::AnyText { needle: needle@, negate },
            Pred::Range { col, lo, hi, negate } => PredView::Range { col, lo, hi, negate },
            Pred::Meta { key, value, mode, negate } => PredView::Meta {
                key: key@,
                value: match value {
                    Some(v) => Some(v@),
                    None => None,
                },
                mode,
                negate,
            },
        }
    }
}

/// The views of some predicates.
pub open spec fn pred_views(preds: Seq<Pred>) -> Seq<PredView> {
    preds.map_values(|p: Pred| p@)
}

/// The text column that a field names.
pub open spec fn text_col(field: FieldView) -> Option<TextCol> {
    match field {
        FieldView::Name => Some(TextCol::Name),
        FieldView::Path => Some(TextCol::Path),
        FieldView::Dir => Some(TextCol::Dir),
        FieldView::Hash => Some(TextCol::Hash),
        FieldView::Algo => Some(TextCol::Algo),
        FieldView::Ext => Some(TextCol::Ext),
        FieldView::FileType => Some(TextCol::FileType),
        _ => None,
    }
}

/// How an operator compares: in part, from the start for a hash, in full, or by a
/// pattern.
pub open spec fn text_mode(op: Op, hash: bool) -> TextMode {
    match op {
        Op::Match => if hash {
            TextMode::Prefix
        } else {
            TextMode::Substring
        },
        Op::Exact => TextMode::Exact,
        Op::Like => TextMode::Like,
    }
}

/// The stored bounds of the sizes `[lo, hi)`. A stored size is at most `i64::MAX`:
/// a greater low bound is met by none, a greater high bound by all.
pub open spec fn size_range(lo: Option<int>, hi: Option<int>) -> (Option<i64>, Option<i64>) {
    match lo {
        Some(a) if a > i64::MAX => (Some(i64::MAX), Some(i64::MAX)),
        _ => (
            match lo {
                Some(a) => Some(a as i64),
                None => None,
            },
            match hi {
                Some(b) if b <= i64::MAX => Some(b as i64),
                _ => None,
            },
        ),
    }
}

/// The value lies in a stored range.
pub open spec fn in_range(v: int, lo: Option<i64>, hi: Option<i64>) -> bool {
    &&& (lo matches Some(a) ==> a <= v)
    &&& (hi matches Some(b) ==> v < b)
}

/// The number that a bound holds.
pub open spec fn size_bound_of(v: Option<ValueView>) -> Option<int> {
    match v {
        Some(ValueView::Number(n)) => Some(n as int),
        _ => None,
    }
}

/// The term's field, as an error names it, where it takes no such value.
pub open spec fn plain_refusal(t: TermView) -> LowerRefusal {
    match t.matcher {
        MatcherView::Range(_, _) => LowerRefusal::RangeUnsupported(t.field),
        MatcherView::Single(_) => LowerRefusal::ValueUnsupported(t.field),
    }
}

/// A bound is open or a date.
pub open spec fn date_side(v: Option<ValueView>) -> bool {
    v is None || v->0 is Date
}

/// A bound is open or a number.
pub open spec fn number_side(v: Option<ValueView>) -> bool {
    v is None || v->0 is Number
}

/// Why a matcher is not one of dates, where it is not.
pub open spec fn date_refusal(m: MatcherView) -> Option<LowerRefusal> {
    match m {
        MatcherView::Single(v) => if v is Date {
            None
        } else {
            Some(LowerRefusal::ExpectedDate)
        },
        MatcherView::Range(lo, hi) => if date_side(lo) && date_side(hi) {
            None
        } else {
            Some(LowerRefusal::ExpectedDateBound)
        },
    }
}

/// Why a term cannot be lowered whatever its dates are, where it cannot.
pub open spec fn refusal_of(t: TermView) -> Option<LowerRefusal> {
    match t.field {
        FieldView::Mtime => if t.op != Op::Match {
            Some(LowerRefusal::OpUnsupported(t.field))
        } else {
            date_refusal(t.matcher)
        },
        FieldView::Size => if t.op != Op::Match {
            Some(LowerRefusal::OpUnsupported(t.field))
        } else {
            match t.matcher {
                MatcherView::Single(v) => if v is Number {
                    None
                } else {
                    Some(LowerRefusal::ExpectedNumber)
                },
                MatcherView::Range(lo, hi) => if number_side(lo) && number_side(hi) {
                    None
                } else {
                    Some(LowerRefusal::ExpectedNumberBound)
                },
            }
        },
        FieldView::Meta(_) => if t.matcher is Single {
            None
        } else {
            Some(plain_refusal(t))
        },
        _ => if t.matcher matches MatcherView::Single(ValueView::Text(_)) {
            None
        } else {
            Some(plain_refusal(t))
        },
    }
}

/// The low bound of a date side, with the zone's offset at it.
pub open spec fn low_bound(v: Option<ValueView>, now: LocalTime, offset: int) -> Option<i64> {
    match v {
        Some(ValueView::Date(d)) => Some(d.low(now).at(offset) as i64),
        _ => None,
    }
}

/// The high bound of a date side, with the zone's offset at it.
pub open spec fn high_bound(v: Option<ValueView>, now: LocalTime, offset: int) -> Option<i64> {
    match v {
        Some(ValueView::Date(d)) => Some(d.high(now).at(offset) as i64),
        _ => None,
    }
}

/// The bounds of a date matcher, with the zone's offsets at the two sides: a range
/// takes the start of its low side and the end of its high side.
pub open spec fn date_range(m: MatcherView, now: LocalTime, low: int, high: int) -> Interval {
    match m {
        MatcherView::Single(ValueView::Date(d)) => d.resolved(now, low, high),
        MatcherView::Single(_) => Interval { start: None, end: None },
        MatcherView::Range(lo, hi) => Interval {
            start: low_bound(lo, now, low),
            end: high_bound(hi, now, high),
        },
    }
}

/// The predicate of a term that is not refused, with the zone's offsets at the two
/// sides of a date.
pub open spec fn pred_of(t: TermView, now: LocalTime, low: int, high: int) -> PredView {
    let negate = t.presence == Presence::MustNot;
    match t.field {
        FieldView::Mtime => {
            let iv = date_range(t.matcher, now, low, high);
            PredView::Range { col: NumCol::Mtime, lo: iv.start, hi: iv.end, negate }
        },
        FieldView::Size => {
            let (lo, hi) = match t.matcher {
                MatcherView::Single(ValueView::Number(n)) => size_range(
                    Some(n as int),
                    Some(n + 1),
                ),
                MatcherView::Single(_) => (None, None),
                MatcherView::Range(a, b) => size_range(size_bound_of(a), size_bound_of(b)),
            };
            PredView::Range { col: NumCol::Size, lo, hi, negate }
        },
        FieldView::Meta(key) => PredView::Meta {
            key,
            value: Some(value_text(t.matcher->Single_0)),
            mode: text_mode(t.op, false),
            negate,
        },
        FieldView::Default => PredView::AnyText { needle: value_text(t.matcher->Single_0), negate },
        _ => PredView::Text {
            col: text_col(t.field)->0,
            needle: value_text(t.matcher->Single_0),
            mode: text_mode(t.op, t.field is Hash),
            negate,
        },
    }
}

/// Offsets that a zone can have, for the two sides of each term.
pub open spec fn are_offsets(zone: Seq<(i32, i32)>) -> bool {
    forall|i: int|
        0 <= i < zone.len() ==> is_offset((#[trigger] zone[i]).0 as int) && is_offset(
            zone[i].1 as int,
        )
}

/// The predicates of some terms that are not refused, with the zone's offsets at the
/// two sides of each.
pub open spec fn preds_of(
    terms: Seq<TermView>,
    now: LocalTime,
    zone: Seq<(i32, i32)>,
) -> Seq<PredView> {
    Seq::new(
        terms.len(),
        |i: int| pred_of(terms[i], now, zone[i].0 as int, zone[i].1 as int),
    )
}

/// The low side holds no date that cannot be held, with the zone's offset at it.
pub open spec fn low_side_held(v: Option<ValueView>, now: LocalTime, low: int) -> bool {
    v matches Some(ValueView::Date(d)) ==> d.low_held(now, low)
}

/// The high side holds no date that cannot be held, with the zone's offset at it.
pub open spec fn high_side_held(v: Option<ValueView>, now: LocalTime, high: int) -> bool {
    v matches Some(ValueView::Date(d)) ==> d.high_held(now, high)
}

/// The dates of a matcher can be held, with the zone's offsets at the two sides.
pub open spec fn dates_held(m: MatcherView, now: LocalTime, low: int, high: int) -> bool {
    match m {
        MatcherView::Single(ValueView::Date(d)) => d.held(now, low, high),
        MatcherView::Single(_) => true,
        MatcherView::Range(lo, hi) => low_side_held(lo, now, low) && high_side_held(hi, now, high),
    }
}

/// Why a term cannot be lowered, with the zone's offsets at the two sides of its date.
pub open spec fn refusal_at(t: TermView, now: LocalTime, low: int, high: int) -> Option<
    LowerRefusal,
> {
    match refusal_of(t) {
        Some(e) => Some(e),
        None => if t.field is Mtime && !dates_held(t.matcher, now, low, high) {
            Some(LowerRefusal::NoSuchDate)
        } else {
            None
        },
    }
}

/// The first refusal among some terms, with the zone's offsets at the two sides of each.
pub open spec fn first_refusal(
    terms: Seq<TermView>,
    now: LocalTime,
    zone: Seq<(i32, i32)>,
) -> Option<LowerRefusal>
    decreases terms.len(),
{
    if terms.len() == 0 {
        None
    } else {
        match refusal_at(terms[0], now, zone[0].0 as int, zone[0].1 as int) {
            Some(e) => Some(e),
            None => first_refusal(terms.skip(1), now, zone.skip(1)),
        }
    }
}

/// What some terms are lowered to: the first refusal, or the predicates and the page.
pub open spec fn is_lowered(
    r: Result<Filter, LowerError>,
    terms: Seq<TermView>,
    now: LocalTime,
    zone: Seq<(i32, i32)>,
    limit: u32,
    offset: u32,
) -> bool {
    match first_refusal(terms, now, zone) {
        Some(e) => r matches Err(x) && x@ == e,
        None => r matches Ok(f) && f.limit == limit && f.offset == offset && pred_views(f.preds@)
            == preds_of(terms, now, zone),
    }
}

fn copy_field(f: &Field) -> (r: Field)
    ensures
        r@ == f@,
{
    match f {
        Field::Default => Field::Default,
        Field::Name => Field::Name,
        Field::Path => Field::Path,
        Field::Dir => Field::Dir,
        Field::Hash => Field::Hash,
        Field::Algo => Field::Algo,
        Field::Size => Field::Size,
        Field::Mtime => Field::Mtime,
        Field::Ext => Field::Ext,
        Field::FileType => Field::FileType,
        Field::Meta(k) => Field::Meta(k.clone()),
    }
}

/// The bounds of a date matcher, with the zone's offsets at the two sides.
fn date_bounds(m: &Matcher, now: LocalTime, low: i32, high: i32) -> (r: Result<
    Interval,
    LowerError,
>)
    ensures
        match date_refusal(m@) {
            Some(e) => r matches Err(x) && x@ == e,
            None => if dates_held(m@, now, low as int, high as int) {
                r == Ok::<Interval, LowerError>(date_range(m@, now, low as int, high as int))
            } else {
                r == Err::<Interval, LowerError>(LowerError::NoSuchDate)
            },
        },
{
    match m {
        Matcher::Single(v) => match v {
            Value::Date(d) => if d.can_resolve(now, low, high) {
                Ok(d.resolve_at(now, low, high))
            } else {
                Err(LowerError::NoSuchDate)
            },
            _ => Err(LowerError::ExpectedDate),
        },
        Matcher::Range(lo, hi) => {
            if !is_date_side(lo) || !is_date_side(hi) {
                return Err(LowerError::ExpectedDateBound);
            }
            let start: Option<i64> = match lo {
                Some(Value::Date(d)) => {
                    if !d.can_start(now, low) {
                        return Err(LowerError::NoSuchDate);
                    }
                    d.start_at(now, low)
                },
                _ => None,
            };
            let end: Option<i64> = match hi {
                Some(Value::Date(d)) => {
                    if !d.can_end(now, high) {
                        return Err(LowerError::NoSuchDate);
                    }
                    d.end_at(now, high)
                },
                _ => None,
            };
            Ok(Interval { start, end })
        },
    }
}

fn is_date_side(v: &Option<Value>) -> (r: bool)
    ensures
        r == date_side(side(*v)),
{
    match v {
        None => true,
        Some(Value::Date(_)) => true,
        Some(_) => false,
    }
}

/// The offset of the machine's zone at one bound of a date range.
fn bound_offset(v: &Option<Value>, now: LocalTime, low: bool) -> (r: i32)
    ensures
        is_offset(r as int),
        !(side(*v) matches Some(ValueView::Date(_))) ==> r == 0,
{
    match v {
        Some(Value::Date(d)) => {
            let (a, b): (i32, i32) = d.zone_offsets(now);
            if low {
                a
            } else {
                b
            }
        },
        _ => 0,
    }
}

/// The offsets of the machine's zone at the two sides of a term's date; none where the
/// term is not on a date.
pub fn term_offsets(t: &Term, now: LocalTime) -> (r: (i32, i32))
    ensures
        is_offset(r.0 as int),
        is_offset(r.1 as int),
        !(t@.field is Mtime) ==> r == (0i32, 0i32),
{
    match (&t.field, &t.matcher) {
        (Field::Mtime, Matcher::Single(v)) => match v {
            Value::Date(d) => d.zone_offsets(now),
            _ => (0, 0),
        },
        (Field::Mtime, Matcher::Range(lo, hi)) => (
            bound_offset(lo, now, true),
            bound_offset(hi, now, false),
        ),
        _ => (0, 0),
    }
}

/// One bound of a size range.
fn size_bound(v: &Option<Value>) -> (r: Result<Option<u64>, LowerError>)
    ensures
        if number_side(side(*v)) {
            r matches Ok(b) && (match b {
                Some(n) => Some(n as int),
                None => None,
            }) == size_bound_of(side(*v))
        } else {
            r matches Err(e) && e@ == LowerRefusal::ExpectedNumberBound
        },
{
    match v {
        None => Ok(None),
        Some(Value::Number(n)) => Ok(Some(*n)),
        Some(_) => Err(LowerError::ExpectedNumberBound),
    }
}

/// The stored bounds of a size matcher.
fn size_bounds(m: &Matcher) -> (r: Result<(Option<i64>, Option<i64>), LowerError>)
    ensures
        match m@ {
            MatcherView::Single(ValueView::Number(n)) => r == Ok::<
                (Option<i64>, Option<i64>),
                LowerError,
            >(size_range(Some(n as int), Some(n + 1))),
            MatcherView::Single(_) => r matches Err(e) && e@ == LowerRefusal::ExpectedNumber,
            MatcherView::Range(lo, hi) => if number_side(lo) && number_side(hi) {
                r == Ok::<(Option<i64>, Option<i64>), LowerError>(
                    size_range(size_bound_of(lo), size_bound_of(hi)),
                )
            } else {
                r matches Err(e) && e@ == LowerRefusal::ExpectedNumberBound
            },
        },
{
    let (lo, hi): (Option<u64>, Option<u128>) = match m {
        Matcher::Single(Value::Number(n)) => (Some(*n), Some(*n as u128 + 1)),
        Matcher::Single(_) => return Err(LowerError::ExpectedNumber),
        Matcher::Range(a, b) => {
            let lo: Option<u64> = match size_bound(a) {
                Ok(v) => v,
                Err(e) => return Err(e),
            };
            match size_bound(b) {
                Ok(Some(n)) => (lo, Some(n as u128)),
                Ok(None) => (lo, None),
                Err(e) => return Err(e),
            }
        },
    };
    let low: Option<i64> = match lo {
        None => None,
        Some(a) => {
            if a > i64::MAX as u64 {
                return Ok((Some(i64::MAX), Some(i64::MAX)));
            }
            Some(a as i64)
        },
    };
    let high: Option<i64> = match hi {
        None => None,
        Some(b) => if b > i64::MAX as u128 {
            None
        } else {
            Some(b as i64)
        },
    };
    Ok((low, high))
}

fn mode_of(op: Op, hash: bool) -> (r: TextMode)
    ensures
        r == text_mode(op, hash),
{
    match op {
        Op::Match => if hash {
            TextMode::Prefix
        } else {
            TextMode::Substring
        },
        Op::Exact => TextMode::Exact,
        Op::Like => TextMode::Like,
    }
}

fn column_of(f: &Field) -> (r: Option<TextCol>)
    ensures
        r == text_col(f@),
{
    match f {
        Field::Name => Some(TextCol::Name),
        Field::Path => Some(TextCol::Path),
        Field::Dir => Some(TextCol::Dir),
        Field::Hash => Some(TextCol::Hash),
        Field::Algo => Some(TextCol::Algo),
        Field::Ext => Some(TextCol::Ext),
        Field::FileType => Some(TextCol::FileType),
        _ => None,
    }
}

/// A match on a text column.
pub fn text(col: TextCol, needle: &str, mode: TextMode, negate: bool) -> (r: Pred)
    ensures
        r@ == (PredView::Text { col, needle: needle@, mode, negate }),
{
    Pred::Text { col, needle: needle.to_owned(), mode, negate }
}

/// The error for a value or range that a field does not take.
fn refuse(t: &Term) -> (r: LowerError)
    ensures
        r@ == plain_refusal(t@),
{
    match &t.matcher {
        Matcher::Range(_, _) => LowerError::RangeUnsupported(copy_field(&t.field)),
        Matcher::Single(_) => LowerError::ValueUnsupported(copy_field(&t.field)),
    }
}

/// Lowers one term, with the zone's offsets at the two sides of its date.
pub fn lower_term_at(t: &Term, now: LocalTime, low: i32, high: i32) -> (r: Result<Pred, LowerError>)
    ensures
        match refusal_at(t@, now, low as int, high as int) {
            Some(e) => r matches Err(x) && x@ == e,
            None => r matches Ok(p) && p@ == pred_of(t@, now, low as int, high as int),
        },
{
    let negate: bool = match t.presence {
        Presence::Must => false,
        Presence::MustNot => true,
    };
    match &t.field {
        Field::Mtime => {
            if t.op != Op::Match {
                return Err(LowerError::OpUnsupported(Field::Mtime));
            }
            match date_bounds(&t.matcher, now, low, high) {
                Ok(iv) => Ok(
                    Pred::Range { col: NumCol::Mtime, lo: iv.start, hi: iv.end, negate },
                ),
                Err(e) => Err(e),
            }
        },
        Field::Size => {
            if t.op != Op::Match {
                return Err(LowerError::OpUnsupported(Field::Size));
            }
            match size_bounds(&t.matcher) {
                Ok((lo, hi)) => Ok(Pred::Range { col: NumCol::Size, lo, hi, negate }),
                Err(e) => Err(e),
            }
        },
        Field::Meta(key) => match &t.matcher {
            Matcher::Single(v) => Ok(
                Pred::Meta {
                    key: key.clone(),
                    value: Some(v.as_text()),
                    mode: mode_of(t.op, false),
                    negate,
                },
            ),
            Matcher::Range(_, _) => Err(refuse(t)),
        },
        Field::Default => match &t.matcher {
            Matcher::Single(Value::Text(s)) => Ok(Pred::AnyText { needle: s.clone(), negate }),
            _ => Err(refuse(t)),
        },
        other => {
            let hash: bool = match other {
                Field::Hash => true,
                _ => false,
            };
            match &t.matcher {
                Matcher::Single(Value::Text(s)) => Ok(
                    text(column_of(other).unwrap(), s.as_str(), mode_of(t.op, hash), negate),
                ),
                _ => Err(refuse(t)),
            }
        },
    }
}

/// Lowers one term in the machine's zone.
pub fn lower_term(t: &Term, now: LocalTime) -> (r: Result<Pred, LowerError>)
    ensures
        exists|low: int, high: int|
            #![trigger refusal_at(t@, now, low, high)]
            is_offset(low) && is_offset(high) && match refusal_at(t@, now, low, high) {
                Some(e) => r matches Err(x) && x@ == e,
                None => r matches Ok(p) && p@ == pred_of(t@, now, low, high),
            },
{
    let (low, high): (i32, i32) = term_offsets(t, now);
    let ghost refused = refusal_at(t@, now, low as int, high as int);
    lower_term_at(t, now, low, high)
}

/// Lowers a query with the zone's offsets at the two sides of each term: one predicate
/// for each term, in order, or the first refusal.
pub fn lower_at(q: &Query, now: LocalTime, zone: &Vec<(i32, i32)>) -> (r: Result<
    Filter,
    LowerError,
>)
    requires
        zone@.len() == q.terms@.len(),
    ensures
        is_lowered(r, term_views(q.terms@), now, zone@, q.limit, q.offset),
{
    let ghost tv = term_views(q.terms@);
    let ghost pv = preds_of(tv, now, zone@);
    let mut preds: Vec<Pred> = Vec::new();
    let mut i: usize = 0;
    assert(tv.skip(0) =~= tv);
    assert(zone@.skip(0) =~= zone@);
    while i < q.terms.len()
        invariant
            tv == term_views(q.terms@),
            pv == preds_of(tv, now, zone@),
            zone@.len() == q.terms@.len(),
            i <= q.terms@.len(),
            preds@.len() == i,
            first_refusal(tv, now, zone@) == first_refusal(
                tv.skip(i as int),
                now,
                zone@.skip(i as int),
            ),
            forall|k: int| 0 <= k < i ==> (#[trigger] preds@[k])@ == pv[k],
        decreases q.terms@.len() - i,
    {
        proof {
            assert(tv[i as int] == q.terms@[i as int]@);
            assert(tv.skip(i as int)[0] == tv[i as int]);
            assert(zone@.skip(i as int)[0] == zone@[i as int]);
            assert(tv.skip(i as int).skip(1) =~= tv.skip(i + 1));
            assert(zone@.skip(i as int).skip(1) =~= zone@.skip(i + 1));
        }
        match lower_term_at(&q.terms[i], now, zone[i].0, zone[i].1) {
            Ok(p) => preds.push(p),
            Err(e) => return Err(e),
        }
        i += 1;
    }
    assert(pred_views(preds@) =~= pv);
    Ok(Filter { preds, limit: q.limit, offset: q.offset })
}

/// Lowers a query in the machine's zone: one predicate for each term, in order, or the
/// first refusal.
pub fn lower(q: &Query, now: LocalTime) -> (r: Result<Filter, LowerError>)
    ensures
        exists|zone: Seq<(i32, i32)>|
            zone.len() == q.terms@.len() && are_offsets(zone) && #[trigger] is_lowered(
                r,
                term_views(q.terms@),
                now,
                zone,
                q.limit,
                q.offset,
            ),
{
    let mut zone: Vec<(i32, i32)> = Vec::new();
    let mut i: usize = 0;
    while i < q.terms.len()
        invariant
            i <= q.terms@.len(),
            zone@.len() == i,
            are_offsets(zone@),
        decreases q.terms@.len() - i,
    {
        zone.push(term_offsets(&q.terms[i], now));
        i += 1;
    }
    lower_at(q, now, &zone)
}

/// Lowering goes term by term: a query of the terms of two is lowered where both are,
/// is refused as the first is or else as the second is, and has the predicates of the
/// first followed by those of the second, one for each term.
pub proof fn law_lowering_goes_term_by_term(
    a: Seq<TermView>,
    b: Seq<TermView>,
    now: LocalTime,
    zone_a: Seq<(i32, i32)>,
    zone_b: Seq<(i32, i32)>,
)
    requires
        zone_a.len() == a.len(),
        zone_b.len() == b.len(),
    ensures
        first_refusal(a + b, now, zone_a + zone_b) == (match first_refusal(a, now, zone_a) {
            Some(e) => Some(e),
            None => first_refusal(b, now, zone_b),
        }),
        preds_of(a + b, now, zone_a + zone_b) == preds_of(a, now, zone_a) + preds_of(
            b,
            now,
            zone_b,
        ),
        preds_of(a, now, zone_a).len() == a.len(),
{
    lemma_refusals_add(a, b, now, zone_a, zone_b);
    assert(preds_of(a + b, now, zone_a + zone_b) =~= preds_of(a, now, zone_a) + preds_of(
        b,
        now,
        zone_b,
    ));
}

proof fn lemma_refusals_add(
    a: Seq<TermView>,
    b: Seq<TermView>,
    now: LocalTime,
    zone_a: Seq<(i32, i32)>,
    zone_b: Seq<(i32, i32)>,
)
    requires
        zone_a.len() == a.len(),
    ensures
        first_refusal(a + b, now, zone_a + zone_b) == (match first_refusal(a, now, zone_a) {
            Some(e) => Some(e),
            None => first_refusal(b, now, zone_b),
        }),
    decreases a.len(),
{
    if a.len() == 0 {
        assert(a + b =~= b);
        assert(zone_a + zone_b =~= zone_b);
    } else {
        assert((a + b)[0] == a[0]);
        assert((zone_a + zone_b)[0] == zone_a[0]);
        assert((a + b).skip(1) =~= a.skip(1) + b);
        assert((zone_a + zone_b).skip(1) =~= zone_a.skip(1) + zone_b);
        lemma_refusals_add(a.skip(1), b, now, zone_a.skip(1), zone_b);
    }
}

/// A range from a date to itself is the date: all of it is in, as in the bare term. That
/// holds of absolute dates and calendar words; an offset is a point as a bound.
pub proof fn law_range_from_a_date_to_itself_is_the_date(
    d: DateExpr,
    now: LocalTime,
    low: int,
    high: int,
)
    requires
        !(d is Offset),
    ensures
        date_range(
            MatcherView::Range(Some(ValueView::Date(d)), Some(ValueView::Date(d))),
            now,
            low,
            high,
        ) == date_range(MatcherView::Single(ValueView::Date(d)), now, low, high),
        dates_held(
            MatcherView::Range(Some(ValueView::Date(d)), Some(ValueView::Date(d))),
            now,
            low,
            high,
        ) == dates_held(MatcherView::Single(ValueView::Date(d)), now, low, high),
{
}

/// A range from one date to another holds exactly the instants that are not before the
/// start of the first and before the end of the second: so all of the second date that
/// is not before the first, and all of the first that is before the end of the second.
/// With a side left open, that side does not bound it.
pub proof fn law_range_of_dates_goes_from_start_to_end(
    a: DateExpr,
    b: DateExpr,
    now: LocalTime,
    t: int,
    low: int,
    high: int,
    a_high: int,
    b_low: int,
)
    requires
        !(a is Offset),
        !(b is Offset),
        a.held(now, low, a_high),
        b.held(now, b_low, high),
    ensures
        ({
            let (ia, ib) = (a.resolved(now, low, a_high), b.resolved(now, b_low, high));
            let both = date_range(
                MatcherView::Range(Some(ValueView::Date(a)), Some(ValueView::Date(b))),
                now,
                low,
                high,
            );
            let from = date_range(
                MatcherView::Range(Some(ValueView::Date(a)), None),
                now,
                low,
                high,
            );
            let until = date_range(
                MatcherView::Range(None, Some(ValueView::Date(b))),
                now,
                low,
                high,
            );
            &&& ia.start is Some && ib.end is Some
            &&& in_range(t, both.start, both.end) <==> ia.start->0 <= t < ib.end->0
            &&& in_range(t, ib.start, ib.end) && ia.start->0 <= t ==> in_range(
                t,
                both.start,
                both.end,
            )
            &&& in_range(t, ia.start, ia.end) && t < ib.end->0 ==> in_range(t, both.start, both.end)
            &&& in_range(t, from.start, from.end) <==> ia.start->0 <= t
            &&& in_range(t, until.start, until.end) <==> t < ib.end->0
        }),
{
}

/// An offset as a bound is the point that many units from now, on either side.
pub proof fn law_offset_bounds_are_points(d: DateExpr, now: LocalTime, low: int, high: int)
    requires
        d is Offset,
    ensures
        ({
            let range = date_range(
                MatcherView::Range(Some(ValueView::Date(d)), Some(ValueView::Date(d))),
                now,
                low,
                high,
            );
            let point = now.shifted(d->sign * d->n, d->unit);
            &&& range.start == Some(point.at(low) as i64)
            &&& range.end == Some(point.at(high) as i64)
        }),
{
}

/// Where no term is on a date, the zone does not matter: the refusal and the predicates
/// are the same for all offsets.
pub proof fn law_zone_matters_to_dates_alone(
    terms: Seq<TermView>,
    now: LocalTime,
    zone: Seq<(i32, i32)>,
    other: Seq<(i32, i32)>,
)
    requires
        zone.len() == terms.len(),
        other.len() == terms.len(),
        forall|i: int| 0 <= i < terms.len() ==> !((#[trigger] terms[i]).field is Mtime),
    ensures
        first_refusal(terms, now, zone) == first_refusal(terms, now, other),
        preds_of(terms, now, zone) == preds_of(terms, now, other),
    decreases terms.len(),
{
    assert(preds_of(terms, now, zone) =~= preds_of(terms, now, other));
    if terms.len() > 0 {
        let rest = terms.skip(1);
        assert(!(terms[0].field is Mtime));
        assert forall|i: int| 0 <= i < rest.len() implies !((#[trigger] rest[i]).field is Mtime) by {
            assert(rest[i] == terms[i + 1]);
        }
        law_zone_matters_to_dates_alone(rest, now, zone.skip(1), other.skip(1));
    }
}

/// The term with another presence.
pub open spec fn with_presence(t: TermView, presence: Presence) -> TermView {
    TermView { presence, ..t }
}

/// The predicate with another sign.
pub open spec fn with_negate(p: PredView, negate: bool) -> PredView {
    match p {
        PredView::Text { col, needle, mode, .. } => PredView::Text { col, needle, mode, negate },
        PredView::AnyText { needle, .. } => PredView::AnyText { needle, negate },
        PredView::Range { col, lo, hi, .. } => PredView::Range { col, lo, hi, negate },
        PredView::Meta { key, value, mode, .. } => PredView::Meta { key, value, mode, negate },
    }
}

/// The predicate is negated.
pub open spec fn negated(p: PredView) -> bool {
    match p {
        PredView::Text { negate, .. } => negate,
        PredView::AnyText { negate, .. } => negate,
        PredView::Range { negate, .. } => negate,
        PredView::Meta { negate, .. } => negate,
    }
}

/// Whether a term must or must not hold decides the sign of its predicate and nothing
/// else.
pub proof fn law_presence_is_the_sign(t: TermView, now: LocalTime, low: int, high: int)
    ensures
        ({
            let must = with_presence(t, Presence::Must);
            let must_not = with_presence(t, Presence::MustNot);
            &&& refusal_at(must_not, now, low, high) == refusal_at(must, now, low, high)
            &&& !negated(pred_of(must, now, low, high))
            &&& pred_of(must_not, now, low, high) == with_negate(
                pred_of(must, now, low, high),
                true,
            )
        }),
{
}

/// The stored range of a size matcher holds exactly the stored sizes of the range:
/// its low bound is in it, its high bound is not.
pub proof fn law_size_range_is_half_open(lo: Option<int>, hi: Option<int>, size: int)
    requires
        0 <= size <= i64::MAX,
        lo matches Some(a) ==> 0 <= a <= u64::MAX,
        hi matches Some(b) ==> 0 <= b <= u64::MAX + 1,
    ensures
        in_range(size, size_range(lo, hi).0, size_range(lo, hi).1) <==> {
            &&& (lo matches Some(a) ==> a <= size)
            &&& (hi matches Some(b) ==> size < b)
        },
{
}

/// What a field takes. A size takes one number or a range of numbers, a time one date
/// or a range of dates, either with `:` alone; a key of the metadata takes any one
/// value, and every other field one text.
pub proof fn law_what_a_field_takes(t: TermView)
    ensures
        t.field is Size ==> (refusal_of(t) is None <==> t.op == Op::Match && match t.matcher {
            MatcherView::Single(v) => v is Number,
            MatcherView::Range(a, b) => (a matches Some(v) ==> v is Number) && (b matches Some(v)
                ==> v is Number),
        }),
        t.field is Mtime ==> (refusal_of(t) is None <==> t.op == Op::Match && match t.matcher {
            MatcherView::Single(v) => v is Date,
            MatcherView::Range(a, b) => (a matches Some(v) ==> v is Date) && (b matches Some(v)
                ==> v is Date),
        }),
        t.field is Meta ==> (refusal_of(t) is None <==> t.matcher is Single),
        !(t.field is Size || t.field is Mtime || t.field is Meta) ==> (refusal_of(t) is None
            <==> t.matcher is Single && t.matcher->Single_0 is Text),
        refusal_of(t) matches Some(LowerRefusal::OpUnsupported(f)) ==> f == t.field && t.op
            != Op::Match,
        refusal_of(t) matches Some(LowerRefusal::RangeUnsupported(f)) ==> f == t.field
            && t.matcher is Range,
        refusal_of(t) matches Some(LowerRefusal::ValueUnsupported(f)) ==> f == t.field
            && t.matcher is Single,
        refusal_of(t) matches Some(LowerRefusal::ExpectedDate) ==> t.field is Mtime
            && t.matcher is Single,
        refusal_of(t) matches Some(LowerRefusal::ExpectedDateBound) ==> t.field is Mtime
            && t.matcher is Range,
        refusal_of(t) matches Some(LowerRefusal::ExpectedNumber) ==> t.field is Size
            && t.matcher is Single,
        refusal_of(t) matches Some(LowerRefusal::ExpectedNumberBound) ==> t.field is Size
            && t.matcher is Range,
{
}

/// A query is lowered term by term, in order, with its page; or refused with what the
/// first term that cannot be lowered is refused with.
pub proof fn law_query_is_lowered_in_order(
    q: &Query,
    now: LocalTime,
    zone: &Vec<(i32, i32)>,
    r: Result<Filter, LowerError>,
    i: int,
)
    requires
        zone@.len() == q.terms@.len(),
        call_ensures(lower_at, (q, now, zone), r),
        0 <= i < q.terms@.len(),
    ensures
        r is Ok ==> {
            &&& r->Ok_0.limit == q.limit
            &&& r->Ok_0.offset == q.offset
            &&& r->Ok_0.preds@.len() == q.terms@.len()
            &&& r->Ok_0.preds@[i]@ == pred_of(
                q.terms@[i]@,
                now,
                zone@[i].0 as int,
                zone@[i].1 as int,
            )
            &&& refusal_of(q.terms@[i]@) is None
        },
        refusal_of(q.terms@[i]@) is Some && (forall|j: int|
            0 <= j < i ==> refusal_at(
                (#[trigger] q.terms@[j])@,
                now,
                zone@[j].0 as int,
                zone@[j].1 as int,
            ) is None) ==> r is Err && r->Err_0@ == refusal_of(q.terms@[i]@)->0,
{
    let terms = term_views(q.terms@);
    assert(terms.len() == q.terms@.len());
    assert forall|j: int| 0 <= j < terms.len() implies #[trigger] terms[j] == q.terms@[j]@ by {}
    lemma_first_refusal(terms, now, zone@, i);
    if r is Ok {
        let preds = pred_views(r->Ok_0.preds@);
        assert(preds.len() == r->Ok_0.preds@.len());
        assert(preds[i] == r->Ok_0.preds@[i]@);
    }
}

proof fn lemma_first_refusal(
    terms: Seq<TermView>,
    now: LocalTime,
    zone: Seq<(i32, i32)>,
    i: int,
)
    requires
        zone.len() == terms.len(),
        0 <= i < terms.len(),
    ensures
        first_refusal(terms, now, zone) is None ==> refusal_at(
            terms[i],
            now,
            zone[i].0 as int,
            zone[i].1 as int,
        ) is None,
        refusal_at(terms[i], now, zone[i].0 as int, zone[i].1 as int) is Some && (forall|j: int|
            0 <= j < i ==> refusal_at(
                #[trigger] terms[j],
                now,
                zone[j].0 as int,
                zone[j].1 as int,
            ) is None) ==> first_refusal(terms, now, zone) == refusal_at(
            terms[i],
            now,
            zone[i].0 as int,
            zone[i].1 as int,
        ),
    decreases terms.len(),
{
    if i > 0 {
        let (t, z) = (terms.skip(1), zone.skip(1));
        assert(t[i - 1] == terms[i] && z[i - 1] == zone[i]);
        if forall|j: int|
            0 <= j < i ==> refusal_at(
                #[trigger] terms[j],
                now,
                zone[j].0 as int,
                zone[j].1 as int,
            ) is None {
            assert(refusal_at(terms[0], now, zone[0].0 as int, zone[0].1 as int) is None);
            assert forall|j: int| 0 <= j < i - 1 implies refusal_at(
                #[trigger] t[j],
                now,
                z[j].0 as int,
                z[j].1 as int,
            ) is None by {
                assert(t[j] == terms[j + 1] && z[j] == zone[j + 1]);
            }
        }
        lemma_first_refusal(t, now, z, i - 1);
    }
}

} // verus!
