//! The parsed query, before dates are resolved and fields become columns.
use vstd::prelude::*;

use crate::number::{decimal, u64_text};
use crate::query::date::DateExpr;

verus! {

/// A whole query string. Terms are AND-combined: a file matches when it satisfies
/// every term.
#[derive(Clone, Debug, PartialEq, Eq)]
pub struct Query {
    pub terms: Vec<Term>,
    pub limit: u32,
    pub offset: u32,
}

#[derive(Clone, Debug, PartialEq, Eq)]
pub struct Term {
    pub presence: Presence,
    pub field: Field,
    pub op: Op,
    pub matcher: Matcher,
}

/// `+` (the default) requires a match; `-` requires the absence of one.
#[derive(Clone, Copy, Debug, PartialEq, Eq, Structural)]
pub enum Presence {
    Must,
    MustNot,
}

/// How text is matched: `:` in part, `=` in full, `:=` by an SQL `LIKE` pattern.
#[derive(Clone, Copy, Debug, PartialEq, Eq, Structural)]
pub enum Op {
    Match,
    Exact,
    Like,
}

/// Which field a term targets. A name that is no known column is a metadata key.
#[derive(Clone, Debug, PartialEq, Eq)]
pub enum Field {
    /// No field was given: match against the default field set.
    Default,
    Name,
    Path,
    Dir,
    Hash,
    Algo,
    Size,
    /// The date field.
    Mtime,
    Ext,
    FileType,
    /// A tag or property key.
    Meta(String),
}

/// The right-hand side of a term.
#[derive(Clone, Debug, PartialEq, Eq)]
pub enum Matcher {
    Single(Value),
    /// `A..B`, `A..` or `..B`; `None` is an open side.
    Range(Option<Value>, Option<Value>),
}

#[derive(Clone, Debug, PartialEq, Eq)]
pub enum Value {
    /// A word or an unescaped quoted string.
    Text(String),
    /// A size in bytes.
    Number(u64),
    Date(DateExpr),
}

/// What a field holds.
pub enum FieldView {
    Default,
    Name,
    Path,
    Dir,
    Hash,
    Algo,
    Size,
    Mtime,
    Ext,
    FileType,
    Meta(Seq<char>),
}

/// What a value holds.
pub enum ValueView {
    Text(Seq<char>),
    Number(u64),
    Date(DateExpr),
}

/// What a matcher holds.
pub enum MatcherView {
    Single(ValueView),
    Range(Option<ValueView>, Option<ValueView>),
}

/// What a term holds.
pub struct TermView {
    pub presence: Presence,
    pub field: FieldView,
    pub op: Op,
    pub matcher: MatcherView,
}

impl View for Field {
    type V = FieldView;

    open spec fn view(&self) -> FieldView {
        match *self {
            Field::Default => FieldView::Default,
            Field::Name => FieldView::Name,
            Field::Path => FieldView::Path,
            Field::Dir => FieldView::Dir,
            Field::Hash => FieldView::Hash,
            Field::Algo => FieldView::Algo,
            Field::Size => FieldView::Size,
            Field::Mtime => FieldView::Mtime,
            Field::Ext => FieldView::Ext,
            Field::FileType => FieldView::FileType,
            Field::Meta(k) => FieldView::Meta(k@),
        }
    }
}

impl View for Value {
    type V = ValueView;

    open spec fn view(&self) -> ValueView {
        match *self {
            Value::Text(s) => ValueView::Text(s@),
            Value::Number(n) => ValueView::Number(n),
            Value::Date(d) => ValueView::Date(d),
        }
    }
}

/// The view of an optional value.
pub open spec fn side(v: Option<Value>) -> Option<ValueView> {
    match v {
        Some(x) => Some(x@),
        None => None,
    }
}

impl View for Matcher {
    type V = MatcherView;

    open spec fn view(&self) -> MatcherView {
        match *self {
            Matcher::Single(v) => MatcherView::Single(v@),
            Matcher::Range(lo, hi) => MatcherView::Range(side(lo), side(hi)),
        }
    }
}

impl View for Term {
    type V = TermView;

    open spec fn view(&self) -> TermView {
        TermView {
            presence: self.presence,
            field: self.field@,
            op: self.op,
            matcher: self.matcher@,
        }
    }
}

/// The views of some terms.
pub open spec fn term_views(terms: Seq<Term>) -> Seq<TermView> {
    terms.map_values(|t: Term| t@)
}

impl Default for Presence {
    fn default() -> (r: Self)
        ensures
            r == Presence::Must,
    {
        Presence::Must
    }
}

impl Default for Query {
    fn default() -> (r: Self)
        ensures
            r.terms@.len() == 0,
            r.limit == 0,
            r.offset == 0,
    {
        Query { terms: Vec::new(), limit: 0, offset: 0 }
    }
}

/// The text form of a value: a date has none.
pub open spec fn value_text(v: ValueView) -> Seq<char> {
    match v {
        ValueView::Text(s) => s,
        ValueView::Number(n) => decimal(n as nat),
        ValueView::Date(_) => Seq::empty(),
    }
}

impl Value {
    /// The text form, for a predicate on a metadata key.
    pub fn as_text(&self) -> (r: String)
        ensures
            r@ == value_text(self@),
    {
        match self {
            Value::Text(s) => s.clone(),
            Value::Number(n) => u64_text(*n),
            Value::Date(_) => String::new(),
        }
    }

    /// The date, where the value is one.
    pub fn as_date(&self) -> (r: Option<&DateExpr>)
        ensures
            match self@ {
                ValueView::Date(d) => r == Some(&d),
                _ => r is None,
            },
    {
        match self {
            Value::Date(d) => Some(d),
            _ => None,
        }
    }
}

/// The text of a value is itself, that of a number its digits.
pub proof fn law_text_of_a_value(s: Seq<char>, n: u64)
    ensures
        value_text(ValueView::Text(s)) == s,
        value_text(ValueView::Number(n)) == decimal(n as nat),
{
}

} // verus!
