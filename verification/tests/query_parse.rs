//! The query language: terms, fields, operators, values and refusals.
use hashit::query::ast::{Field, Matcher, Op, Presence, Term, Value};
use hashit::query::date::{
    CalUnit, DateExpr, Keyword, LocalTime, PartialDate, Unit, UtcOffset,
};
use hashit::query::lower::{lower, lower_at, Filter, LowerError, Pred};
use hashit::query::parse::{
    is_field_char, parse, parse_date, parse_size, resolve_field, DatePart, ParseError,
};

fn one(q: &str) -> Term {
    let mut parsed = parse(q).unwrap();
    assert_eq!(parsed.terms.len(), 1, "expected exactly one term in {q:?}");
    parsed.terms.pop().unwrap()
}

#[test]
fn resolve_field_falls_through_to_meta() {
    assert_eq!(resolve_field("camera"), Field::Meta("camera".into()));
    assert_eq!(resolve_field("mtime"), Field::Mtime);
    assert_eq!(resolve_field("type"), Field::FileType);
}

#[test]
fn bare_word_is_a_default_field_term() {
    let t = one("report");
    assert_eq!(t.presence, Presence::Must);
    assert_eq!(t.field, Field::Default);
    assert_eq!(t.matcher, Matcher::Single(Value::Text("report".into())));
}

#[test]
fn presence_and_field() {
    let t = one("-ext:tmp");
    assert_eq!(t.presence, Presence::MustNot);
    assert_eq!(t.field, Field::Ext);
    assert_eq!(t.matcher, Matcher::Single(Value::Text("tmp".into())));
}

#[test]
fn quoted_field_name_allows_colons() {
    let t = one(r#""EXIF:Model":Canon"#);
    assert_eq!(t.field, Field::Meta("EXIF:Model".into()));
    assert_eq!(t.matcher, Matcher::Single(Value::Text("Canon".into())));
}

#[test]
fn dash_is_an_alias_for_colon_in_field_names() {
    let t = one("exif-model:Canon");
    assert_eq!(t.field, Field::Meta("exif:model".into()));
    assert_eq!(t.matcher, Matcher::Single(Value::Text("Canon".into())));
}

#[test]
fn dashed_value_without_colon_stays_a_default_term() {
    let t = one("foo-bar");
    assert_eq!(t.field, Field::Default);
    assert_eq!(t.op, Op::Match);
    assert_eq!(t.matcher, Matcher::Single(Value::Text("foo-bar".into())));
}

#[test]
fn colon_is_the_default_match_operator() {
    let t = one("name:report");
    assert_eq!(t.field, Field::Name);
    assert_eq!(t.op, Op::Match);
    assert_eq!(t.matcher, Matcher::Single(Value::Text("report".into())));
}

#[test]
fn equals_is_the_exact_operator_and_dir_resolves() {
    let t = one("dir=/a/b/c");
    assert_eq!(t.field, Field::Dir);
    assert_eq!(t.op, Op::Exact);
    assert_eq!(t.matcher, Matcher::Single(Value::Text("/a/b/c".into())));
}

#[test]
fn colon_equals_is_the_like_operator_and_beats_colon() {
    let t = one("dir:=/a/b/%");
    assert_eq!(t.field, Field::Dir);
    assert_eq!(t.op, Op::Like);
    assert_eq!(t.matcher, Matcher::Single(Value::Text("/a/b/%".into())));
}

#[test]
fn equals_after_a_name_is_an_operator_like_colon() {
    // `a=b` mirrors `a:b`: `a` is a (meta) field, `=` the exact operator.
    // A literal `=` in a default-field search must be quoted ("a=b").
    let t = one("a=b");
    assert_eq!(t.field, Field::Meta("a".into()));
    assert_eq!(t.op, Op::Exact);
    assert_eq!(t.matcher, Matcher::Single(Value::Text("b".into())));

    let quoted = one(r#""a=b""#);
    assert_eq!(quoted.field, Field::Default);
    assert_eq!(quoted.matcher, Matcher::Single(Value::Text("a=b".into())));
}

#[test]
fn negated_quoted_field() {
    let t = one(r#"-"EXIF:Model":Canon"#);
    assert_eq!(t.presence, Presence::MustNot);
    assert_eq!(t.field, Field::Meta("EXIF:Model".into()));
}

#[test]
fn quoted_value_unescapes() {
    let t = one(r#"name:"a \"q\" name""#);
    assert_eq!(t.matcher, Matcher::Single(Value::Text(r#"a "q" name"#.into())));
}

#[test]
fn size_suffix_and_open_range() {
    let t = one("size:1m..");
    assert_eq!(
        t.matcher,
        Matcher::Range(Some(Value::Number(1024 * 1024)), None)
    );
}

#[test]
fn size_closed_range() {
    let t = one("size:1k..4k");
    assert_eq!(
        t.matcher,
        Matcher::Range(Some(Value::Number(1024)), Some(Value::Number(4096)))
    );
}

#[test]
fn date_range_with_open_low_bound() {
    let t = one("mtime:..{2020}");
    match t.matcher {
        Matcher::Range(None, Some(Value::Date(DateExpr::Absolute(p)))) => {
            assert_eq!(p.year, 2020);
        }
        other => panic!("unexpected matcher: {other:?}"),
    }
}

#[test]
fn multiple_terms_split_on_whitespace_respecting_quotes() {
    let q = parse(r#"photos +ext:jpg name:'two words' mtime:{last month}"#).unwrap();
    assert_eq!(q.terms.len(), 4);
    assert_eq!(
        q.terms[2].matcher,
        Matcher::Single(Value::Text("two words".into()))
    );
}

#[test]
fn parse_date_forms() {
    assert_eq!(
        parse_date("2024-03-15").unwrap(),
        DateExpr::Absolute(PartialDate {
            year: 2024,
            month: Some(3),
            day: Some(15),
            hour: None,
            min: None,
            sec: None,
            tz: None,
        })
    );
    assert_eq!(
        parse_date("-7d").unwrap(),
        DateExpr::Offset {
            sign: -1,
            n: 7,
            unit: Unit::Day
        }
    );
    assert_eq!(
        parse_date("-3mo").unwrap(),
        DateExpr::Offset {
            sign: -1,
            n: 3,
            unit: Unit::Month
        }
    );
    assert_eq!(
        parse_date("last month").unwrap(),
        DateExpr::Keyword(Keyword::Last(CalUnit::Month))
    );
    assert_eq!(parse_date("today").unwrap(), DateExpr::Keyword(Keyword::Today));
}

#[test]
fn parse_date_with_explicit_offset() {
    let d = parse_date("2024-03-15+09:00").unwrap();
    match d {
        DateExpr::Absolute(p) => {
            assert_eq!(p.day, Some(15));
            assert_eq!(p.tz, UtcOffset::east_opt(9 * 3600));
        }
        other => panic!("expected absolute, got {other:?}"),
    }
}

#[test]
fn parse_date_utc_z() {
    let d = parse_date("2024-03-15Z").unwrap();
    match d {
        DateExpr::Absolute(p) => assert_eq!(p.tz, UtcOffset::east_opt(0)),
        other => panic!("expected absolute, got {other:?}"),
    }
}

#[test]
fn an_empty_query_has_no_terms() {
    assert_eq!(parse("").unwrap().terms.len(), 0);
    assert_eq!(parse("  \t ").unwrap().terms.len(), 0);
}

#[test]
fn two_queries_side_by_side_have_the_terms_of_both() {
    let a = parse("photo -ext:jpg").unwrap();
    let b = parse("size:1k..").unwrap();
    let both = parse("photo -ext:jpg size:1k..").unwrap();
    assert_eq!(both.terms[..2], a.terms[..]);
    assert_eq!(both.terms[2..], b.terms[..]);
}

#[test]
fn a_date_can_have_a_time() {
    assert_eq!(
        parse_date("2024-03-15T10:20:30-08:30").unwrap(),
        DateExpr::Absolute(PartialDate {
            year: 2024,
            month: Some(3),
            day: Some(15),
            hour: Some(10),
            min: Some(20),
            sec: Some(30),
            tz: UtcOffset::east_opt(-(8 * 3600 + 30 * 60)),
        })
    );
}

#[test]
fn refused_texts() {
    assert_eq!(parse("name:\"open").unwrap_err(), ParseError::UnterminatedQuote);
    assert_eq!(parse("name:\"a\\").unwrap_err(), ParseError::TrailingBackslash);
    assert_eq!(parse("mtime:{today").unwrap_err(), ParseError::UnterminatedBrace);
    assert_eq!(parse("name:").unwrap_err(), ParseError::ExpectedValue);
    assert_eq!(
        parse("size:big").unwrap_err(),
        ParseError::InvalidSize("big".into())
    );
    assert_eq!(parse("mtime:{}").unwrap_err(), ParseError::EmptyDate);
    assert_eq!(
        parse_date("2024-xx").unwrap_err(),
        ParseError::InvalidPart(DatePart::Month)
    );
    assert_eq!(
        parse_date("2024-03-15T10:zz").unwrap_err(),
        ParseError::InvalidPart(DatePart::Minute)
    );
    assert_eq!(
        parse_date("2024-03-15+99:00").unwrap_err(),
        ParseError::OffsetOutOfRange
    );
    assert_eq!(parse_date("-7").unwrap_err(), ParseError::OffsetNeedsUnit);
    assert_eq!(
        parse_date("-7q").unwrap_err(),
        ParseError::UnknownUnit("q".into())
    );
    assert_eq!(
        parse_date("someday").unwrap_err(),
        ParseError::UnknownKeyword("someday".into())
    );
}

#[test]
fn sizes_count_in_powers_of_two() {
    assert_eq!(parse_size("12").unwrap(), 12);
    assert_eq!(parse_size("3k").unwrap(), 3 * 1024);
    assert_eq!(parse_size("2G").unwrap(), 2 * 1024 * 1024 * 1024);
    assert_eq!(
        parse_size("18446744073709551615k").unwrap_err(),
        ParseError::InvalidSize("18446744073709551615k".into())
    );
}

#[test]
fn field_characters() {
    assert!(is_field_char('a'));
    assert!(is_field_char('_'));
    assert!(!is_field_char(':'));
    assert!(!is_field_char(' '));
}

fn filter_of(q: &str) -> Filter {
    let q = parse(q).unwrap();
    let now = LocalTime { ns: 0, offset: 0 };
    let zone = vec![(3600, 7200); q.terms.len()];
    lower_at(&q, now, &zone).unwrap()
}

#[test]
fn lowering_goes_term_by_term() {
    let (a, b) = ("+ext:jpg -name:x", "size:10..20 mtime:{2024-01-01}");
    let mut preds = filter_of(a).preds;
    preds.extend(filter_of(b).preds);
    assert_eq!(filter_of(&format!("{a} {b}")).preds, preds);
    let Pred::Range { lo, hi, .. } = preds[3] else {
        panic!("a date is a range");
    };
    // 2024-01-01 and the day after it, each at its own offset.
    let midnight = 1_704_067_200;
    assert_eq!(lo, Some((midnight - 3600) * 1_000_000_000));
    assert_eq!(hi, Some((midnight + 86_400 - 7200) * 1_000_000_000));
}

#[test]
fn presence_is_the_sign_of_a_predicate() {
    let sign = |p: &Pred| match p {
        Pred::Text { negate, .. } => *negate,
        Pred::AnyText { negate, .. } => *negate,
        Pred::Range { negate, .. } => *negate,
        Pred::Meta { negate, .. } => *negate,
    };
    for q in ["ext:jpg", "word", "size:7", "mtime:{2024}", "Model:Canon"] {
        assert!(!sign(&filter_of(q).preds[0]), "{q}");
        assert!(sign(&filter_of(&format!("-{q}")).preds[0]), "{q}");
    }
}

#[test]
fn the_first_refusal_of_two_queries_is_that_of_the_first() {
    let now = LocalTime { ns: 0, offset: 0 };
    let refused = |q: &str| {
        let q = parse(q).unwrap();
        lower(&q, now).unwrap_err()
    };
    assert_eq!(refused("mtime:word"), LowerError::ExpectedDate);
    assert_eq!(refused("ext:jpg mtime:word name:a..b"), LowerError::ExpectedDate);
    assert_eq!(
        refused("name:a..b mtime:word"),
        LowerError::RangeUnsupported(Field::Name)
    );
    // A term that stands before a date that does not exist is refused first.
    assert_eq!(
        refused("name:a..b mtime:{2023-02-30}"),
        LowerError::RangeUnsupported(Field::Name)
    );
    assert_eq!(
        refused("mtime:{2023-02-30} name:a..b"),
        LowerError::NoSuchDate
    );
    assert_eq!(
        refused("mtime:{2024}..{2023-02-30}"),
        LowerError::NoSuchDate
    );
}
