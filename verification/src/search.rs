//! The search service: from a request to what to look for, and from what was found
//! to a response.
use vstd::prelude::*;

use crate::condition::{selects, SearchRow};
use crate::index_store::{
    law_search_finds_what_it_asks_for, where_binds, where_sql, FileRow, QueryParams,
};
use crate::manifest::{ns_to_rfc3339, utc_text};
use crate::meta::opt_view;
use crate::number::{decimal, u64_text};
use crate::query::ast::{term_views, Query, TermView};
use crate::query::date::LocalTime;
use crate::query::lower::{
    are_offsets, first_refusal, is_lowered, lower, pred_views, preds_of, Filter, LowerError,
};
use crate::query::parse::{parse, terms_of, ParseError};
use crate::text::{align_left, align_right, has_part, left_aligned, lowered, right_aligned};

verus! {

/// A tag to look for; an empty value means any.
#[derive(Clone, Debug, PartialEq, Eq)]
pub struct TagFilter {
    pub key: String,
    pub value: String,
}

/// A search, as a client asks for it. An empty text or a zero leaves a condition out.
#[derive(Clone, Debug)]
pub struct QueryRequest {
    pub name: String,
    pub hash: String,
    pub min_size: u64,
    pub max_size: u64,
    /// In RFC 3339.
    pub min_date: String,
    /// In RFC 3339.
    pub max_date: String,
    pub tags: Vec<TagFilter>,
    pub limit: u32,
    pub offset: u32,
    /// In the query language; where it is not empty, it stands in place of the other
    /// conditions.
    pub query: String,
}

/// One file of a response.
#[derive(Clone, Debug, PartialEq, Eq)]
pub struct FileResult {
    pub path: String,
    pub name: String,
    pub hash: String,
    pub algo: String,
    pub size: u64,
    /// In RFC 3339.
    pub mtime: String,
    pub file_type: String,
    pub ext: String,
}

/// What a [`FileResult`] holds.
#[verifier::ext_equal]
pub struct FileResultView {
    pub path: Seq<char>,
    pub name: Seq<char>,
    pub hash: Seq<char>,
    pub algo: Seq<char>,
    pub size: u64,
    pub mtime: Seq<char>,
    pub file_type: Seq<char>,
    pub ext: Seq<char>,
}

impl View for FileResult {
    type V = FileResultView;

    open spec fn view(&self) -> FileResultView {
        FileResultView {
            path: self.path@,
            name: self.name@,
            hash: self.hash@,
            algo: self.algo@,
            size: self.size,
            mtime: self.mtime@,
            file_type: self.file_type@,
            ext: self.ext@,
        }
    }
}

/// A size that bounds a search: zero is no bound.
pub fn nonzero(v: u64) -> (r: Option<u64>)
    ensures
        r == (if v != 0 {
            Some(v)
        } else {
            None::<u64>
        }),
{
    if v != 0 {
        Some(v)
    } else {
        None
    }
}

/// The time that a text in RFC 3339 gives, in nanoseconds after the Unix epoch, as
/// `DateTime::parse_from_rfc3339` reads it; `None` where it reads none, or where the
/// time is out of the range of 64 bits.
pub uninterp spec fn rfc3339_ns(s: Seq<char>) -> Option<i64>;

/// Reads a time in RFC 3339, through `DateTime::parse_from_rfc3339` and
/// `timestamp_nanos_opt`. Both depend on the text alone; what they make of it has a
/// name and is not spelled out.
#[verifier::external_body]
fn parse_from_rfc3339(s: &str) -> (r: Option<i64>)
    ensures
        r == rfc3339_ns(s@),
{
    chrono::DateTime::parse_from_rfc3339(s).ok()?.timestamp_nanos_opt()
}

/// A time that bounds a search: what was read of the text, but not before the Unix
/// epoch. An empty text is no bound.
pub open spec fn time_bound(s: Seq<char>, read: Option<i64>) -> Option<u64> {
    match read {
        Some(ns) if s.len() > 0 => Some(
            if ns < 0 {
                0u64
            } else {
                ns as u64
            },
        ),
        _ => None,
    }
}

/// A time that bounds a search, from the text and what was read of it.
pub fn bound_from(s: &str, read: Option<i64>) -> (r: Option<u64>)
    ensures
        r == time_bound(s@, read),
{
    if s.is_empty() {
        return None;
    }
    match read {
        Some(ns) => Some(
            if ns < 0 {
                0
            } else {
                ns as u64
            },
        ),
        None => None,
    }
}

/// A time in RFC 3339 that bounds a search.
pub fn parse_rfc3339_ns(s: &str) -> (r: Option<u64>)
    ensures
        r == time_bound(s@, rfc3339_ns(s@)),
{
    bound_from(s, parse_from_rfc3339(s))
}

/// The tags to look for, the value left out where it is empty.
pub open spec fn wanted_tags(tags: Seq<TagFilter>) -> Seq<(Seq<char>, Option<Seq<char>>)> {
    tags.map_values(
        |t: TagFilter|
            (
                t.key@,
                if t.value@.len() == 0 {
                    None
                } else {
                    Some(t.value@)
                },
            ),
    )
}

pub open spec fn tag_pairs(tags: Seq<(String, Option<String>)>) -> Seq<
    (Seq<char>, Option<Seq<char>>),
> {
    tags.map_values(|t: (String, Option<String>)| (t.0@, opt_view(t.1)))
}

fn tag_list(tags: &Vec<TagFilter>) -> (r: Vec<(String, Option<String>)>)
    ensures
        tag_pairs(r@) == wanted_tags(tags@),
{
    let mut out: Vec<(String, Option<String>)> = Vec::new();
    let mut i: usize = 0;
    while i < tags.len()
        invariant
            i <= tags@.len(),
            out@.len() == i,
            forall|k: int|
                0 <= k < i ==> tag_pairs(out@)[k] == #[trigger] wanted_tags(tags@)[k],
        decreases tags@.len() - i,
    {
        let t: &TagFilter = &tags[i];
        let value: Option<String> = if t.value.as_str().is_empty() {
            None
        } else {
            Some(t.value.clone())
        };
        let ghost before = out@;
        out.push((t.key.clone(), value));
        proof {
            assert forall|k: int| 0 <= k < i + 1 implies tag_pairs(out@)[k]
                == #[trigger] wanted_tags(tags@)[k] by {
                if k < i {
                    assert(tag_pairs(before)[k] == wanted_tags(tags@)[k]);
                    assert(out@[k] == before[k]);
                }
            }
        }
        i += 1;
    }
    assert(tag_pairs(out@) =~= wanted_tags(tags@));
    out
}

/// What a request looks for, apart from the times that bound it.
pub open spec fn looks_for(p: QueryParams, r: &QueryRequest) -> bool {
    &&& p.name@ == r.name@
    &&& p.hash@ == r.hash@
    &&& p.min_size == (if r.min_size != 0 {
        Some(r.min_size)
    } else {
        None::<u64>
    })
    &&& p.max_size == (if r.max_size != 0 {
        Some(r.max_size)
    } else {
        None::<u64>
    })
    &&& tag_pairs(p.tags@) == wanted_tags(r.tags@)
    &&& p.limit == r.limit
    &&& p.offset == r.offset
}

/// What a request looks for, with what was read of its two times.
pub fn params_with(r: &QueryRequest, min_read: Option<i64>, max_read: Option<i64>) -> (p:
    QueryParams)
    ensures
        looks_for(p, r),
        p.min_mtime_ns == time_bound(r.min_date@, min_read),
        p.max_mtime_ns == time_bound(r.max_date@, max_read),
{
    QueryParams {
        name: r.name.clone(),
        hash: r.hash.clone(),
        min_size: nonzero(r.min_size),
        max_size: nonzero(r.max_size),
        min_mtime_ns: bound_from(r.min_date.as_str(), min_read),
        max_mtime_ns: bound_from(r.max_date.as_str(), max_read),
        tags: tag_list(&r.tags),
        limit: r.limit,
        offset: r.offset,
    }
}

/// What the fields of a request look for.
pub fn field_params(r: &QueryRequest) -> (p: QueryParams)
    ensures
        looks_for(p, r),
        p.min_mtime_ns == time_bound(r.min_date@, rfc3339_ns(r.min_date@)),
        p.max_mtime_ns == time_bound(r.max_date@, rfc3339_ns(r.max_date@)),
{
    let min_read: Option<i64> = parse_from_rfc3339(r.min_date.as_str());
    let max_read: Option<i64> = parse_from_rfc3339(r.max_date.as_str());
    params_with(r, min_read, max_read)
}

/// Why a query string cannot be searched for.
#[derive(Clone, Debug, PartialEq, Eq)]
pub enum QueryError {
    /// It is not in the query language.
    Parse(ParseError),
    /// A field does not take what it is given, or a date does not exist.
    Lower(LowerError),
}

/// What a query string looks for, with the zone's offsets at the two sides of each of
/// its terms.
pub open spec fn is_found(
    r: Result<Filter, QueryError>,
    terms: Seq<TermView>,
    now: LocalTime,
    zone: Seq<(i32, i32)>,
    limit: u32,
    offset: u32,
) -> bool {
    match first_refusal(terms, now, zone) {
        Some(e) => r matches Err(QueryError::Lower(x)) && x@ == e,
        None => r matches Ok(f) && f.limit == limit && f.offset == offset && pred_views(f.preds@)
            == preds_of(terms, now, zone),
    }
}

/// What a query string looks for.
pub fn run_query(query: &str, now: LocalTime, limit: u32, offset: u32) -> (r: Result<
    Filter,
    QueryError,
>)
    ensures
        match terms_of(query@) {
            Err(e) => r matches Err(QueryError::Parse(x)) && x@ == e,
            Ok(terms) => exists|zone: Seq<(i32, i32)>|
                zone.len() == terms.len() && are_offsets(zone) && #[trigger] is_found(
                    r,
                    terms,
                    now,
                    zone,
                    limit,
                    offset,
                ),
        },
{
    let q: Query = match parse(query) {
        Ok(q) => q,
        Err(e) => return Err(QueryError::Parse(e)),
    };
    let ghost terms = term_views(q.terms@);
    let lowered: Result<Filter, LowerError> = lower(&q, now);
    let ghost zone = choose|zone: Seq<(i32, i32)>|
        zone.len() == q.terms@.len() && are_offsets(zone) && #[trigger] is_lowered(
            lowered,
            terms,
            now,
            zone,
            q.limit,
            q.offset,
        );
    let r: Result<Filter, QueryError> = match lowered {
        Ok(f) => Ok(Filter { preds: f.preds, limit, offset }),
        Err(e) => Err(QueryError::Lower(e)),
    };
    assert(terms.len() == q.terms@.len());
    assert(is_found(r, terms, now, zone, limit, offset));
    r
}

/// What a request looks for.
#[derive(Clone, Debug)]
pub enum Lookup {
    Fields(QueryParams),
    Language(Filter),
}

/// What a request looks for in the query language, with the zone's offsets at the two
/// sides of each of its terms.
pub open spec fn is_looked_up(
    p: Result<Lookup, QueryError>,
    terms: Seq<TermView>,
    now: LocalTime,
    zone: Seq<(i32, i32)>,
    limit: u32,
    offset: u32,
) -> bool {
    match p {
        Ok(Lookup::Language(f)) => is_found(Ok(f), terms, now, zone, limit, offset),
        Ok(Lookup::Fields(_)) => false,
        Err(e) => is_found(Err(e), terms, now, zone, limit, offset),
    }
}

/// What a request looks for: its query string, where it has one, else its fields.
pub fn query(r: &QueryRequest, now: LocalTime) -> (p: Result<Lookup, QueryError>)
    ensures
        if r.query@.len() == 0 {
            p matches Ok(Lookup::Fields(f)) && looks_for(f, r) && f.min_mtime_ns == time_bound(
                r.min_date@,
                rfc3339_ns(r.min_date@),
            ) && f.max_mtime_ns == time_bound(r.max_date@, rfc3339_ns(r.max_date@))
        } else {
            match terms_of(r.query@) {
                Err(e) => p matches Err(QueryError::Parse(x)) && x@ == e,
                Ok(terms) => exists|zone: Seq<(i32, i32)>|
                    zone.len() == terms.len() && are_offsets(zone) && #[trigger] is_looked_up(
                        p,
                        terms,
                        now,
                        zone,
                        r.limit,
                        r.offset,
                    ),
            }
        },
{
    if r.query.as_str().is_empty() {
        return Ok(Lookup::Fields(field_params(r)));
    }
    let found: Result<Filter, QueryError> = run_query(r.query.as_str(), now, r.limit, r.offset);
    let ghost before = found;
    let p: Result<Lookup, QueryError> = match found {
        Ok(f) => Ok(Lookup::Language(f)),
        Err(e) => Err(e),
    };
    proof {
        if let Ok(terms) = terms_of(r.query@) {
            let zone = choose|zone: Seq<(i32, i32)>|
                zone.len() == terms.len() && are_offsets(zone) && #[trigger] is_found(
                    before,
                    terms,
                    now,
                    zone,
                    r.limit,
                    r.offset,
                );
            assert(is_looked_up(p, terms, now, zone, r.limit, r.offset));
        }
    }
    p
}

/// A text, empty where there is none.
pub open spec fn text_or_empty(s: Option<String>) -> Seq<char> {
    match s {
        Some(t) => t@,
        None => Seq::empty(),
    }
}

/// A text, empty where there is none.
pub fn or_empty(s: &Option<String>) -> (r: String)
    ensures
        r@ == text_or_empty(*s),
{
    match s {
        Some(t) => t.clone(),
        None => {
            let none: String = String::new();
            assert(none@ =~= Seq::<char>::empty());
            none
        },
    }
}

/// A found file as the response has it.
pub open spec fn result_of(f: FileRow) -> FileResultView {
    FileResultView {
        path: f.path@,
        name: f.name@,
        hash: f.hash@,
        algo: f.algo@,
        size: f.size,
        mtime: utc_text(f.mtime_ns as int),
        file_type: text_or_empty(f.file_type),
        ext: text_or_empty(f.ext),
    }
}

/// The files of a response.
pub fn query_response(rows: &Vec<FileRow>) -> (r: Vec<FileResult>)
    ensures
        r@.map_values(|f: FileResult| f@) == rows@.map_values(|f: FileRow| result_of(f)),
{
    let mut out: Vec<FileResult> = Vec::new();
    let mut i: usize = 0;
    while i < rows.len()
        invariant
            i <= rows@.len(),
            out@.len() == i,
            forall|k: int| 0 <= k < i ==> (#[trigger] out@[k])@ == result_of(rows@[k]),
        decreases rows@.len() - i,
    {
        let f: &FileRow = &rows[i];
        out.push(
            FileResult {
                path: f.path.clone(),
                name: f.name.clone(),
                hash: f.hash.clone(),
                algo: f.algo.clone(),
                size: f.size,
                mtime: ns_to_rfc3339(f.mtime_ns),
                file_type: or_empty(&f.file_type),
                ext: or_empty(&f.ext),
            },
        );
        i += 1;
    }
    assert(out@.map_values(|f: FileResult| f@) =~= rows@.map_values(|f: FileRow| result_of(f)));
    out
}

/// The kind of a found file, `-` where it is not known.
pub open spec fn kind_text(f: FileRow) -> Seq<char> {
    match f.file_type {
        Some(t) => t@,
        None => "-"@,
    }
}

/// The line that a search prints for a file: only its path, or its time, size and
/// kind in columns before it.
pub fn row_line(f: &FileRow, paths_only: bool) -> (r: String)
    ensures
        r@ == (if paths_only {
            f.path@
        } else {
            utc_text(f.mtime_ns as int) + "  "@ + right_aligned(decimal(f.size as nat), 12) + "  "@
                + left_aligned(kind_text(*f), 7) + "  "@ + f.path@
        }),
{
    if paths_only {
        return f.path.clone();
    }
    let kind: String = match &f.file_type {
        Some(t) => t.clone(),
        None => "-".to_owned(),
    };
    let mut out: String = ns_to_rfc3339(f.mtime_ns);
    out.append("  ");
    out.append(align_right(u64_text(f.size).as_str(), 12).as_str());
    out.append("  ");
    out.append(align_left(kind.as_str(), 7).as_str());
    out.append("  ");
    out.append(f.path.as_str());
    out
}

/// The line that a search ends with.
pub fn found_line(total: u64, shown: u64) -> (r: String)
    ensures
        r@ == decimal(total as nat) + " match(es); showing "@ + decimal(shown as nat),
{
    let mut out: String = u64_text(total);
    out.append(" match(es); showing ");
    out.append(u64_text(shown).as_str());
    out
}

/// A zero or an empty text in a request leaves its condition out; anything else is the
/// condition. A date before the epoch is the epoch.
pub proof fn law_empty_fields_ask_for_nothing(
    r: &QueryRequest,
    min_read: Option<i64>,
    max_read: Option<i64>,
    p: QueryParams,
)
    requires
        call_ensures(params_with, (r, min_read, max_read), p),
    ensures
        p.name@ == r.name@,
        p.hash@ == r.hash@,
        r.min_size == 0 ==> p.min_size is None,
        r.min_size > 0 ==> p.min_size == Some(r.min_size),
        r.max_size == 0 ==> p.max_size is None,
        r.max_size > 0 ==> p.max_size == Some(r.max_size),
        r.min_date@.len() == 0 || min_read is None ==> p.min_mtime_ns is None,
        r.max_date@.len() == 0 || max_read is None ==> p.max_mtime_ns is None,
        r.min_date@.len() > 0 && min_read is Some && min_read->0 >= 0 ==> p.min_mtime_ns == Some(
            min_read->0 as u64,
        ),
        r.max_date@.len() > 0 && max_read is Some && max_read->0 >= 0 ==> p.max_mtime_ns == Some(
            max_read->0 as u64,
        ),
        r.min_date@.len() > 0 && min_read is Some && min_read->0 < 0 ==> p.min_mtime_ns == Some(
            0u64,
        ),
        p.limit == r.limit,
        p.offset == r.offset,
        p.tags@.len() == r.tags@.len(),
        forall|i: int|
            #![trigger p.tags@[i]]
            0 <= i < r.tags@.len() ==> {
                &&& p.tags@[i].0@ == r.tags@[i].key@
                &&& p.tags@[i].1 is None <==> r.tags@[i].value@.len() == 0
                &&& r.tags@[i].value@.len() > 0 ==> p.tags@[i].1->0@ == r.tags@[i].value@
            },
{
    let (a, b) = (tag_pairs(p.tags@), wanted_tags(r.tags@));
    assert(a.len() == b.len());
    assert forall|i: int|
        #![trigger p.tags@[i]]
        0 <= i < r.tags@.len() implies {
        &&& p.tags@[i].0@ == r.tags@[i].key@
        &&& p.tags@[i].1 is None <==> r.tags@[i].value@.len() == 0
        &&& r.tags@[i].value@.len() > 0 ==> p.tags@[i].1->0@ == r.tags@[i].value@
    } by {
        assert(a[i] == b[i]);
    }
}

/// What a request finds has a size between those that are not zero, both among them, and
/// a name that has the part that is asked for.
pub proof fn law_request_finds_between_its_bounds(
    r: &QueryRequest,
    min_read: Option<i64>,
    max_read: Option<i64>,
    p: QueryParams,
    row: SearchRow,
)
    requires
        call_ensures(params_with, (r, min_read, max_read), p),
        r.min_size <= i64::MAX,
        r.max_size <= i64::MAX,
        selects(where_sql(&p), where_binds(&p), row),
    ensures
        r.min_size > 0 ==> r.min_size <= row.size,
        r.max_size > 0 ==> row.size <= r.max_size,
        r.name@.len() > 0 ==> has_part(lowered(row.name), lowered(r.name@)),
{
    law_search_finds_what_it_asks_for(&p, row);
}

/// A request with a text in the query language is looked up by it, one without by its
/// fields; a text that cannot be read is refused.
pub proof fn law_query_text_comes_first(
    r: &QueryRequest,
    now: LocalTime,
    p: Result<Lookup, QueryError>,
)
    requires
        call_ensures(query, (r, now), p),
    ensures
        r.query@.len() == 0 ==> p is Ok && p->Ok_0 is Fields,
        r.query@.len() > 0 && p is Ok ==> p->Ok_0 is Language && p->Ok_0->Language_0.limit
            == r.limit && p->Ok_0->Language_0.offset == r.offset,
        r.query@.len() > 0 && terms_of(r.query@) is Err ==> p is Err,
{
}

/// A found file is shown with its row: its time in UTC, and nothing for what is not
/// known.
pub proof fn law_results_show_their_rows(rows: &Vec<FileRow>, r: Vec<FileResult>, i: int)
    requires
        call_ensures(query_response, (rows,), r),
        0 <= i < rows@.len(),
    ensures
        r@.len() == rows@.len(),
        r@[i].path@ == rows@[i].path@,
        r@[i].name@ == rows@[i].name@,
        r@[i].hash@ == rows@[i].hash@,
        r@[i].algo@ == rows@[i].algo@,
        r@[i].size == rows@[i].size,
        r@[i].mtime@ == utc_text(rows@[i].mtime_ns as int),
        rows@[i].file_type is None ==> r@[i].file_type@.len() == 0,
        rows@[i].file_type is Some ==> r@[i].file_type@ == rows@[i].file_type->0@,
        rows@[i].ext is None ==> r@[i].ext@.len() == 0,
        rows@[i].ext is Some ==> r@[i].ext@ == rows@[i].ext->0@,
{
    let (a, b) = (
        r@.map_values(|f: FileResult| f@),
        rows@.map_values(|f: FileRow| result_of(f)),
    );
    assert(a.len() == r@.len() && b.len() == rows@.len());
    assert(a[i] == b[i]);
}

/// Each time of a request bounds the search from its side as its text says: a time
/// before the epoch as the epoch, and a text that is no time not at all.
pub proof fn law_times_of_a_request_bound_it(r: &QueryRequest, p: QueryParams)
    requires
        call_ensures(field_params, (r,), p),
    ensures
        r.min_date@.len() == 0 || rfc3339_ns(r.min_date@) is None <==> p.min_mtime_ns is None,
        r.max_date@.len() == 0 || rfc3339_ns(r.max_date@) is None <==> p.max_mtime_ns is None,
        p.min_mtime_ns matches Some(t) ==> t >= rfc3339_ns(r.min_date@)->0 && (t == 0 || t
            == rfc3339_ns(r.min_date@)->0),
        p.max_mtime_ns matches Some(t) ==> t >= rfc3339_ns(r.max_date@)->0 && (t == 0 || t
            == rfc3339_ns(r.max_date@)->0),
        p.name@ == r.name@,
        p.hash@ == r.hash@,
        p.limit == r.limit,
        p.offset == r.offset,
        r.min_size == 0 <==> p.min_size is None,
        r.max_size == 0 <==> p.max_size is None,
        p.min_size matches Some(n) ==> n == r.min_size,
        p.max_size matches Some(n) ==> n == r.max_size,
{
}

} // verus!
