//! The searchable index: what its statements are and what its rows hold.
use vstd::prelude::*;

use crate::condition::{
    after, all_of, any_of, comparison, comparisons, exists_word, factor, holds_of, is_column,
    lemma_after, lemma_bound_operand, lemma_column_filled, lemma_column_lowered,
    lemma_hash_condition, lemma_key_condition, lemma_name_condition, lemma_not_after,
    lemma_number_comparison, lemma_number_condition, lemma_starts, lemma_step,
    lemma_value_condition, like, meets, present, selects, term, SearchRow,
};
use crate::manifest::{EntryView, FileEntry};
use crate::meta::{opt_view, MetaFile, META_SUFFIX};
use crate::paths::{
    are_names, is_abs, join, joined_path, law_parent_of_joined_name, parent, parent_of, trim_tail,
};
use crate::query::ast::{value_text, FieldView, MatcherView, Op, Presence, TermView};
use crate::query::date::LocalTime;
use crate::query::lower::{
    date_range, negated, pred_of, pred_views, refusal_of, text_mode, Filter, NumCol, Pred, PredView,
    TextCol, TextMode,
};
use crate::sql::{bind_views, signed, to_signed, unsigned, BindView, Statement};
use crate::text::{
    chars_of, concat2, ends_with, has_part, has_prefix, has_suffix, lowered, text_between, text_lt,
    views,
};
use crate::textmap::TextMap;
use crate::walk::{
    all_entries, for_each_entry_filtered, walk_entry, walk_views, Found, WalkEntry, WalkView,
};

verus! {

/// What to search for.
#[derive(Clone, Debug)]
pub struct QueryParams {
    pub name: String,
    pub hash: String,
    pub min_size: Option<u64>,
    pub max_size: Option<u64>,
    pub min_mtime_ns: Option<u64>,
    pub max_mtime_ns: Option<u64>,
    /// A key, and the value that it must have, if any.
    pub tags: Vec<(String, Option<String>)>,
    pub limit: u32,
    pub offset: u32,
}

/// One file that matches.
#[derive(Clone, Debug, PartialEq, Eq)]
pub struct FileRow {
    pub path: String,
    pub name: String,
    pub hash: String,
    pub algo: String,
    pub size: u64,
    pub mtime_ns: u64,
    pub file_type: Option<String>,
    pub ext: Option<String>,
}

impl Default for QueryParams {
    fn default() -> (r: Self)
        ensures
            r.name@ == Seq::<char>::empty(),
            r.hash@ == Seq::<char>::empty(),
            r.min_size is None,
            r.max_size is None,
            r.min_mtime_ns is None,
            r.max_mtime_ns is None,
            r.tags@.len() == 0,
            r.limit == 0,
            r.offset == 0,
    {
        QueryParams {
            name: String::new(),
            hash: String::new(),
            min_size: None,
            max_size: None,
            min_mtime_ns: None,
            max_mtime_ns: None,
            tags: Vec::new(),
            limit: 0,
            offset: 0,
        }
    }
}

/// A condition on one value, where there is one.
pub open spec fn bound_sql(v: Option<u64>, cond: Seq<char>) -> Seq<char> {
    if v is Some {
        cond
    } else {
        Seq::empty()
    }
}

/// The value of a condition, where there is one.
pub open spec fn bound_binds(v: Option<u64>) -> Seq<BindView> {
    match v {
        Some(n) => seq![BindView::Int(signed(n) as i64)],
        None => Seq::empty(),
    }
}

/// The condition on a tag.
pub open spec fn tag_sql(valued: bool) -> Seq<char> {
    if valued {
        " AND EXISTS (SELECT 1 FROM meta_kv m WHERE m.algo=f.algo AND m.hash=f.hash AND m.key=? AND m.value=?)"@
    } else {
        " AND EXISTS (SELECT 1 FROM meta_kv m WHERE m.algo=f.algo AND m.hash=f.hash AND m.key=?)"@
    }
}

/// The conditions on some tags.
pub open spec fn tags_sql(tags: Seq<(String, Option<String>)>) -> Seq<char>
    decreases tags.len(),
{
    if tags.len() == 0 {
        Seq::empty()
    } else {
        tags_sql(tags.drop_last()) + tag_sql(tags.last().1 is Some)
    }
}

/// The values of the conditions on some tags.
pub open spec fn tags_binds(tags: Seq<(String, Option<String>)>) -> Seq<BindView>
    decreases tags.len(),
{
    if tags.len() == 0 {
        Seq::empty()
    } else {
        let before = tags_binds(tags.drop_last()).push(BindView::Text(tags.last().0@));
        match tags.last().1 {
            Some(v) => before.push(BindView::Text(v@)),
            None => before,
        }
    }
}

/// The conditions of a search.
pub open spec fn where_sql(p: &QueryParams) -> Seq<char> {
    " WHERE 1=1"@ + (if p.name@.len() > 0 {
        " AND instr(lower(f.name), lower(?))>0"@
    } else {
        Seq::empty()
    }) + (if p.hash@.len() > 0 {
        " AND f.hash LIKE ? || '%'"@
    } else {
        Seq::empty()
    }) + bound_sql(p.min_size, " AND f.size >= ?"@) + bound_sql(p.max_size, " AND f.size <= ?"@)
        + bound_sql(p.min_mtime_ns, " AND f.mtime_ns >= ?"@) + bound_sql(
        p.max_mtime_ns,
        " AND f.mtime_ns <= ?"@,
    ) + tags_sql(p.tags@)
}

/// A text, where it is not empty.
pub open spec fn text_bind(s: Seq<char>) -> Seq<BindView> {
    if s.len() > 0 {
        seq![BindView::Text(s)]
    } else {
        Seq::empty()
    }
}

/// The values of the conditions of a search.
pub open spec fn where_binds(p: &QueryParams) -> Seq<BindView> {
    text_bind(p.name@) + text_bind(p.hash@) + bound_binds(p.min_size) + bound_binds(p.max_size)
        + bound_binds(p.min_mtime_ns) + bound_binds(p.max_mtime_ns) + tags_binds(p.tags@)
}

/// The rows to return: 100 where no limit is given.
pub open spec fn limit_or_default(limit: u32) -> int {
    if limit == 0 {
        100
    } else {
        limit as int
    }
}

/// What the rows of a search are read from.
pub open spec fn rows_from() -> Seq<char> {
    "SELECT f.path, f.name, f.hash, f.algo, f.size, f.mtime_ns, c.file_type, c.ext FROM files f LEFT JOIN content c ON c.algo=f.algo AND c.hash=f.hash"@
}

/// The order and the page of a search.
pub open spec fn page_sql() -> Seq<char> {
    " ORDER BY f.path LIMIT ? OFFSET ?"@
}

/// The two statements of a search: how many rows match, and the rows of a page.
#[derive(Clone, Debug)]
pub struct Search {
    pub count: Statement,
    pub rows: Statement,
}

fn add_bound(s: &mut Statement, v: Option<u64>, cond: &str)
    ensures
        final(s).sql@ == old(s).sql@ + bound_sql(v, cond@),
        bind_views(final(s).binds@) == bind_views(old(s).binds@) + bound_binds(v),
{
    match v {
        Some(n) => {
            s.add_sql(cond);
            s.bind_int(to_signed(n));
            assert(bind_views(s.binds@) =~= bind_views(old(s).binds@) + bound_binds(v));
        },
        None => {
            assert(s.sql@ + Seq::<char>::empty() =~= s.sql@);
            assert(bind_views(s.binds@) + Seq::<BindView>::empty() =~= bind_views(s.binds@));
        },
    }
}

fn add_text(s: &mut Statement, v: &str, cond: &str)
    ensures
        final(s).sql@ == old(s).sql@ + (if v@.len() > 0 {
            cond@
        } else {
            Seq::empty()
        }),
        bind_views(final(s).binds@) == bind_views(old(s).binds@) + text_bind(v@),
{
    if !v.is_empty() {
        s.add_sql(cond);
        s.bind_text(v);
        assert(bind_views(s.binds@) =~= bind_views(old(s).binds@) + text_bind(v@));
    } else {
        assert(s.sql@ + Seq::<char>::empty() =~= s.sql@);
        assert(bind_views(s.binds@) + Seq::<BindView>::empty() =~= bind_views(s.binds@));
    }
}

fn conditions(p: &QueryParams) -> (r: Statement)
    ensures
        r.sql@ == where_sql(p),
        bind_views(r.binds@) == where_binds(p),
{
    let mut s: Statement = Statement::part(" WHERE 1=1");
    add_text(&mut s, p.name.as_str(), " AND instr(lower(f.name), lower(?))>0");
    assert(bind_views(s.binds@) =~= text_bind(p.name@));
    add_text(&mut s, p.hash.as_str(), " AND f.hash LIKE ? || '%'");
    add_bound(&mut s, p.min_size, " AND f.size >= ?");
    add_bound(&mut s, p.max_size, " AND f.size <= ?");
    add_bound(&mut s, p.min_mtime_ns, " AND f.mtime_ns >= ?");
    add_bound(&mut s, p.max_mtime_ns, " AND f.mtime_ns <= ?");
    let ghost sql0 = s.sql@;
    let ghost binds0 = bind_views(s.binds@);
    let mut i: usize = 0;
    proof {
        assert(p.tags@.take(0) =~= Seq::<(String, Option<String>)>::empty());
        assert(sql0 + tags_sql(p.tags@.take(0)) =~= sql0);
        assert(binds0 + tags_binds(p.tags@.take(0)) =~= binds0);
    }
    while i < p.tags.len()
        invariant
            i <= p.tags@.len(),
            s.sql@ == sql0 + tags_sql(p.tags@.take(i as int)),
            bind_views(s.binds@) == binds0 + tags_binds(p.tags@.take(i as int)),
        decreases p.tags@.len() - i,
    {
        let ghost here = p.tags@.take(i as int);
        let ghost before_sql = s.sql@;
        let ghost before_binds = bind_views(s.binds@);
        proof {
            assert(p.tags@.take(i + 1).drop_last() =~= here);
            assert(p.tags@.take(i + 1).last() == p.tags@[i as int]);
        }
        match &p.tags[i].1 {
            Some(v) => {
                s.add_sql(
                    " AND EXISTS (SELECT 1 FROM meta_kv m WHERE m.algo=f.algo AND m.hash=f.hash AND m.key=? AND m.value=?)",
                );
                s.bind_text(p.tags[i].0.as_str());
                s.bind_text(v.as_str());
            },
            None => {
                s.add_sql(
                    " AND EXISTS (SELECT 1 FROM meta_kv m WHERE m.algo=f.algo AND m.hash=f.hash AND m.key=?)",
                );
                s.bind_text(p.tags[i].0.as_str());
            },
        }
        proof {
            assert(s.sql@ =~= sql0 + tags_sql(p.tags@.take(i + 1)));
            assert(bind_views(s.binds@) =~= binds0 + tags_binds(p.tags@.take(i + 1)));
        }
        i += 1;
    }
    assert(p.tags@.take(i as int) =~= p.tags@);
    s
}

/// Adds the order and the page to a statement.
fn add_page(s: &mut Statement, limit: u32, offset: u32)
    ensures
        final(s).sql@ == old(s).sql@ + page_sql(),
        bind_views(final(s).binds@) == bind_views(old(s).binds@) + seq![
            BindView::Int(limit_or_default(limit) as i64),
            BindView::Int(offset as i64),
        ],
{
    s.add_sql(" ORDER BY f.path LIMIT ? OFFSET ?");
    let n: i64 = if limit == 0 {
        100
    } else {
        limit as i64
    };
    s.bind_int(n);
    s.bind_int(offset as i64);
    assert(bind_views(s.binds@) =~= bind_views(old(s).binds@) + seq![
        BindView::Int(limit_or_default(limit) as i64),
        BindView::Int(offset as i64),
    ]);
}

/// The statements of a search by fields.
pub fn query(p: &QueryParams) -> (r: Search)
    ensures
        r.count.sql@ == "SELECT COUNT(*) FROM files f"@ + where_sql(p),
        bind_views(r.count.binds@) == where_binds(p),
        r.rows.sql@ == rows_from() + where_sql(p) + page_sql(),
        bind_views(r.rows.binds@) == where_binds(p) + seq![
            BindView::Int(limit_or_default(p.limit) as i64),
            BindView::Int(p.offset as i64),
        ],
{
    let mut count: Statement = Statement::part("SELECT COUNT(*) FROM files f");
    count.add(conditions(p));
    assert(bind_views(count.binds@) =~= where_binds(p));
    let mut rows: Statement = Statement::part(
        "SELECT f.path, f.name, f.hash, f.algo, f.size, f.mtime_ns, c.file_type, c.ext FROM files f LEFT JOIN content c ON c.algo=f.algo AND c.hash=f.hash",
    );
    rows.add(conditions(p));
    assert(bind_views(rows.binds@) =~= where_binds(p));
    add_page(&mut rows, p.limit, p.offset);
    Search { count, rows }
}

// ---- the query language ----------------------------------------------------

/// The column of a text field.
pub open spec fn text_column(col: TextCol) -> Seq<char> {
    match col {
        TextCol::Name => "f.name"@,
        TextCol::Path => "f.path"@,
        TextCol::Dir => "f.dir"@,
        TextCol::Hash => "f.hash"@,
        TextCol::Algo => "f.algo"@,
        TextCol::Ext => "c.ext"@,
        TextCol::FileType => "c.file_type"@,
    }
}

/// The column of an ordered field.
pub open spec fn num_column(col: NumCol) -> Seq<char> {
    match col {
        NumCol::Size => "f.size"@,
        NumCol::Mtime => "f.mtime_ns"@,
    }
}

/// A match on a column; a missing value reads as empty. Case does not count.
pub open spec fn compare_sql(column: Seq<char>, mode: TextMode) -> Seq<char> {
    match mode {
        TextMode::Substring => "instr(lower(COALESCE("@ + column + ",'')), lower(?))>0"@,
        TextMode::Prefix => "instr(lower(COALESCE("@ + column + ",'')), lower(?))=1"@,
        TextMode::Exact => "lower(COALESCE("@ + column + ",''))=lower(?)"@,
        TextMode::Like => "COALESCE("@ + column + ",'') LIKE ?"@,
    }
}

/// `lo <= column < hi`, without the open sides.
pub open spec fn range_sql(column: Seq<char>, lo: Option<i64>, hi: Option<i64>) -> Seq<char> {
    match (lo, hi) {
        (None, None) => "1=1"@,
        (Some(_), None) => column + " >= ?"@,
        (None, Some(_)) => column + " < ?"@,
        (Some(_), Some(_)) => column + " >= ?"@ + " AND "@ + column + " < ?"@,
    }
}

/// The condition of a predicate, before it is negated.
pub open spec fn bare_sql(p: PredView) -> Seq<char> {
    match p {
        PredView::Text { col, mode, .. } => compare_sql(text_column(col), mode),
        PredView::AnyText { .. } => compare_sql("f.name"@, TextMode::Substring) + " OR "@
            + compare_sql("f.path"@, TextMode::Substring) + " OR "@ + compare_sql(
            "f.hash"@,
            TextMode::Substring,
        ),
        PredView::Range { col, lo, hi, .. } => range_sql(num_column(col), lo, hi),
        PredView::Meta { value, mode, .. } =>
            "EXISTS (SELECT 1 FROM meta_kv m WHERE m.algo=f.algo AND m.hash=f.hash AND lower(m.key)=lower(?)"@
            + (if value is Some {
            " AND "@ + compare_sql("m.value"@, mode)
        } else {
            Seq::empty()
        }) + ")"@,
    }
}

/// The condition of a predicate.
pub open spec fn pred_sql(p: PredView) -> Seq<char> {
    (if negated(p) {
        "NOT ("@
    } else {
        "("@
    }) + bare_sql(p) + ")"@
}

/// A number, where there is one.
pub open spec fn int_bind(v: Option<i64>) -> Seq<BindView> {
    match v {
        Some(n) => seq![BindView::Int(n)],
        None => Seq::empty(),
    }
}

/// The values of a predicate.
pub open spec fn pred_binds(p: PredView) -> Seq<BindView> {
    match p {
        PredView::Text { needle, .. } => seq![BindView::Text(needle)],
        PredView::AnyText { needle, .. } => seq![
            BindView::Text(needle),
            BindView::Text(needle),
            BindView::Text(needle),
        ],
        PredView::Range { lo, hi, .. } => int_bind(lo) + int_bind(hi),
        PredView::Meta { key, value, .. } => seq![BindView::Text(key)] + (match value {
            Some(v) => seq![BindView::Text(v)],
            None => Seq::empty(),
        }),
    }
}

/// The conditions of some predicates, all of which have to hold.
pub open spec fn preds_sql(preds: Seq<PredView>) -> Seq<char>
    decreases preds.len(),
{
    if preds.len() == 0 {
        Seq::empty()
    } else {
        preds_sql(preds.drop_last()) + " AND "@ + pred_sql(preds.last())
    }
}

/// The values of some predicates.
pub open spec fn preds_binds(preds: Seq<PredView>) -> Seq<BindView>
    decreases preds.len(),
{
    if preds.len() == 0 {
        Seq::empty()
    } else {
        preds_binds(preds.drop_last()) + pred_binds(preds.last())
    }
}

fn column_text(col: TextCol) -> (r: &'static str)
    ensures
        r@ == text_column(col),
{
    match col {
        TextCol::Name => "f.name",
        TextCol::Path => "f.path",
        TextCol::Dir => "f.dir",
        TextCol::Hash => "f.hash",
        TextCol::Algo => "f.algo",
        TextCol::Ext => "c.ext",
        TextCol::FileType => "c.file_type",
    }
}

fn column_num(col: NumCol) -> (r: &'static str)
    ensures
        r@ == num_column(col),
{
    match col {
        NumCol::Size => "f.size",
        NumCol::Mtime => "f.mtime_ns",
    }
}

fn compare_text(column: &str, mode: TextMode) -> (r: String)
    ensures
        r@ == compare_sql(column@, mode),
{
    let (before, after): (&str, &str) = match mode {
        TextMode::Substring => ("instr(lower(COALESCE(", ",'')), lower(?))>0"),
        TextMode::Prefix => ("instr(lower(COALESCE(", ",'')), lower(?))=1"),
        TextMode::Exact => ("lower(COALESCE(", ",''))=lower(?)"),
        TextMode::Like => ("COALESCE(", ",'') LIKE ?"),
    };
    let mut out: String = concat2(before, column);
    out.append(after);
    out
}

/// The condition of a predicate with its values, before it is negated.
fn bare_part(p: &Pred) -> (r: Statement)
    ensures
        r.sql@ == bare_sql(p@),
        bind_views(r.binds@) == pred_binds(p@),
{
    match p {
        Pred::Text { col, needle, mode, .. } => {
            let mut s: Statement = Statement::part(compare_text(column_text(*col), *mode).as_str());
            s.bind_text(needle.as_str());
            assert(bind_views(s.binds@) =~= pred_binds(p@));
            s
        },
        Pred::AnyText { needle, .. } => {
            let mut s: Statement = Statement::part(
                compare_text("f.name", TextMode::Substring).as_str(),
            );
            s.add_sql(" OR ");
            s.add_sql(compare_text("f.path", TextMode::Substring).as_str());
            s.add_sql(" OR ");
            s.add_sql(compare_text("f.hash", TextMode::Substring).as_str());
            s.bind_text(needle.as_str());
            s.bind_text(needle.as_str());
            s.bind_text(needle.as_str());
            assert(bind_views(s.binds@) =~= pred_binds(p@));
            s
        },
        Pred::Range { col, lo, hi, .. } => {
            let column: &str = column_num(*col);
            match (lo, hi) {
                (None, None) => {
                    let s: Statement = Statement::part("1=1");
                    assert(bind_views(s.binds@) =~= pred_binds(p@));
                    s
                },
                (Some(a), None) => {
                    let mut s: Statement = Statement::part(column);
                    s.add_sql(" >= ?");
                    s.bind_int(*a);
                    assert(bind_views(s.binds@) =~= pred_binds(p@));
                    s
                },
                (None, Some(b)) => {
                    let mut s: Statement = Statement::part(column);
                    s.add_sql(" < ?");
                    s.bind_int(*b);
                    assert(bind_views(s.binds@) =~= pred_binds(p@));
                    s
                },
                (Some(a), Some(b)) => {
                    let mut s: Statement = Statement::part(column);
                    s.add_sql(" >= ?");
                    s.add_sql(" AND ");
                    s.add_sql(column);
                    s.add_sql(" < ?");
                    s.bind_int(*a);
                    s.bind_int(*b);
                    assert(bind_views(s.binds@) =~= pred_binds(p@));
                    s
                },
            }
        },
        Pred::Meta { key, value, mode, .. } => {
            let mut s: Statement = Statement::part(
                "EXISTS (SELECT 1 FROM meta_kv m WHERE m.algo=f.algo AND m.hash=f.hash AND lower(m.key)=lower(?)",
            );
            s.bind_text(key.as_str());
            let ghost head = s.sql@;
            match value {
                Some(v) => {
                    s.add_sql(" AND ");
                    s.add_sql(compare_text("m.value", *mode).as_str());
                    s.bind_text(v.as_str());
                    assert(s.sql@ =~= head + (" AND "@ + compare_sql("m.value"@, *mode)));
                },
                None => {
                    assert(head + Seq::<char>::empty() =~= head);
                },
            }
            s.add_sql(")");
            assert(bind_views(s.binds@) =~= pred_binds(p@));
            s
        },
    }
}

/// The condition of a predicate with its values.
pub fn pred_part(p: &Pred) -> (r: Statement)
    ensures
        r.sql@ == pred_sql(p@),
        bind_views(r.binds@) == pred_binds(p@),
{
    let negate: bool = match p {
        Pred::Text { negate, .. } => *negate,
        Pred::AnyText { negate, .. } => *negate,
        Pred::Range { negate, .. } => *negate,
        Pred::Meta { negate, .. } => *negate,
    };
    let mut s: Statement = if negate {
        Statement::part("NOT (")
    } else {
        Statement::part("(")
    };
    s.add(bare_part(p));
    s.add_sql(")");
    assert(bind_views(s.binds@) =~= pred_binds(p@));
    s
}

/// The conditions of a filter with their values.
fn filter_conditions(f: &Filter) -> (r: Statement)
    ensures
        r.sql@ == " WHERE 1=1"@ + preds_sql(pred_views(f.preds@)),
        bind_views(r.binds@) == preds_binds(pred_views(f.preds@)),
{
    let ghost pv = pred_views(f.preds@);
    let mut s: Statement = Statement::part(" WHERE 1=1");
    let mut i: usize = 0;
    proof {
        assert(pv.take(0) =~= Seq::<PredView>::empty());
        assert(" WHERE 1=1"@ + preds_sql(pv.take(0)) =~= " WHERE 1=1"@);
    }
    while i < f.preds.len()
        invariant
            i <= f.preds@.len(),
            pv == pred_views(f.preds@),
            s.sql@ == " WHERE 1=1"@ + preds_sql(pv.take(i as int)),
            bind_views(s.binds@) == preds_binds(pv.take(i as int)),
        decreases f.preds@.len() - i,
    {
        proof {
            assert(pv.take(i + 1).drop_last() =~= pv.take(i as int));
            assert(pv.take(i + 1).last() == f.preds@[i as int]@);
        }
        s.add_sql(" AND ");
        s.add(pred_part(&f.preds[i]));
        assert(s.sql@ =~= " WHERE 1=1"@ + preds_sql(pv.take(i + 1)));
        i += 1;
    }
    assert(pv.take(pv.len() as int) =~= pv);
    s
}

/// The statements of a search by a filter: files without content data are in it
/// too, so that both statements see the same rows.
pub fn query_filter(f: &Filter) -> (r: Search)
    ensures
        r.count.sql@
            == "SELECT COUNT(*) FROM files f LEFT JOIN content c ON c.algo=f.algo AND c.hash=f.hash"@
            + (" WHERE 1=1"@ + preds_sql(pred_views(f.preds@))),
        bind_views(r.count.binds@) == preds_binds(pred_views(f.preds@)),
        r.rows.sql@ == rows_from() + (" WHERE 1=1"@ + preds_sql(pred_views(f.preds@))) + page_sql(),
        bind_views(r.rows.binds@) == preds_binds(pred_views(f.preds@)) + seq![
            BindView::Int(limit_or_default(f.limit) as i64),
            BindView::Int(f.offset as i64),
        ],
{
    let mut count: Statement = Statement::part(
        "SELECT COUNT(*) FROM files f LEFT JOIN content c ON c.algo=f.algo AND c.hash=f.hash",
    );
    count.add(filter_conditions(f));
    assert(bind_views(count.binds@) =~= preds_binds(pred_views(f.preds@)));
    let mut rows: Statement = Statement::part(
        "SELECT f.path, f.name, f.hash, f.algo, f.size, f.mtime_ns, c.file_type, c.ext FROM files f LEFT JOIN content c ON c.algo=f.algo AND c.hash=f.hash",
    );
    rows.add(filter_conditions(f));
    assert(bind_views(rows.binds@) =~= preds_binds(pred_views(f.preds@)));
    add_page(&mut rows, f.limit, f.offset);
    Search { count, rows }
}

// ---- rows ------------------------------------------------------------------

/// A row of the table of files.
#[derive(Clone, Debug, PartialEq, Eq)]
pub struct FileInsert {
    pub path: String,
    pub dir: String,
    pub name: String,
    pub algo: String,
    pub hash: String,
    pub size: i64,
    pub mtime_ns: i64,
}

/// What a row holds.
#[verifier::ext_equal]
pub struct FileInsertView {
    pub path: Seq<char>,
    pub dir: Seq<char>,
    pub name: Seq<char>,
    pub algo: Seq<char>,
    pub hash: Seq<char>,
    pub size: i64,
    pub mtime_ns: i64,
}

impl View for FileInsert {
    type V = FileInsertView;

    open spec fn view(&self) -> FileInsertView {
        FileInsertView {
            path: self.path@,
            dir: self.dir@,
            name: self.name@,
            algo: self.algo@,
            hash: self.hash@,
            size: self.size,
            mtime_ns: self.mtime_ns,
        }
    }
}

pub open spec fn insert_views(v: Seq<FileInsert>) -> Seq<FileInsertView> {
    v.map_values(|r: FileInsert| r@)
}

/// The row of a file in a directory.
pub open spec fn file_row_of(
    path: Seq<char>,
    dir: Seq<char>,
    name: Seq<char>,
    e: EntryView,
) -> FileInsertView {
    FileInsertView {
        path,
        dir,
        name,
        algo: e.algo,
        hash: e.hash,
        size: signed(e.size) as i64,
        mtime_ns: signed(e.mtime_ns) as i64,
    }
}

/// The directory of a path; empty where it has none.
pub open spec fn dir_text(path: Seq<char>) -> Seq<char> {
    match parent_of(path) {
        Some(d) => d,
        None => Seq::empty(),
    }
}

/// The row of a file that a walk found.
pub open spec fn walked_row(w: WalkView) -> FileInsertView {
    file_row_of(w.path, dir_text(w.path), w.name, w.entry)
}

fn make_row(path: String, dir: String, name: String, e: &FileEntry) -> (r: FileInsert)
    ensures
        r@ == file_row_of(path@, dir@, name@, e@),
{
    FileInsert {
        path,
        dir,
        name,
        algo: e.algo.clone(),
        hash: e.hash.clone(),
        size: to_signed(e.size),
        mtime_ns: to_signed(e.mtime_ns),
    }
}

/// The rows of the files of a root: those of every manifest that is not in an
/// ignored directory.
pub fn reindex_root(root: &str, ignores: &Vec<String>, found: &Vec<Found>) -> (r: Vec<FileInsert>)
    ensures
        insert_views(r@) == all_entries(root@, views(ignores@), found@).map_values(
            |w: WalkView| walked_row(w),
        ),
{
    let entries: Vec<WalkEntry> = for_each_entry_filtered(root, ignores, found);
    let mut out: Vec<FileInsert> = Vec::new();
    let mut i: usize = 0;
    while i < entries.len()
        invariant
            i <= entries@.len(),
            out@.len() == i,
            forall|k: int| 0 <= k < i ==> (#[trigger] out@[k])@ == walked_row(entries@[k]@),
        decreases entries@.len() - i,
    {
        let e: &WalkEntry = &entries[i];
        let dir: String = match parent(e.path.as_str()) {
            Some(d) => d,
            None => {
                let none: String = String::new();
                assert(none@ =~= Seq::<char>::empty());
                none
            },
        };
        out.push(make_row(e.path.clone(), dir, e.name.clone(), &e.entry));
        i += 1;
    }
    assert(insert_views(out@) =~= walk_views(entries@).map_values(|w: WalkView| walked_row(w)));
    out
}

/// What was read of a manifest.
#[derive(Debug)]
pub enum Loaded {
    /// There is none.
    Missing,
    /// It could not be read.
    Unreadable,
    Files(TextMap<FileEntry>),
}

/// The rows of a directory, in the order of the names.
pub open spec fn dir_rows(
    dir: Seq<char>,
    keys: Seq<Seq<char>>,
    files: Map<Seq<char>, EntryView>,
) -> Seq<FileInsertView> {
    keys.map_values(|k: Seq<char>| file_row_of(joined_path(dir, k), dir, k, files[k]))
}

/// The rows that replace those of a directory. A manifest that cannot be read
/// leaves the rows as they are.
pub fn sync_dir(dir: &str, manifest: &Loaded) -> (r: Option<Vec<FileInsert>>)
    ensures
        match *manifest {
            Loaded::Unreadable => r is None,
            Loaded::Missing => r matches Some(rows) && rows@.len() == 0,
            Loaded::Files(f) => r matches Some(rows) && insert_views(rows@) == dir_rows(
                dir@,
                f.keys(),
                f@,
            ),
        },
{
    let files: &TextMap<FileEntry> = match manifest {
        Loaded::Unreadable => return None,
        Loaded::Missing => return Some(Vec::new()),
        Loaded::Files(f) => f,
    };
    let n: usize = files.len();
    let ghost all = dir_rows(dir@, files.keys(), files@);
    let mut out: Vec<FileInsert> = Vec::new();
    let mut i: usize = 0;
    while i < n
        invariant
            n == files.keys().len(),
            i <= n,
            all == dir_rows(dir@, files.keys(), files@),
            out@.len() == i,
            forall|k: int| 0 <= k < i ==> (#[trigger] out@[k])@ == all[k],
        decreases n - i,
    {
        let name: &String = files.key_at(i);
        let entry: &FileEntry = files.value_at(i);
        let path: String = join(dir, name.as_str());
        let row: FileInsert = make_row(path, dir.to_owned(), name.clone(), entry);
        assert(row@ == all[i as int]);
        out.push(row);
        i += 1;
    }
    assert(insert_views(out@) =~= all);
    Some(out)
}

/// A row of the table of metadata.
#[derive(Clone, Debug, PartialEq, Eq)]
pub struct KvInsert {
    pub kind: String,
    pub key: String,
    pub value: String,
}

impl View for KvInsert {
    type V = (Seq<char>, Seq<char>, Seq<char>);

    open spec fn view(&self) -> (Seq<char>, Seq<char>, Seq<char>) {
        (self.kind@, self.key@, self.value@)
    }
}

pub open spec fn kv_views(v: Seq<KvInsert>) -> Seq<(Seq<char>, Seq<char>, Seq<char>)> {
    v.map_values(|r: KvInsert| r@)
}

/// What the index holds of one content: the rows that replace those of its hash.
#[derive(Clone, Debug)]
pub struct MetaRows {
    pub algo: String,
    pub hash: String,
    pub file_type: Option<String>,
    pub ext: Option<String>,
    /// The tags, then the properties, each by key.
    pub kv: Vec<KvInsert>,
}

/// The rows of one kind, in the order of the keys.
pub open spec fn kind_rows(
    kind: Seq<char>,
    keys: Seq<Seq<char>>,
    map: Map<Seq<char>, Seq<char>>,
) -> Seq<(Seq<char>, Seq<char>, Seq<char>)> {
    keys.map_values(|k: Seq<char>| (kind, k, map[k]))
}

fn rows_of_kind(kind: &str, map: &TextMap<String>) -> (r: Vec<KvInsert>)
    ensures
        kv_views(r@) == kind_rows(kind@, map.keys(), map@),
{
    let n: usize = map.len();
    let ghost all = kind_rows(kind@, map.keys(), map@);
    let mut out: Vec<KvInsert> = Vec::new();
    let mut i: usize = 0;
    while i < n
        invariant
            n == map.keys().len(),
            i <= n,
            all == kind_rows(kind@, map.keys(), map@),
            out@.len() == i,
            forall|k: int| 0 <= k < i ==> (#[trigger] out@[k])@ == all[k],
        decreases n - i,
    {
        let row: KvInsert = KvInsert {
            kind: kind.to_owned(),
            key: map.key_at(i).clone(),
            value: map.value_at(i).clone(),
        };
        assert(row@ == all[i as int]);
        out.push(row);
        i += 1;
    }
    assert(kv_views(out@) =~= all);
    out
}

/// A copy of an optional text.
pub fn copy_opt(s: &Option<String>) -> (r: Option<String>)
    ensures
        opt_view(r) == opt_view(*s),
{
    match s {
        Some(t) => Some(t.clone()),
        None => None,
    }
}

/// The rows that replace those of a hash; none where it has no metadata any more.
pub fn sync_meta(meta: &Option<MetaFile>) -> (r: Option<MetaRows>)
    ensures
        match *meta {
            None => r is None,
            Some(m) => {
                &&& r is Some
                &&& r->0.algo@ == m.algo@
                &&& r->0.hash@ == m.hash@
                &&& opt_view(r->0.file_type) == opt_view(m.file_type)
                &&& opt_view(r->0.ext) == opt_view(m.ext)
                &&& kv_views(r->0.kv@) == kind_rows("tag"@, m.tags.keys(), m.tags@) + kind_rows(
                    "property"@,
                    m.properties.keys(),
                    m.properties@,
                )
            },
        },
{
    match meta {
        None => None,
        Some(m) => {
            let mut kv: Vec<KvInsert> = rows_of_kind("tag", &m.tags);
            let mut more: Vec<KvInsert> = rows_of_kind("property", &m.properties);
            let ghost a = kv@;
            let ghost b = more@;
            kv.append(&mut more);
            assert(kv_views(kv@) =~= kv_views(a) + kv_views(b));
            Some(
                MetaRows {
                    algo: m.algo.clone(),
                    hash: m.hash.clone(),
                    file_type: copy_opt(&m.file_type),
                    ext: copy_opt(&m.ext),
                    kv,
                },
            )
        },
    }
}

/// The hash that the name of a metadata file starts with.
pub open spec fn hash_in_name(name: Seq<char>) -> Option<Seq<char>> {
    if has_suffix(name, ".meta.json"@) && name.len() > ".meta.json"@.len() {
        Some(name.take(name.len() - ".meta.json"@.len()))
    } else {
        None
    }
}

/// The hash that the name of a metadata file starts with, if it is one.
pub fn hash_from_meta_filename(name: &str) -> (r: Option<String>)
    ensures
        match r {
            Some(h) => hash_in_name(name@) == Some(h@),
            None => hash_in_name(name@) is None,
        },
{
    let suffix: String = concat2(".", META_SUFFIX);
    proof {
        reveal_strlit(".");
        reveal_strlit("meta.json");
        reveal_strlit(".meta.json");
        assert(suffix@ =~= ".meta.json"@);
    }
    if !ends_with(name, suffix.as_str()) {
        return None;
    }
    let c: Vec<char> = chars_of(name);
    if c.len() == 10 {
        return None;
    }
    let h: String = text_between(&c, 0, c.len() - 10);
    assert(h@ =~= name@.take(name@.len() - 10));
    Some(h)
}

// ---- laws ------------------------------------------------------------------

/// Two predicates ask the same question of different values.
pub open spec fn same_shape(a: PredView, b: PredView) -> bool {
    match (a, b) {
        (
            PredView::Text { col: c1, mode: m1, negate: n1, .. },
            PredView::Text { col: c2, mode: m2, negate: n2, .. },
        ) => c1 == c2 && m1 == m2 && n1 == n2,
        (PredView::AnyText { negate: n1, .. }, PredView::AnyText { negate: n2, .. }) => n1 == n2,
        (
            PredView::Range { col: c1, lo: l1, hi: h1, negate: n1 },
            PredView::Range { col: c2, lo: l2, hi: h2, negate: n2 },
        ) => c1 == c2 && l1 is Some == l2 is Some && h1 is Some == h2 is Some && n1 == n2,
        (
            PredView::Meta { value: v1, mode: m1, negate: n1, .. },
            PredView::Meta { value: v2, mode: m2, negate: n2, .. },
        ) => v1 is Some == v2 is Some && m1 == m2 && n1 == n2,
        _ => false,
    }
}

/// What is searched for never enters the text of a statement: filters that differ
/// in their values alone have the same text and as many bound values.
pub proof fn law_values_stay_out_of_the_statement(a: Seq<PredView>, b: Seq<PredView>)
    requires
        a.len() == b.len(),
        forall|i: int| 0 <= i < a.len() ==> same_shape(#[trigger] a[i], b[i]),
    ensures
        preds_sql(a) == preds_sql(b),
        preds_binds(a).len() == preds_binds(b).len(),
    decreases a.len(),
{
    if a.len() > 0 {
        let (x, y) = (a.drop_last(), b.drop_last());
        assert forall|i: int| 0 <= i < x.len() implies same_shape(#[trigger] x[i], y[i]) by {
            assert(same_shape(a[i], b[i]));
        }
        law_values_stay_out_of_the_statement(x, y);
        assert(same_shape(a[a.len() - 1], b[b.len() - 1]));
    }
}

/// Two searches look for the same and differ at most in the page.
pub open spec fn same_search(a: &QueryParams, b: &QueryParams) -> bool {
    &&& a.name@ == b.name@
    &&& a.hash@ == b.hash@
    &&& a.min_size == b.min_size
    &&& a.max_size == b.max_size
    &&& a.min_mtime_ns == b.min_mtime_ns
    &&& a.max_mtime_ns == b.max_mtime_ns
    &&& a.tags@ == b.tags@
}

/// The page of a search does not change what it looks for: the conditions and their
/// values are the same, so that the count is asked for in the same words, and the rows
/// in the same words but for the limit and the offset at the end.
pub proof fn law_page_does_not_change_the_search(a: &QueryParams, b: &QueryParams)
    requires
        same_search(a, b),
    ensures
        where_sql(a) == where_sql(b),
        where_binds(a) == where_binds(b),
{
}

/// The rows stand in the order of their paths, each path once.
pub open spec fn by_path(rows: Seq<FileInsertView>) -> bool {
    forall|i: int, j: int|
        0 <= i < j < rows.len() ==> text_lt((#[trigger] rows[i]).path, (#[trigger] rows[j]).path)
}

/// The rows that meet a condition, in order.
pub open spec fn rows_meeting(
    rows: Seq<FileInsertView>,
    meets: spec_fn(FileInsertView) -> bool,
) -> Seq<FileInsertView>
    decreases rows.len(),
{
    if rows.len() == 0 {
        Seq::empty()
    } else {
        let before = rows_meeting(rows.drop_last(), meets);
        if meets(rows.last()) {
            before.push(rows.last())
        } else {
            before
        }
    }
}

/// The rows of a table that a search matches, where `meets` tells which rows meet a
/// condition with its values.
pub open spec fn matching(
    rows: Seq<FileInsertView>,
    p: &QueryParams,
    meets: spec_fn(Seq<char>, Seq<BindView>, FileInsertView) -> bool,
) -> Seq<FileInsertView> {
    rows_meeting(rows, |r: FileInsertView| meets(where_sql(p), where_binds(p), r))
}

/// The part of some rows that a page shows: from the offset on, as many as the limit
/// lets through.
pub open spec fn page_of<T>(rows: Seq<T>, limit: u32, offset: u32) -> Seq<T> {
    let from = if offset <= rows.len() {
        offset as int
    } else {
        rows.len() as int
    };
    let to = if from + limit_or_default(limit) <= rows.len() {
        from + limit_or_default(limit)
    } else {
        rows.len() as int
    };
    rows.subrange(from, to)
}

proof fn lemma_rows_meeting(
    rows: Seq<FileInsertView>,
    meets: spec_fn(FileInsertView) -> bool,
)
    requires
        by_path(rows),
    ensures
        by_path(rows_meeting(rows, meets)),
        forall|r: FileInsertView| #[trigger]
            rows_meeting(rows, meets).contains(r) <==> rows.contains(r) && meets(r),
    decreases rows.len(),
{
    if rows.len() > 0 {
        let init = rows.drop_last();
        let (before, all) = (rows_meeting(init, meets), rows_meeting(rows, meets));
        assert(by_path(init)) by {
            assert forall|i: int, j: int| 0 <= i < j < init.len() implies text_lt(
                (#[trigger] init[i]).path,
                (#[trigger] init[j]).path,
            ) by {
                assert(init[i] == rows[i] && init[j] == rows[j]);
            }
        }
        lemma_rows_meeting(init, meets);
        let last = rows.last();
        assert(rows[rows.len() - 1] == last);
        assert forall|i: int, j: int| 0 <= i < j < all.len() implies text_lt(
            (#[trigger] all[i]).path,
            (#[trigger] all[j]).path,
        ) by {
            if j < before.len() {
                assert(before[i] == all[i] && before[j] == all[j]);
            } else {
                assert(before.contains(before[i]));
                assert(init.contains(before[i]));
                let x = choose|x: int| 0 <= x < init.len() && init[x] == before[i];
                assert(rows[x] == before[i]);
            }
        }
        assert forall|r: FileInsertView| #[trigger] all.contains(r) <==> rows.contains(r) && meets(
            r,
        ) by {
            assert(before.contains(r) <==> init.contains(r) && meets(r));
            if all.contains(r) {
                let i = choose|i: int| 0 <= i < all.len() && all[i] == r;
                if i < before.len() {
                    assert(before[i] == r);
                    let x = choose|x: int| 0 <= x < init.len() && init[x] == r;
                    assert(rows[x] == r);
                }
            }
            if rows.contains(r) && meets(r) {
                let x = choose|x: int| 0 <= x < rows.len() && rows[x] == r;
                if x < init.len() {
                    assert(init[x] == r);
                    let i = choose|i: int| 0 <= i < before.len() && before[i] == r;
                    assert(all[i] == r);
                } else {
                    assert(all[all.len() - 1] == r);
                }
            }
        }
    }
}

/// Two searches that differ at most in the page match the same rows, in the order of
/// their paths: exactly those that meet the conditions. So their counts are the same,
/// and each page is a part of that one list, from its offset on and as long as its limit
/// (100 where none is given), or up to the end.
pub proof fn law_pages_are_parts_of_one_list(
    a: &QueryParams,
    b: &QueryParams,
    rows: Seq<FileInsertView>,
    meets: spec_fn(Seq<char>, Seq<BindView>, FileInsertView) -> bool,
)
    requires
        same_search(a, b),
        by_path(rows),
    ensures
        matching(rows, a, meets) == matching(rows, b, meets),
        by_path(matching(rows, a, meets)),
        forall|r: FileInsertView| #[trigger]
            matching(rows, a, meets).contains(r) <==> rows.contains(r) && meets(
                where_sql(a),
                where_binds(a),
                r,
            ),
        by_path(page_of(matching(rows, a, meets), a.limit, a.offset)),
        forall|i: int|
            0 <= i < page_of(matching(rows, a, meets), a.limit, a.offset).len() ==> a.offset + i
                < matching(rows, a, meets).len() && #[trigger] page_of(
                matching(rows, a, meets),
                a.limit,
                a.offset,
            )[i] == matching(rows, a, meets)[a.offset + i],
        page_of(matching(rows, a, meets), a.limit, a.offset).len() == (if a.offset >= matching(
            rows,
            a,
            meets,
        ).len() {
            0
        } else if a.offset + limit_or_default(a.limit) <= matching(rows, a, meets).len() {
            limit_or_default(a.limit)
        } else {
            matching(rows, a, meets).len() - a.offset
        }),
{
    law_page_does_not_change_the_search(a, b);
    let meets_a = |r: FileInsertView| meets(where_sql(a), where_binds(a), r);
    let meets_b = |r: FileInsertView| meets(where_sql(b), where_binds(b), r);
    lemma_rows_meeting(rows, meets_a);
    assert(meets_a =~= meets_b);
    let all = matching(rows, a, meets);
    let page = page_of(all, a.limit, a.offset);
    assert forall|i: int, j: int| 0 <= i < j < page.len() implies text_lt(
        (#[trigger] page[i]).path,
        (#[trigger] page[j]).path,
    ) by {
        assert(page[i] == all[a.offset + i] && page[j] == all[a.offset + j]);
    }
}

/// The table of files, by path.
pub open spec fn filed(table: Map<Seq<char>, FileInsertView>) -> bool {
    forall|p: Seq<char>| #[trigger]
        table.dom().contains(p) ==> table[p].path == p && table[p].dir == dir_text(p)
}

/// The table without the rows of a directory.
pub open spec fn without_dir(table: Map<Seq<char>, FileInsertView>, dir: Seq<char>) -> Map<
    Seq<char>,
    FileInsertView,
> {
    Map::new(
        |p: Seq<char>| table.dom().contains(p) && table[p].dir != dir,
        |p: Seq<char>| table[p],
    )
}

/// The table with some rows put in, each in place of one with its path.
pub open spec fn with_rows(
    table: Map<Seq<char>, FileInsertView>,
    rows: Seq<FileInsertView>,
) -> Map<Seq<char>, FileInsertView>
    decreases rows.len(),
{
    if rows.len() == 0 {
        table
    } else {
        with_rows(table, rows.drop_last()).insert(rows.last().path, rows.last())
    }
}

/// The table once the rows of a directory are replaced.
pub open spec fn synced(
    table: Map<Seq<char>, FileInsertView>,
    dir: Seq<char>,
    rows: Seq<FileInsertView>,
) -> Map<Seq<char>, FileInsertView> {
    with_rows(without_dir(table, dir), rows)
}

proof fn lemma_with_rows(
    table: Map<Seq<char>, FileInsertView>,
    rows: Seq<FileInsertView>,
    p: Seq<char>,
)
    requires
        forall|i: int, j: int|
            0 <= i < j < rows.len() ==> (#[trigger] rows[i]).path != (#[trigger] rows[j]).path,
    ensures
        with_rows(table, rows).dom().contains(p) <==> table.dom().contains(p) || exists|i: int|
            0 <= i < rows.len() && (#[trigger] rows[i]).path == p,
        forall|i: int|
            0 <= i < rows.len() && (#[trigger] rows[i]).path == p ==> with_rows(table, rows)[p]
                == rows[i],
        (forall|i: int| 0 <= i < rows.len() ==> (#[trigger] rows[i]).path != p)
            && table.dom().contains(p) ==> with_rows(table, rows)[p] == table[p],
    decreases rows.len(),
{
    if rows.len() > 0 {
        let init = rows.drop_last();
        assert forall|i: int, j: int| 0 <= i < j < init.len() implies (#[trigger] init[i]).path != (
        #[trigger] init[j]).path by {
            assert(init[i] == rows[i] && init[j] == rows[j]);
        }
        lemma_with_rows(table, init, p);
        let last = rows.len() - 1;
        assert(rows[last] == rows.last());
        if exists|i: int| 0 <= i < init.len() && (#[trigger] init[i]).path == p {
            let i = choose|i: int| 0 <= i < init.len() && (#[trigger] init[i]).path == p;
            assert(rows[i].path == p);
        }
        if exists|i: int| 0 <= i < rows.len() && (#[trigger] rows[i]).path == p {
            let i = choose|i: int| 0 <= i < rows.len() && (#[trigger] rows[i]).path == p;
            if i < init.len() {
                assert(init[i].path == p);
                assert(rows[i].path != rows[last].path);
            }
        }
        assert forall|i: int| 0 <= i < rows.len() && (#[trigger] rows[i]).path == p implies
            with_rows(table, rows)[p] == rows[i] by {
            if i < init.len() {
                assert(init[i].path == p);
                assert(rows[i].path != rows[last].path);
            }
        }
        if forall|i: int| 0 <= i < rows.len() ==> (#[trigger] rows[i]).path != p {
            assert forall|i: int| 0 <= i < init.len() implies (#[trigger] init[i]).path != p by {
                assert(init[i] == rows[i]);
            }
        }
    }
}

/// Replacing the rows of a directory leaves exactly the rows of its manifest for it, and
/// the rows of all other directories as they were; doing it again changes nothing. The
/// directory's path has no slash or dot component at its end.
pub proof fn law_syncing_replaces_one_directory(
    table: Map<Seq<char>, FileInsertView>,
    dir: Seq<char>,
    keys: Seq<Seq<char>>,
    files: Map<Seq<char>, EntryView>,
)
    requires
        filed(table),
        dir.len() > 0,
        trim_tail(dir) == dir,
        are_names(keys),
        forall|i: int, j: int| 0 <= i < j < keys.len() ==> keys[i] != keys[j],
    ensures
        ({
            let rows = dir_rows(dir, keys, files);
            let after = synced(table, dir, rows);
            &&& filed(after)
            &&& forall|p: Seq<char>| #[trigger]
                after.dom().contains(p) && after[p].dir == dir <==> exists|i: int|
                    0 <= i < rows.len() && (#[trigger] rows[i]).path == p && after[p] == rows[i]
            &&& forall|i: int|
                0 <= i < rows.len() ==> after.dom().contains((#[trigger] rows[i]).path)
                    && after[rows[i].path] == rows[i]
            &&& forall|p: Seq<char>| dir_text(p) != dir ==> (#[trigger] after.dom().contains(p)
                == table.dom().contains(p)) && (table.dom().contains(p) ==> after[p] == table[p])
            &&& synced(after, dir, rows) == after
        }),
{
    let rows = dir_rows(dir, keys, files);
    let rest = without_dir(table, dir);
    let after = synced(table, dir, rows);
    law_rows_of_a_directory_are_its_own(dir, keys, files);
    assert forall|i: int| 0 <= i < rows.len() implies dir_text((#[trigger] rows[i]).path) == dir
        && rows[i].dir == dir by {
        assert(seq![keys[i]] =~= seq![keys[i]]);
        assert(are_names(seq![keys[i]]));
        law_parent_of_joined_name(dir, keys[i]);
    }
    assert forall|p: Seq<char>| #[trigger] after.dom().contains(p) implies after[p].path == p
        && after[p].dir == dir_text(p) by {
        lemma_with_rows(rest, rows, p);
        if exists|i: int| 0 <= i < rows.len() && (#[trigger] rows[i]).path == p {
            let i = choose|i: int| 0 <= i < rows.len() && (#[trigger] rows[i]).path == p;
            assert(after[p] == rows[i]);
        } else {
            assert(rest.dom().contains(p));
            assert(table.dom().contains(p));
        }
    }
    assert forall|p: Seq<char>| #[trigger]
        after.dom().contains(p) && after[p].dir == dir implies exists|i: int|
        0 <= i < rows.len() && (#[trigger] rows[i]).path == p && after[p] == rows[i] by {
        lemma_with_rows(rest, rows, p);
        if !(exists|i: int| 0 <= i < rows.len() && (#[trigger] rows[i]).path == p) {
            assert(rest.dom().contains(p));
            assert(after[p] == table[p]);
        }
        let i = choose|i: int| 0 <= i < rows.len() && (#[trigger] rows[i]).path == p;
        assert(after[p] == rows[i]);
    }
    assert forall|p: Seq<char>| dir_text(p) != dir implies (#[trigger] after.dom().contains(p)
        == table.dom().contains(p)) && (table.dom().contains(p) ==> after[p] == table[p]) by {
        lemma_with_rows(rest, rows, p);
        if exists|i: int| 0 <= i < rows.len() && (#[trigger] rows[i]).path == p {
            let i = choose|i: int| 0 <= i < rows.len() && (#[trigger] rows[i]).path == p;
            assert(dir_text(rows[i].path) == dir);
        }
        if table.dom().contains(p) {
            assert(table[p].dir == dir_text(p));
            assert(rest.dom().contains(p));
        }
    }
    assert forall|i: int| 0 <= i < rows.len() implies after.dom().contains(
        (#[trigger] rows[i]).path,
    ) && after[rows[i].path] == rows[i] by {
        lemma_with_rows(rest, rows, rows[i].path);
    }
    assert(without_dir(after, dir) =~= rest) by {
        assert forall|p: Seq<char>| without_dir(after, dir).dom().contains(p)
            == rest.dom().contains(p) && (rest.dom().contains(p) ==> without_dir(after, dir)[p]
            == rest[p]) by {
            lemma_with_rows(rest, rows, p);
            if exists|i: int| 0 <= i < rows.len() && (#[trigger] rows[i]).path == p {
                let i = choose|i: int| 0 <= i < rows.len() && (#[trigger] rows[i]).path == p;
                assert(after[p] == rows[i]);
                assert(dir_text(rows[i].path) == dir);
                if rest.dom().contains(p) {
                    assert(table[p].dir == dir_text(p));
                }
            }
        }
    }
}

/// The rows of a directory are one for each name of its manifest, in order. All are of
/// that directory and no two have one path.
pub proof fn law_rows_of_a_directory_are_its_own(
    dir: Seq<char>,
    keys: Seq<Seq<char>>,
    files: Map<Seq<char>, EntryView>,
)
    requires
        are_names(keys),
        forall|i: int, j: int| 0 <= i < j < keys.len() ==> keys[i] != keys[j],
    ensures
        dir_rows(dir, keys, files).len() == keys.len(),
        forall|i: int|
            0 <= i < keys.len() ==> (#[trigger] dir_rows(dir, keys, files)[i]).dir == dir
                && dir_rows(dir, keys, files)[i].name == keys[i],
        forall|i: int, j: int|
            0 <= i < j < keys.len() ==> (#[trigger] dir_rows(dir, keys, files)[i]).path != (
            #[trigger] dir_rows(dir, keys, files)[j]).path,
{
    let rows = dir_rows(dir, keys, files);
    assert forall|i: int, j: int| 0 <= i < j < keys.len() implies (#[trigger] rows[i]).path != (
    #[trigger] rows[j]).path by {
        let (a, b) = (keys[i], keys[j]);
        assert(!is_abs(a)) by {
            if is_abs(a) {
                assert(a.contains(a[0]));
            }
        }
        assert(!is_abs(b)) by {
            if is_abs(b) {
                assert(b.contains(b[0]));
            }
        }
        let (p, q) = (joined_path(dir, a), joined_path(dir, b));
        if p == q {
            let n = p.len() - a.len();
            assert(p.skip(n) =~= a);
            assert(q.skip(n) =~= b);
        }
    }
}

/// A file has the same row whether its root is read anew or its directory alone, so
/// that what one puts in the other replaces. The directory's path has no slash or dot
/// component at its end.
pub proof fn law_rebuilt_and_synced_rows_agree(
    dir: Seq<char>,
    root: Seq<char>,
    name: Seq<char>,
    e: EntryView,
)
    requires
        dir.len() > 0,
        trim_tail(dir) == dir,
        are_names(seq![name]),
    ensures
        walked_row(walk_entry(dir, root, name, e)) == file_row_of(
            joined_path(dir, name),
            dir,
            name,
            e,
        ),
{
    assert(seq![name][0] == name);
    law_parent_of_joined_name(dir, name);
}

/// The name of the metadata file of a hash gives the hash back.
pub proof fn law_meta_filename_gives_the_hash(hash: Seq<char>)
    requires
        hash.len() > 0,
    ensures
        hash_in_name(hash + "."@ + META_SUFFIX@) == Some(hash),
{
    reveal_strlit(".");
    reveal_strlit("meta.json");
    reveal_strlit(".meta.json");
    let name = hash + "."@ + META_SUFFIX@;
    let n = hash.len() as int;
    assert("."@ + "meta.json"@ =~= ".meta.json"@);
    assert(name =~= hash + ".meta.json"@);
    assert(name.subrange(n, name.len() as int) =~= ".meta.json"@);
    assert(name.take(n) =~= hash);
}

// ---- what a search finds ---------------------------------------------------

/// The content of the row has the key of a tag, with its value where there is one.
pub open spec fn has_tag(row: SearchRow, tag: (String, Option<String>)) -> bool {
    exists|i: int|
        0 <= i < row.meta.len() && (#[trigger] row.meta[i]).0 == tag.0@ && (tag.1 matches Some(v)
            ==> row.meta[i].1 == v@)
}

/// The conditions of a search, read as text with their values, select exactly the rows
/// that the search asks for: those whose name has the part and whose hash has the
/// start that are looked for, in whatever case, whose size and time lie within the
/// bounds that are given, both ends among them, and whose content has every tag.
pub proof fn law_search_finds_what_it_asks_for(p: &QueryParams, row: SearchRow)
    ensures
        selects(where_sql(p), where_binds(p), row) <==> {
            &&& p.name@.len() > 0 ==> has_part(lowered(row.name), lowered(p.name@))
            &&& p.hash@.len() > 0 ==> like(row.hash, p.hash@.push('%'))
            &&& p.min_size matches Some(n) ==> signed(n) <= row.size
            &&& p.max_size matches Some(n) ==> row.size <= signed(n)
            &&& p.min_mtime_ns matches Some(n) ==> signed(n) <= row.mtime_ns
            &&& p.max_mtime_ns matches Some(n) ==> row.mtime_ns <= signed(n)
            &&& forall|i: int| 0 <= i < p.tags@.len() ==> has_tag(row, #[trigger] p.tags@[i])
        },
{
    let name = if p.name@.len() > 0 {
        " AND instr(lower(f.name), lower(?))>0"@
    } else {
        Seq::empty()
    };
    let hash = if p.hash@.len() > 0 {
        " AND f.hash LIKE ? || '%'"@
    } else {
        Seq::empty()
    };
    let t0 = Seq::<char>::empty();
    let b0 = Seq::<BindView>::empty();
    let (t1, b1) = (tags_sql(p.tags@) + t0, tags_binds(p.tags@) + b0);
    let (t2, b2) = (
        bound_sql(p.max_mtime_ns, " AND f.mtime_ns <= ?"@) + t1,
        bound_binds(p.max_mtime_ns) + b1,
    );
    let (t3, b3) = (
        bound_sql(p.min_mtime_ns, " AND f.mtime_ns >= ?"@) + t2,
        bound_binds(p.min_mtime_ns) + b2,
    );
    let (t4, b4) = (
        bound_sql(p.max_size, " AND f.size <= ?"@) + t3,
        bound_binds(p.max_size) + b3,
    );
    let (t5, b5) = (
        bound_sql(p.min_size, " AND f.size >= ?"@) + t4,
        bound_binds(p.min_size) + b4,
    );
    let (t6, b6) = (hash + t5, text_bind(p.hash@) + b5);
    let (t7, b7) = (name + t6, text_bind(p.name@) + b6);
    assert(where_sql(p) == " WHERE 1=1"@ + t7) by {
        lemma_regrouped(
            " WHERE 1=1"@,
            name,
            hash,
            bound_sql(p.min_size, " AND f.size >= ?"@),
            bound_sql(p.max_size, " AND f.size <= ?"@),
            bound_sql(p.min_mtime_ns, " AND f.mtime_ns >= ?"@),
            bound_sql(p.max_mtime_ns, " AND f.mtime_ns <= ?"@),
            tags_sql(p.tags@),
        );
        assert(t1 =~= tags_sql(p.tags@));
    }
    assert(where_binds(p) == b7) by {
        lemma_regrouped(
            b0,
            text_bind(p.name@),
            text_bind(p.hash@),
            bound_binds(p.min_size),
            bound_binds(p.max_size),
            bound_binds(p.min_mtime_ns),
            bound_binds(p.max_mtime_ns),
            tags_binds(p.tags@),
        );
        assert(b1 =~= tags_binds(p.tags@));
        assert(b0 + text_bind(p.name@) =~= text_bind(p.name@));
        assert(b0 + b7 =~= b7);
    }
    lemma_after(" WHERE 1=1"@, t7);
    lemma_tags_mean(p.tags@, t0, b0, row);
    lemma_bound_means(p.max_mtime_ns, t1, b1, row);
    lemma_bound_means(p.min_mtime_ns, t2, b2, row);
    lemma_bound_means(p.max_size, t3, b3, row);
    lemma_bound_means(p.min_size, t4, b4, row);
    if p.hash@.len() > 0 {
        lemma_hash_condition(p.hash@, t5, b6, row);
        assert(b6.skip(1) =~= b5);
    } else {
        assert(t6 =~= t5 && b6 =~= b5);
    }
    if p.name@.len() > 0 {
        lemma_name_condition(p.name@, t6, b7, row);
        assert(b7.skip(1) =~= b6);
    } else {
        assert(t7 =~= t6 && b7 =~= b6);
    }
}

proof fn lemma_regrouped<A>(
    a: Seq<A>,
    b: Seq<A>,
    c: Seq<A>,
    d: Seq<A>,
    e: Seq<A>,
    f: Seq<A>,
    g: Seq<A>,
    h: Seq<A>,
)
    ensures
        a + b + c + d + e + f + g + h == a + (b + (c + (d + (e + (f + (g + h)))))),
{
    lemma_moved(a + b + c + d + e + f, g, h);
    lemma_moved(a + b + c + d + e, f, g + h);
    lemma_moved(a + b + c + d, e, f + (g + h));
    lemma_moved(a + b + c, d, e + (f + (g + h)));
    lemma_moved(a + b, c, d + (e + (f + (g + h))));
    lemma_moved(a, b, c + (d + (e + (f + (g + h)))));
}

proof fn lemma_moved<A>(a: Seq<A>, b: Seq<A>, c: Seq<A>)
    ensures
        a + b + c == a + (b + c),
{
    assert(a + b + c =~= a + (b + c));
}

proof fn lemma_bound_means(v: Option<u64>, rest: Seq<char>, left: Seq<BindView>, row: SearchRow)
    ensures
        meets(bound_sql(v, " AND f.size >= ?"@) + rest, bound_binds(v) + left, row) == ((
        v matches Some(n) ==> signed(n) <= row.size) && meets(rest, left, row)),
        meets(bound_sql(v, " AND f.size <= ?"@) + rest, bound_binds(v) + left, row) == ((
        v matches Some(n) ==> row.size <= signed(n)) && meets(rest, left, row)),
        meets(bound_sql(v, " AND f.mtime_ns >= ?"@) + rest, bound_binds(v) + left, row) == ((
        v matches Some(n) ==> signed(n) <= row.mtime_ns) && meets(rest, left, row)),
        meets(bound_sql(v, " AND f.mtime_ns <= ?"@) + rest, bound_binds(v) + left, row) == ((
        v matches Some(n) ==> row.mtime_ns <= signed(n)) && meets(rest, left, row)),
{
    let binds = bound_binds(v) + left;
    if v is Some {
        let n = signed(v->0) as i64;
        assert(binds.skip(1) =~= left);
        lemma_number_condition("f.size"@, row.size, n, rest, binds, row);
        lemma_number_condition("f.mtime_ns"@, row.mtime_ns, n, rest, binds, row);
        lemma_bound_words(rest);
    } else {
        assert(binds =~= left);
        assert(Seq::<char>::empty() + rest =~= rest);
    }
}

proof fn lemma_bound_words(rest: Seq<char>)
    ensures
        " AND f.size >= ?"@ + rest == " AND "@ + ("f.size"@ + (" >= ?"@ + rest)),
        " AND f.size <= ?"@ + rest == " AND "@ + ("f.size"@ + (" <= ?"@ + rest)),
        " AND f.mtime_ns >= ?"@ + rest == " AND "@ + ("f.mtime_ns"@ + (" >= ?"@ + rest)),
        " AND f.mtime_ns <= ?"@ + rest == " AND "@ + ("f.mtime_ns"@ + (" <= ?"@ + rest)),
{
    reveal_strlit(" AND f.size >= ?");
    reveal_strlit(" AND f.size <= ?");
    reveal_strlit(" AND f.mtime_ns >= ?");
    reveal_strlit(" AND f.mtime_ns <= ?");
    reveal_strlit(" AND ");
    reveal_strlit("f.size");
    reveal_strlit("f.mtime_ns");
    reveal_strlit(" >= ?");
    reveal_strlit(" <= ?");
    assert(" AND f.size >= ?"@ =~= " AND "@ + "f.size"@ + " >= ?"@);
    assert(" AND f.size <= ?"@ =~= " AND "@ + "f.size"@ + " <= ?"@);
    assert(" AND f.mtime_ns >= ?"@ =~= " AND "@ + "f.mtime_ns"@ + " >= ?"@);
    assert(" AND f.mtime_ns <= ?"@ =~= " AND "@ + "f.mtime_ns"@ + " <= ?"@);
    assert(" AND f.size >= ?"@ + rest =~= " AND "@ + ("f.size"@ + (" >= ?"@ + rest)));
    assert(" AND f.size <= ?"@ + rest =~= " AND "@ + ("f.size"@ + (" <= ?"@ + rest)));
    assert(" AND f.mtime_ns >= ?"@ + rest =~= " AND "@ + ("f.mtime_ns"@ + (" >= ?"@ + rest)));
    assert(" AND f.mtime_ns <= ?"@ + rest =~= " AND "@ + ("f.mtime_ns"@ + (" <= ?"@ + rest)));
}

proof fn lemma_tags_mean(
    tags: Seq<(String, Option<String>)>,
    rest: Seq<char>,
    left: Seq<BindView>,
    row: SearchRow,
)
    ensures
        meets(tags_sql(tags) + rest, tags_binds(tags) + left, row) == ((forall|i: int|
            0 <= i < tags.len() ==> has_tag(row, #[trigger] tags[i])) && meets(rest, left, row)),
    decreases tags.len(),
{
    if tags.len() == 0 {
        assert(tags_sql(tags) + rest =~= rest);
        assert(tags_binds(tags) + left =~= left);
    } else {
        let (init, tag) = (tags.drop_last(), tags.last());
        let tail = tag_sql(tag.1 is Some) + rest;
        let own = match tag.1 {
            Some(v) => seq![BindView::Text(tag.0@), BindView::Text(v@)],
            None => seq![BindView::Text(tag.0@)],
        };
        let binds = own + left;
        assert(tags_sql(tags) + rest =~= tags_sql(init) + tail);
        assert(tags_binds(tags) + left =~= tags_binds(init) + binds);
        lemma_tags_mean(init, tail, binds, row);
        match tag.1 {
            Some(v) => {
                lemma_value_condition(tag.0@, v@, rest, binds, row);
                assert(binds.skip(2) =~= left);
            },
            None => {
                lemma_key_condition(tag.0@, rest, binds, row);
                assert(binds.skip(1) =~= left);
            },
        }
        assert(meets(tail, binds, row) == (has_tag(row, tag) && meets(rest, left, row))) by {
            if has_tag(row, tag) {
                let i = choose|i: int|
                    0 <= i < row.meta.len() && (#[trigger] row.meta[i]).0 == tag.0@ && (
                    tag.1 matches Some(v) ==> row.meta[i].1 == v@);
                assert(row.meta[i].0 == tag.0@);
            }
        }
        assert((forall|i: int| 0 <= i < tags.len() ==> has_tag(row, #[trigger] tags[i])) == ((
        forall|i: int| 0 <= i < init.len() ==> has_tag(row, #[trigger] init[i])) && has_tag(
            row,
            tag,
        ))) by {
            if forall|i: int| 0 <= i < tags.len() ==> has_tag(row, #[trigger] tags[i]) {
                assert forall|i: int| 0 <= i < init.len() implies has_tag(
                    row,
                    #[trigger] init[i],
                ) by {
                    assert(init[i] == tags[i]);
                }
                assert(has_tag(row, tags[tags.len() - 1]));
            }
            if (forall|i: int| 0 <= i < init.len() ==> has_tag(row, #[trigger] init[i]))
                && has_tag(row, tag) {
                assert forall|i: int| 0 <= i < tags.len() implies has_tag(
                    row,
                    #[trigger] tags[i],
                ) by {
                    if i < init.len() {
                        assert(init[i] == tags[i]);
                    }
                }
            }
        }
    }
}

/// A row outside the bounds of a search is not found: not one that is larger or
/// smaller than allowed, not one that is later or earlier.
pub proof fn law_no_row_outside_the_bounds(p: &QueryParams, row: SearchRow, n: u64)
    requires
        n <= i64::MAX,
    ensures
        p.max_size == Some(n) && row.size > n ==> !selects(where_sql(p), where_binds(p), row),
        p.min_size == Some(n) && row.size < n ==> !selects(where_sql(p), where_binds(p), row),
        p.max_mtime_ns == Some(n) && row.mtime_ns > n ==> !selects(
            where_sql(p),
            where_binds(p),
            row,
        ),
        p.min_mtime_ns == Some(n) && row.mtime_ns < n ==> !selects(
            where_sql(p),
            where_binds(p),
            row,
        ),
{
    law_search_finds_what_it_asks_for(p, row);
}

/// The search `b` asks for no less than `a` lets through: each bound of it is as wide
/// or missing, and what else it asks for is the same.
pub open spec fn as_wide(a: &QueryParams, b: &QueryParams) -> bool {
    &&& a.name@ == b.name@
    &&& a.hash@ == b.hash@
    &&& a.tags@ == b.tags@
    &&& b.min_size matches Some(n) ==> a.min_size matches Some(m) && n <= m <= i64::MAX
    &&& b.max_size matches Some(n) ==> a.max_size matches Some(m) && m <= n <= i64::MAX
    &&& b.min_mtime_ns matches Some(n) ==> a.min_mtime_ns matches Some(m) && n <= m <= i64::MAX
    &&& b.max_mtime_ns matches Some(n) ==> a.max_mtime_ns matches Some(m) && m <= n <= i64::MAX
}

/// Widening the bounds of a search never loses a row.
pub proof fn law_wider_bounds_lose_nothing(a: &QueryParams, b: &QueryParams, row: SearchRow)
    requires
        as_wide(a, b),
        selects(where_sql(a), where_binds(a), row),
    ensures
        selects(where_sql(b), where_binds(b), row),
{
    law_search_finds_what_it_asks_for(a, row);
    law_search_finds_what_it_asks_for(b, row);
}

/// A search that asks for nothing finds every row.
pub proof fn law_empty_search_finds_everything(p: &QueryParams, row: SearchRow)
    requires
        p.name@.len() == 0,
        p.hash@.len() == 0,
        p.min_size is None,
        p.max_size is None,
        p.min_mtime_ns is None,
        p.max_mtime_ns is None,
        p.tags@.len() == 0,
    ensures
        selects(where_sql(p), where_binds(p), row),
{
    law_search_finds_what_it_asks_for(p, row);
}

/// The text that a row holds in a field; empty where there is none.
pub open spec fn text_of(row: SearchRow, col: TextCol) -> Seq<char> {
    match col {
        TextCol::Name => row.name,
        TextCol::Path => row.path,
        TextCol::Dir => row.dir,
        TextCol::Hash => row.hash,
        TextCol::Algo => row.algo,
        TextCol::Ext => present(row.ext),
        TextCol::FileType => present(row.file_type),
    }
}

/// The text has the needle as a part, has it at its start, equals it, or is like it;
/// the case of ASCII letters does not count.
pub open spec fn text_meets(text: Seq<char>, needle: Seq<char>, mode: TextMode) -> bool {
    match mode {
        TextMode::Substring => has_part(lowered(text), lowered(needle)),
        TextMode::Prefix => has_prefix(lowered(text), lowered(needle)),
        TextMode::Exact => lowered(text) == lowered(needle),
        TextMode::Like => like(text, needle),
    }
}

/// What a predicate says of a row, before it is negated.
pub open spec fn says(p: PredView, row: SearchRow) -> bool {
    match p {
        PredView::Text { col, needle, mode, .. } => text_meets(text_of(row, col), needle, mode),
        PredView::AnyText { needle, .. } => has_part(lowered(row.name), lowered(needle)) || has_part(
            lowered(row.path),
            lowered(needle),
        ) || has_part(lowered(row.hash), lowered(needle)),
        PredView::Range { col, lo, hi, .. } => {
            let n = match col {
                NumCol::Size => row.size,
                NumCol::Mtime => row.mtime_ns,
            };
            (lo matches Some(a) ==> a <= n) && (hi matches Some(b) ==> n < b)
        },
        PredView::Meta { key, value, mode, .. } => exists|i: int|
            0 <= i < row.meta.len() && lowered((#[trigger] row.meta[i]).0) == lowered(key) && (
            value matches Some(v) ==> text_meets(row.meta[i].1, v, mode)),
    }
}

/// How the comparison of a column with a bound text is read.
proof fn lemma_compare_means(
    word: Seq<char>,
    value: Option<Seq<char>>,
    mode: TextMode,
    needle: Seq<char>,
    rest: Seq<char>,
    binds: Seq<BindView>,
    row: SearchRow,
    kv: (Seq<char>, Seq<char>),
)
    requires
        is_column(word, value, row, kv),
        binds.len() > 0,
        binds[0] == BindView::Text(needle),
        after(rest, " || '%'"@) is None,
    ensures
        comparison(compare_sql(word, mode) + rest, binds, row, kv) == Some(
            (Some(text_meets(present(value), needle, mode)), rest, binds.skip(1)),
        ),
        compare_sql(word, mode).len() > 0,
        compare_sql(word, mode)[0] != 'E',
{
    let whole = compare_sql(word, mode) + rest;
    match mode {
        TextMode::Substring => {
            let end = ")>0"@ + rest;
            lemma_position_words(word, ",'')), lower(?))>0"@, ")>0"@, rest);
            lemma_after(")>0"@, rest);
            lemma_position_read(word, value, needle, end, binds, row, kv);
        },
        TextMode::Prefix => {
            let end = ")=1"@ + rest;
            lemma_position_words(word, ",'')), lower(?))=1"@, ")=1"@, rest);
            lemma_after(")=1"@, rest);
            lemma_position_read(word, value, needle, end, binds, row, kv);
            reveal_strlit(")=1");
            reveal_strlit(")>0");
            lemma_not_after(end, ")>0"@, 1);
        },
        TextMode::Exact => {
            let tail = "="@ + ("lower(?)"@ + rest);
            let front = "lower(COALESCE("@ + word + ",''))"@;
            assert(whole =~= front + tail && whole.len() > 0 && whole[0] == 'l') by {
                reveal_strlit("lower(COALESCE(");
                reveal_strlit(",''))=lower(?)");
                reveal_strlit(",''))");
                reveal_strlit("=");
                reveal_strlit("lower(?)");
                assert(",''))=lower(?)"@ =~= ",''))"@ + "="@ + "lower(?)"@);
            }
            lemma_starts(whole);
            lemma_column_lowered(word, value, tail, binds, row, kv);
            lemma_after("="@, "lower(?)"@ + rest);
            lemma_bound_operand(needle, rest, binds, row, kv);
        },
        TextMode::Like => {
            let tail = " LIKE "@ + ("?"@ + rest);
            let front = "COALESCE("@ + (word + (",'')"@ + tail));
            assert(whole =~= front && whole.len() > 0 && whole[0] == 'C') by {
                reveal_strlit("COALESCE(");
                reveal_strlit(",'') LIKE ?");
                reveal_strlit(",'')");
                reveal_strlit(" LIKE ");
                reveal_strlit("?");
                assert(",'') LIKE ?"@ =~= ",'')"@ + " LIKE "@ + "?"@);
            }
            lemma_starts(whole);
            lemma_column_filled(word, value, tail, binds, row, kv);
            assert(tail[0] == ' ' && "="@.len() == 1 && "="@[0] == '=') by {
                reveal_strlit(" LIKE ");
                reveal_strlit("=");
            }
            lemma_not_after(tail, "="@, 0);
            lemma_after(" LIKE "@, "?"@ + rest);
            lemma_bound_operand(needle, rest, binds, row, kv);
        },
    }
}

proof fn lemma_position_words(word: Seq<char>, text: Seq<char>, sign: Seq<char>, rest: Seq<char>)
    requires
        (text == ",'')), lower(?))>0"@ && sign == ")>0"@) || (text == ",'')), lower(?))=1"@ && sign
            == ")=1"@),
    ensures
        "instr(lower(COALESCE("@ + word + text + rest == "instr("@ + ("lower(COALESCE("@ + word
            + ",''))"@ + (", "@ + ("lower(?)"@ + (sign + rest)))),
        "instr(lower(COALESCE("@.len() > 0,
        "instr(lower(COALESCE("@[0] == 'i',
{
    reveal_strlit("instr(lower(COALESCE(");
    reveal_strlit(",'')), lower(?))>0");
    reveal_strlit(",'')), lower(?))=1");
    reveal_strlit("instr(");
    reveal_strlit("lower(COALESCE(");
    reveal_strlit(",''))");
    reveal_strlit(", ");
    reveal_strlit("lower(?)");
    reveal_strlit(")>0");
    reveal_strlit(")=1");
    assert("instr(lower(COALESCE("@ =~= "instr("@ + "lower(COALESCE("@);
    assert(text =~= ",''))"@ + ", "@ + "lower(?)"@ + sign);
    assert("instr(lower(COALESCE("@ + word + text + rest =~= "instr("@ + ("lower(COALESCE("@ + word
        + ",''))"@ + (", "@ + ("lower(?)"@ + (sign + rest)))));
}

proof fn lemma_position_read(
    word: Seq<char>,
    value: Option<Seq<char>>,
    needle: Seq<char>,
    end: Seq<char>,
    binds: Seq<BindView>,
    row: SearchRow,
    kv: (Seq<char>, Seq<char>),
)
    requires
        is_column(word, value, row, kv),
        binds.len() > 0,
        binds[0] == BindView::Text(needle),
        after(end, ")>0"@) is Some || after(end, ")=1"@) is Some,
    ensures
        ({
            let next = "lower(COALESCE("@ + word + ",''))"@ + (", "@ + ("lower(?)"@ + end));
            let text = lowered(present(value));
            let part = lowered(needle);
            comparison("instr("@ + next, binds, row, kv) == match after(end, ")>0"@) {
                Some(rest) => Some((Some(has_part(text, part)), rest, binds.skip(1))),
                None => Some((Some(has_prefix(text, part)), after(end, ")=1"@)->0, binds.skip(1))),
            }
        }),
{
    let second = "lower(?)"@ + end;
    let mid = ", "@ + second;
    let next = "lower(COALESCE("@ + word + ",''))"@ + mid;
    lemma_after("instr("@, next);
    assert(("instr("@ + next).len() > 0 && ("instr("@ + next)[0] == 'i') by {
        reveal_strlit("instr(");
    }
    lemma_starts("instr("@ + next);
    lemma_column_lowered(word, value, mid, binds, row, kv);
    lemma_after(", "@, second);
    lemma_bound_operand(needle, end, binds, row, kv);
}

/// What may follow a predicate in brackets starts with none of the words that would go
/// on with it.
proof fn lemma_bracket_ends(rest: Seq<char>)
    ensures
        after(")"@ + rest, ")"@) == Some(rest),
        after(")"@ + rest, " AND "@) is None,
        after(")"@ + rest, " OR "@) is None,
        after(")"@ + rest, " || '%'"@) is None,
{
    lemma_after(")"@, rest);
    reveal_strlit(")");
    reveal_strlit(" AND ");
    reveal_strlit(" OR ");
    reveal_strlit(" || '%'");
    lemma_not_after(")"@ + rest, " AND "@, 0);
    lemma_not_after(")"@ + rest, " OR "@, 0);
    lemma_not_after(")"@ + rest, " || '%'"@, 0);
}

/// What is read in the brackets of a predicate.
proof fn lemma_bare_means(p: PredView, rest: Seq<char>, left: Seq<BindView>, row: SearchRow)
    ensures
        any_of(bare_sql(p) + (")"@ + rest), pred_binds(p) + left, row) == Some(
            (Some(says(p, row)), ")"@ + rest, left),
        ),
{
    let none = (Seq::<char>::empty(), Seq::<char>::empty());
    let end = ")"@ + rest;
    let binds = pred_binds(p) + left;
    lemma_bracket_ends(rest);
    match p {
        PredView::Text { col, needle, mode, .. } => {
            let value = match col {
                TextCol::Ext => row.ext,
                TextCol::FileType => row.file_type,
                _ => Some(text_of(row, col)),
            };
            lemma_compare_means(text_column(col), value, mode, needle, end, binds, row, none);
            lemma_starts(bare_sql(p) + end);
            assert(binds.skip(1) =~= left);
        },
        PredView::AnyText { needle, .. } => lemma_any_text_means(needle, rest, left, row),
        PredView::Range { col, lo, hi, .. } => lemma_range_means(col, lo, hi, rest, left, row),
        PredView::Meta { key, value, mode, .. } => lemma_meta_means(
            key,
            value,
            mode,
            rest,
            left,
            row,
        ),
    }
}

proof fn lemma_any_text_means(
    needle: Seq<char>,
    rest: Seq<char>,
    left: Seq<BindView>,
    row: SearchRow,
)
    ensures
        ({
            let p = PredView::AnyText { needle, negate: false };
            any_of(bare_sql(p) + (")"@ + rest), pred_binds(p) + left, row) == Some(
                (Some(says(p, row)), ")"@ + rest, left),
            )
        }),
{
    let none = (Seq::<char>::empty(), Seq::<char>::empty());
    let p = PredView::AnyText { needle, negate: false };
    let binds = pred_binds(p) + left;
    let end = ")"@ + rest;
    let mode = TextMode::Substring;
    let part = lowered(needle);
    let third = compare_sql("f.hash"@, mode) + end;
    let second = compare_sql("f.path"@, mode) + (" OR "@ + third);
    let first = compare_sql("f.name"@, mode) + (" OR "@ + second);
    assert(bare_sql(p) + end =~= first) by {
        lemma_five_moved(
            compare_sql("f.name"@, mode),
            " OR "@,
            compare_sql("f.path"@, mode),
            " OR "@,
            compare_sql("f.hash"@, mode),
            end,
        );
    }
    lemma_bracket_ends(rest);
    reveal_strlit(" OR ");
    reveal_strlit(" AND ");
    reveal_strlit(" || '%'");
    lemma_not_after(" OR "@ + third, " AND "@, 1);
    lemma_not_after(" OR "@ + second, " AND "@, 1);
    lemma_not_after(" OR "@ + third, " || '%'"@, 1);
    lemma_not_after(" OR "@ + second, " || '%'"@, 1);
    lemma_after(" OR "@, third);
    lemma_after(" OR "@, second);
    let (b1, b2, b3) = (binds.skip(1), binds.skip(1).skip(1), binds.skip(1).skip(1).skip(1));
    assert(b3 =~= left);
    assert(b1[0] == BindView::Text(needle) && b2[0] == BindView::Text(needle));
    lemma_compare_means(
        "f.name"@,
        Some(row.name),
        mode,
        needle,
        " OR "@ + second,
        binds,
        row,
        none,
    );
    lemma_starts(first);
    lemma_compare_means("f.path"@, Some(row.path), mode, needle, " OR "@ + third, b1, row, none);
    lemma_starts(second);
    lemma_compare_means("f.hash"@, Some(row.hash), mode, needle, end, b2, row, none);
    lemma_starts(third);
    assert(any_of(third, b2, row) == Some((Some(has_part(lowered(row.hash), part)), end, left)));
    assert(any_of(second, b1, row) == Some(
        (
            Some(has_part(lowered(row.path), part) || has_part(lowered(row.hash), part)),
            end,
            left,
        ),
    ));
}

proof fn lemma_five_moved<A>(a: Seq<A>, b: Seq<A>, c: Seq<A>, d: Seq<A>, e: Seq<A>, f: Seq<A>)
    ensures
        a + b + c + d + e + f == a + (b + (c + (d + (e + f)))),
{
    lemma_moved(a + b + c + d, e, f);
    lemma_moved(a + b + c, d, e + f);
    lemma_moved(a + b, c, d + (e + f));
    lemma_moved(a, b, c + (d + (e + f)));
}

proof fn lemma_range_means(
    col: NumCol,
    lo: Option<i64>,
    hi: Option<i64>,
    rest: Seq<char>,
    left: Seq<BindView>,
    row: SearchRow,
)
    ensures
        ({
            let p = PredView::Range { col, lo, hi, negate: false };
            any_of(bare_sql(p) + (")"@ + rest), pred_binds(p) + left, row) == Some(
                (Some(says(p, row)), ")"@ + rest, left),
            )
        }),
{
    let p = PredView::Range { col, lo, hi, negate: false };
    let binds = pred_binds(p) + left;
    let end = ")"@ + rest;
    let word = num_column(col);
    let n = match col {
        NumCol::Size => row.size,
        NumCol::Mtime => row.mtime_ns,
    };
    let whole = bare_sql(p) + end;
    lemma_bracket_ends(rest);
    match (lo, hi) {
        (None, None) => {
            assert(binds =~= left);
            lemma_after("1=1"@, end);
            reveal_strlit("1=1");
            lemma_starts(whole);
        },
        (Some(a), None) => {
            assert(binds.skip(1) =~= left);
            lemma_moved(word, " >= ?"@, end);
            lemma_number_comparison(word, n, a, end, binds, row);
        },
        (None, Some(b)) => {
            assert(binds.skip(1) =~= left);
            lemma_moved(word, " < ?"@, end);
            lemma_number_comparison(word, n, b, end, binds, row);
        },
        (Some(a), Some(b)) => {
            let upper = word + (" < ?"@ + end);
            let tail = " AND "@ + upper;
            assert(whole == word + (" >= ?"@ + tail)) by {
                lemma_five_moved(word, " >= ?"@, " AND "@, word, " < ?"@, end);
            }
            let b1 = binds.skip(1);
            assert(b1.skip(1) =~= left);
            assert(b1[0] == BindView::Int(b));
            lemma_number_comparison(word, n, a, tail, binds, row);
            lemma_number_comparison(word, n, b, end, b1, row);
            lemma_after(" AND "@, upper);
            reveal_strlit(" AND ");
            assert(all_of(upper, b1, row) == Some((Some(n < b), end, left)));
        },
    }
}

/// What stands behind the `AND` of a condition on a key, and on its value.
spec fn meta_conds(value: Option<Seq<char>>, mode: TextMode, end: Seq<char>) -> Seq<char> {
    "lower("@ + ("m.key"@ + (")"@ + ("="@ + ("lower(?)"@ + (if value is Some {
        " AND "@ + (compare_sql("m.value"@, mode) + (")"@ + end))
    } else {
        ")"@ + end
    })))))
}

proof fn lemma_meta_words(
    key: Seq<char>,
    value: Option<Seq<char>>,
    mode: TextMode,
    negate: bool,
    end: Seq<char>,
)
    ensures
        bare_sql(PredView::Meta { key, value, mode, negate }) + end == exists_word() + (" AND "@
            + meta_conds(value, mode, end)),
{
    let inner = ")"@ + end;
    let second = compare_sql("m.value"@, mode) + inner;
    let tail = if value is Some {
        " AND "@ + second
    } else {
        inner
    };
    let head = "EXISTS (SELECT 1 FROM meta_kv m WHERE m.algo=f.algo AND m.hash=f.hash AND lower(m.key)=lower(?)"@;
    let (w, a, l, k) = (exists_word(), " AND "@, "lower("@, "m.key"@);
    let (c, e, q) = (")"@, "="@, "lower(?)"@);
    assert(head =~= w + a + l + k + c + e + q) by {
        reveal_strlit(
            "EXISTS (SELECT 1 FROM meta_kv m WHERE m.algo=f.algo AND m.hash=f.hash AND lower(m.key)=lower(?)",
        );
        reveal_strlit("EXISTS (SELECT 1 FROM meta_kv m WHERE m.algo=f.algo AND m.hash=f.hash");
        reveal_strlit(" AND ");
        reveal_strlit("lower(");
        reveal_strlit("m.key");
        reveal_strlit(")");
        reveal_strlit("=");
        reveal_strlit("lower(?)");
    }
    lemma_regrouped(w, a, l, k, c, e, q, tail);
    let middle = if value is Some {
        " AND "@ + compare_sql("m.value"@, mode)
    } else {
        Seq::empty()
    };
    lemma_moved(head + middle, c, end);
    lemma_moved(head, middle, inner);
    if value is Some {
        lemma_moved(" AND "@, compare_sql("m.value"@, mode), inner);
    } else {
        assert(middle + inner =~= inner);
    }
}

proof fn lemma_meta_comparisons(
    key: Seq<char>,
    value: Option<Seq<char>>,
    mode: TextMode,
    end: Seq<char>,
    binds: Seq<BindView>,
    left: Seq<BindView>,
    row: SearchRow,
    kv: (Seq<char>, Seq<char>),
)
    requires
        binds.len() > 0,
        binds[0] == BindView::Text(key),
        value is Some ==> binds.len() > 1 && binds[1] == BindView::Text(value->0) && left
            == binds.skip(1).skip(1),
        value is None ==> left == binds.skip(1),
    ensures
        comparisons(meta_conds(value, mode, end), binds, row, kv) == Some(
            (
                Some(
                    lowered(kv.0) == lowered(key) && (value matches Some(v) ==> text_meets(
                        kv.1,
                        v,
                        mode,
                    )),
                ),
                ")"@ + end,
                left,
            ),
        ),
{
    let inner = ")"@ + end;
    let second = compare_sql("m.value"@, mode) + inner;
    let tail = if value is Some {
        " AND "@ + second
    } else {
        inner
    };
    let conds = meta_conds(value, mode, end);
    let b1 = binds.skip(1);
    let equals = "="@ + ("lower(?)"@ + tail);
    lemma_bracket_ends(end);
    lemma_after(" AND "@, second);
    lemma_column_lowered("m.key"@, Some(kv.0), equals, binds, row, kv);
    lemma_after("="@, "lower(?)"@ + tail);
    lemma_bound_operand(key, tail, binds, row, kv);
    assert(conds.len() > 0 && conds[0] == 'l') by {
        reveal_strlit("lower(");
    }
    lemma_starts(conds);
    assert(comparison(conds, binds, row, kv) == Some(
        (Some(lowered(kv.0) == lowered(key)), tail, b1),
    ));
    if value is Some {
        lemma_compare_means("m.value"@, Some(kv.1), mode, value->0, inner, b1, row, kv);
        assert(comparisons(second, b1, row, kv) == Some(
            (Some(text_meets(kv.1, value->0, mode)), inner, left),
        ));
        assert(second.len() < conds.len()) by {
            reveal_strlit("lower(");
        }
    }
}

proof fn lemma_meta_means(
    key: Seq<char>,
    value: Option<Seq<char>>,
    mode: TextMode,
    rest: Seq<char>,
    left: Seq<BindView>,
    row: SearchRow,
)
    ensures
        ({
            let p = PredView::Meta { key, value, mode, negate: false };
            any_of(bare_sql(p) + (")"@ + rest), pred_binds(p) + left, row) == Some(
                (Some(says(p, row)), ")"@ + rest, left),
            )
        }),
{
    let none = (Seq::<char>::empty(), Seq::<char>::empty());
    let p = PredView::Meta { key, value, mode, negate: false };
    let binds = pred_binds(p) + left;
    let end = ")"@ + rest;
    let whole = bare_sql(p) + end;
    let conds = meta_conds(value, mode, end);
    lemma_meta_words(key, value, mode, false, end);
    lemma_bracket_ends(rest);
    lemma_after(exists_word(), " AND "@ + conds);
    lemma_after(" AND "@, conds);
    lemma_after(")"@, end);
    if value is Some {
        assert(binds.skip(1).skip(1) =~= left);
    } else {
        assert(binds.skip(1) =~= left);
    }
    assert forall|kv: (Seq<char>, Seq<char>)| #[trigger] comparisons(conds, binds, row, kv) == Some(
        (
            Some(
                lowered(kv.0) == lowered(key) && (value matches Some(v) ==> text_meets(
                    kv.1,
                    v,
                    mode,
                )),
            ),
            ")"@ + end,
            left,
        ),
    ) by {
        lemma_meta_comparisons(key, value, mode, end, binds, left, row, kv);
    }
    assert(comparisons(conds, binds, row, none) is Some);
    let read = exists|i: int|
        0 <= i < row.meta.len() && #[trigger] holds_of(conds, binds, row, row.meta[i]);
    assert(says(p, row) == read) by {
        if says(p, row) {
            let i = choose|i: int|
                0 <= i < row.meta.len() && lowered((#[trigger] row.meta[i]).0) == lowered(key) && (
                value matches Some(v) ==> text_meets(row.meta[i].1, v, mode));
            assert(holds_of(conds, binds, row, row.meta[i]));
        }
        if read {
            let i = choose|i: int|
                0 <= i < row.meta.len() && #[trigger] holds_of(conds, binds, row, row.meta[i]);
            assert(comparisons(conds, binds, row, row.meta[i]) is Some);
        }
    }
    assert(factor(whole, binds, row) == Some((Some(says(p, row)), end, left)));
}

/// The condition of a predicate, read as text with its values, holds of a row exactly
/// where the row is as the predicate says; negated, exactly where it is not.
pub proof fn law_predicate_means_what_it_says(
    p: PredView,
    rest: Seq<char>,
    left: Seq<BindView>,
    row: SearchRow,
)
    ensures
        meets(" AND "@ + pred_sql(p) + rest, pred_binds(p) + left, row) == (says(p, row)
            != negated(p) && meets(rest, left, row)),
{
    let binds = pred_binds(p) + left;
    let inner = bare_sql(p) + (")"@ + rest);
    let open = if negated(p) {
        "NOT ("@
    } else {
        "("@
    };
    let next = open + inner;
    assert(" AND "@ + pred_sql(p) + rest == " AND "@ + next) by {
        lemma_moved(" AND "@, pred_sql(p), rest);
        lemma_moved(open + bare_sql(p), ")"@, rest);
        lemma_moved(open, bare_sql(p), ")"@ + rest);
    }
    lemma_bare_means(p, rest, left, row);
    lemma_after(open, inner);
    lemma_after(")"@, rest);
    reveal_strlit("NOT (");
    reveal_strlit("(");
    lemma_starts(next);
    assert((")"@ + rest).len() >= rest.len());
    lemma_step(next, binds, row, says(p, row) != negated(p), rest, left);
}

/// A search in the query language selects exactly the rows of which every predicate
/// holds.
pub proof fn law_filter_finds_what_its_predicates_say(preds: Seq<PredView>, row: SearchRow)
    ensures
        selects(" WHERE 1=1"@ + preds_sql(preds), preds_binds(preds), row) <==> forall|i: int|
            0 <= i < preds.len() ==> says(#[trigger] preds[i], row) != negated(preds[i]),
{
    let (t0, b0) = (Seq::<char>::empty(), Seq::<BindView>::empty());
    lemma_after(" WHERE 1=1"@, preds_sql(preds));
    lemma_preds_mean(preds, t0, b0, row);
    assert(preds_sql(preds) + t0 =~= preds_sql(preds));
    assert(preds_binds(preds) + b0 =~= preds_binds(preds));
}

proof fn lemma_preds_mean(
    preds: Seq<PredView>,
    rest: Seq<char>,
    left: Seq<BindView>,
    row: SearchRow,
)
    ensures
        meets(preds_sql(preds) + rest, preds_binds(preds) + left, row) == ((forall|i: int|
            0 <= i < preds.len() ==> says(#[trigger] preds[i], row) != negated(preds[i]))
            && meets(rest, left, row)),
    decreases preds.len(),
{
    if preds.len() == 0 {
        assert(preds_sql(preds) + rest =~= rest);
        assert(preds_binds(preds) + left =~= left);
    } else {
        let (init, last) = (preds.drop_last(), preds.last());
        let tail = " AND "@ + pred_sql(last) + rest;
        let binds = pred_binds(last) + left;
        assert(preds_sql(preds) + rest == preds_sql(init) + tail) by {
            lemma_moved(preds_sql(init) + " AND "@, pred_sql(last), rest);
            lemma_moved(preds_sql(init), " AND "@, pred_sql(last) + rest);
            lemma_moved(" AND "@, pred_sql(last), rest);
        }
        assert(preds_binds(preds) + left =~= preds_binds(init) + binds);
        lemma_preds_mean(init, tail, binds, row);
        law_predicate_means_what_it_says(last, rest, left, row);
        let all = forall|i: int|
            0 <= i < preds.len() ==> says(#[trigger] preds[i], row) != negated(preds[i]);
        let before = forall|i: int|
            0 <= i < init.len() ==> says(#[trigger] init[i], row) != negated(init[i]);
        assert(all == (before && says(last, row) != negated(last))) by {
            if all {
                assert forall|i: int| 0 <= i < init.len() implies says(#[trigger] init[i], row)
                    != negated(init[i]) by {
                    assert(init[i] == preds[i]);
                }
                assert(preds[preds.len() - 1] == last);
            }
            if before && says(last, row) != negated(last) {
                assert forall|i: int| 0 <= i < preds.len() implies says(#[trigger] preds[i], row)
                    != negated(preds[i]) by {
                    if i < init.len() {
                        assert(init[i] == preds[i]);
                    }
                }
            }
        }
    }
}

/// What a term of the query language finds. A text field: by `:` what holds the text,
/// a hash what starts with it; by `=` what equals it; by `:=` what is like it. No
/// field: what has the text in its name, its path or its hash. A size: what has it;
/// two sizes: what has at least the first and less than the second. A key: what has a
/// value under it that matches.
pub proof fn law_term_finds_what_it_describes(
    t: TermView,
    now: LocalTime,
    low: int,
    high: int,
    row: SearchRow,
)
    requires
        refusal_of(t) is None,
    ensures
        ({
            let found = says(pred_of(t, now, low, high), row);
            let text = value_text(t.matcher->Single_0);
            let here = match t.field {
                FieldView::Name => row.name,
                FieldView::Path => row.path,
                FieldView::Dir => row.dir,
                FieldView::Hash => row.hash,
                FieldView::Algo => row.algo,
                FieldView::Ext => present(row.ext),
                _ => present(row.file_type),
            };
            let by_text = !(t.field is Default) && !(t.field is Size) && !(t.field is Mtime) && !(
            t.field is Meta);
            &&& by_text && t.op == Op::Match && !(t.field is Hash) ==> found == has_part(
                lowered(here),
                lowered(text),
            )
            &&& t.op == Op::Match && t.field is Hash ==> found == has_prefix(
                lowered(row.hash),
                lowered(text),
            )
            &&& by_text && t.op == Op::Exact ==> found == (lowered(here) == lowered(text))
            &&& by_text && t.op == Op::Like ==> found == like(here, text)
            &&& t.field is Default ==> found == (has_part(lowered(row.name), lowered(text))
                || has_part(lowered(row.path), lowered(text)) || has_part(
                lowered(row.hash),
                lowered(text),
            ))
            &&& t.field matches FieldView::Meta(key) ==> found == exists|i: int|
                0 <= i < row.meta.len() && lowered((#[trigger] row.meta[i]).0) == lowered(key) && (
                match t.op {
                    Op::Match => has_part(lowered(row.meta[i].1), lowered(text)),
                    Op::Exact => lowered(row.meta[i].1) == lowered(text),
                    Op::Like => like(row.meta[i].1, text),
                })
            &&& t.field is Size && row.size < i64::MAX ==> match t.matcher {
                MatcherView::Single(v) => found == (row.size == v->Number_0),
                MatcherView::Range(a, b) => found == ((a matches Some(v) ==> v->Number_0
                    <= row.size) && (b matches Some(v) ==> row.size < v->Number_0)),
            }
            &&& negated(pred_of(t, now, low, high)) == (t.presence == Presence::MustNot)
        }),
{
    let p = pred_of(t, now, low, high);
    let text = value_text(t.matcher->Single_0);
    if let FieldView::Meta(key) = t.field {
        let f = |kv: (Seq<char>, Seq<char>)| lowered(kv.0) == lowered(key) && text_meets(
            kv.1,
            text,
            text_mode(t.op, false),
        );
        if says(p, row) {
            let i = choose|i: int|
                0 <= i < row.meta.len() && lowered((#[trigger] row.meta[i]).0) == lowered(key)
                    && text_meets(row.meta[i].1, text, text_mode(t.op, false));
            assert(f(row.meta[i]));
        }
    }
}

/// A term whose field is a time finds what was modified within the interval of its
/// date, or from the start of its first date to the end of its second.
pub proof fn law_time_term_finds_its_interval(
    t: TermView,
    now: LocalTime,
    low: int,
    high: int,
    row: SearchRow,
)
    requires
        refusal_of(t) is None,
        t.field is Mtime,
    ensures
        ({
            let iv = date_range(t.matcher, now, low, high);
            says(pred_of(t, now, low, high), row) == ((iv.start matches Some(a) ==> a
                <= row.mtime_ns) && (iv.end matches Some(b) ==> row.mtime_ns < b))
        }),
{
}

/// A row holds a file: its path, its directory, its name, and what is recorded of it;
/// its size and its time read back from the row.
pub proof fn law_row_holds_its_file(
    path: Seq<char>,
    dir: Seq<char>,
    name: Seq<char>,
    e: EntryView,
)
    ensures
        file_row_of(path, dir, name, e).path == path,
        file_row_of(path, dir, name, e).dir == dir,
        file_row_of(path, dir, name, e).name == name,
        file_row_of(path, dir, name, e).algo == e.algo,
        file_row_of(path, dir, name, e).hash == e.hash,
        unsigned(file_row_of(path, dir, name, e).size) == e.size,
        unsigned(file_row_of(path, dir, name, e).mtime_ns) == e.mtime_ns,
{
}

/// The rows of a directory are those of its manifest, one for each file; none where it
/// has no manifest; and they are left alone where the manifest cannot be read.
pub proof fn law_directory_has_the_rows_of_its_manifest(
    dir: &str,
    manifest: &Loaded,
    r: Option<Vec<FileInsert>>,
    i: int,
)
    requires
        call_ensures(sync_dir, (dir, manifest), r),
    ensures
        r is None <==> *manifest is Unreadable,
        *manifest is Missing ==> r->0@.len() == 0,
        *manifest matches Loaded::Files(f) ==> r->0@.len() == f.keys().len() && (0 <= i
            < f.keys().len() ==> {
            let name = f.keys()[i];
            let row = r->0@[i];
            &&& row.path@ == joined_path(dir@, name)
            &&& row.dir@ == dir@
            &&& row.name@ == name
            &&& row.hash@ == f@[name].hash
            &&& row.algo@ == f@[name].algo
            &&& unsigned(row.size) == f@[name].size
            &&& unsigned(row.mtime_ns) == f@[name].mtime_ns
        }),
{
    if let Loaded::Files(f) = *manifest {
        let rows = insert_views(r->0@);
        assert(rows.len() == r->0@.len());
        if 0 <= i < f.keys().len() {
            assert(rows[i] == r->0@[i]@);
            assert(rows[i] == file_row_of(
                joined_path(dir@, f.keys()[i]),
                dir@,
                f.keys()[i],
                f@[f.keys()[i]],
            ));
        }
    }
}

/// The metadata of a content has a row for each tag and each property, with its kind,
/// its key and its value, and no others; a content without metadata has none.
pub proof fn law_metadata_has_its_rows(meta: &Option<MetaFile>, r: Option<MetaRows>, i: int)
    requires
        call_ensures(sync_meta, (meta,), r),
    ensures
        r is Some <==> *meta is Some,
        *meta matches Some(m) ==> {
            let rows = r->0;
            let tags = m.tags.keys();
            let props = m.properties.keys();
            &&& rows.algo@ == m.algo@
            &&& rows.hash@ == m.hash@
            &&& opt_view(rows.file_type) == opt_view(m.file_type)
            &&& opt_view(rows.ext) == opt_view(m.ext)
            &&& rows.kv@.len() == tags.len() + props.len()
            &&& 0 <= i < tags.len() ==> rows.kv@[i].kind@ == "tag"@ && rows.kv@[i].key@ == tags[i]
                && rows.kv@[i].value@ == m.tags@[tags[i]]
            &&& 0 <= i < props.len() ==> rows.kv@[tags.len() + i].kind@ == "property"@
                && rows.kv@[tags.len() + i].key@ == props[i] && rows.kv@[tags.len() + i].value@
                == m.properties@[props[i]]
        },
{
    if let Some(m) = *meta {
        let all = kv_views(r->0.kv@);
        let (tags, props) = (m.tags.keys(), m.properties.keys());
        assert(all.len() == r->0.kv@.len());
        if 0 <= i < tags.len() {
            assert(all[i] == r->0.kv@[i]@);
        }
        if 0 <= i < props.len() {
            assert(all[tags.len() + i] == r->0.kv@[tags.len() + i]@);
        }
    }
}

/// Only the name of a metadata file gives a hash, and only the hash that it is of.
pub proof fn law_only_metadata_names_give_a_hash(name: Seq<char>)
    ensures
        hash_in_name(name) is Some <==> exists|hash: Seq<char>|
            hash.len() > 0 && name == hash + ".meta.json"@,
        hash_in_name(name) matches Some(h) ==> name == h + ".meta.json"@,
{
    let end = ".meta.json"@;
    if hash_in_name(name) is Some {
        let h = hash_in_name(name)->0;
        assert(name =~= h + name.subrange(name.len() - end.len(), name.len() as int));
        assert(h.len() > 0);
    }
    if exists|hash: Seq<char>| hash.len() > 0 && name == hash + end {
        let hash = choose|hash: Seq<char>| hash.len() > 0 && name == hash + end;
        assert(name.subrange(name.len() - end.len(), name.len() as int) =~= end);
        assert(name.take(name.len() - end.len()) =~= hash);
    }
}

/// A page is as long as asked for, and a hundred rows where nothing is asked; the last
/// two values of its statement are its length and where it starts, and the others are
/// those of the count.
pub proof fn law_page_is_as_long_as_asked(p: &QueryParams, r: Search)
    requires
        call_ensures(query, (p,), r),
    ensures
        ({
            let all = bind_views(r.rows.binds@);
            let n = all.len();
            &&& n == bind_views(r.count.binds@).len() + 2
            &&& all.take(n - 2) == bind_views(r.count.binds@)
            &&& p.limit > 0 ==> all[n - 2] == BindView::Int(p.limit as i64)
            &&& p.limit == 0 ==> all[n - 2] == BindView::Int(100)
            &&& all[n - 1] == BindView::Int(p.offset as i64)
        }),
{
    let all = bind_views(r.rows.binds@);
    assert(all.take(all.len() - 2) =~= bind_views(r.count.binds@));
}

/// The page of a filter is as long as asked for, and a hundred rows where nothing is
/// asked, and its other values are those of the count.
pub proof fn law_page_of_a_filter_is_as_long_as_asked(f: &Filter, r: Search)
    requires
        call_ensures(query_filter, (f,), r),
    ensures
        ({
            let all = bind_views(r.rows.binds@);
            let n = all.len();
            &&& n == bind_views(r.count.binds@).len() + 2
            &&& all.take(n - 2) == bind_views(r.count.binds@)
            &&& f.limit > 0 ==> all[n - 2] == BindView::Int(f.limit as i64)
            &&& f.limit == 0 ==> all[n - 2] == BindView::Int(100)
            &&& all[n - 1] == BindView::Int(f.offset as i64)
        }),
{
    let all = bind_views(r.rows.binds@);
    assert(all.take(all.len() - 2) =~= bind_views(r.count.binds@));
}

/// The rows of a page are those that are counted, by path; each gives its path, name,
/// hash, algorithm, size and time, and the kind and extension of its content.
pub proof fn law_page_is_of_what_is_counted(
    p: &QueryParams,
    f: &Filter,
    by_fields: Search,
    by_filter: Search,
)
    requires
        call_ensures(query, (p,), by_fields),
        call_ensures(query_filter, (f,), by_filter),
    ensures
        exists|conds: Seq<char>|
            by_fields.count.sql@ == #[trigger] counted("files f"@, conds) && by_fields.rows.sql@
                == paged(conds),
        exists|conds: Seq<char>|
            by_filter.count.sql@ == #[trigger] counted(
                "files f LEFT JOIN content c ON c.algo=f.algo AND c.hash=f.hash"@,
                conds,
            ) && by_filter.rows.sql@ == paged(conds),
{
    let conds = where_sql(p);
    let preds = " WHERE 1=1"@ + preds_sql(pred_views(f.preds@));
    reveal_strlit("SELECT COUNT(*) FROM files f");
    reveal_strlit("SELECT COUNT(*) FROM ");
    reveal_strlit("files f");
    reveal_strlit("files f LEFT JOIN content c ON c.algo=f.algo AND c.hash=f.hash");
    reveal_strlit(
        "SELECT COUNT(*) FROM files f LEFT JOIN content c ON c.algo=f.algo AND c.hash=f.hash",
    );
    reveal_strlit("f.path, f.name, f.hash, f.algo, f.size, f.mtime_ns");
    reveal_strlit("c.file_type, c.ext");
    reveal_strlit("SELECT ");
    reveal_strlit(", ");
    reveal_strlit(" FROM ");
    reveal_strlit(
        "SELECT f.path, f.name, f.hash, f.algo, f.size, f.mtime_ns, c.file_type, c.ext FROM files f LEFT JOIN content c ON c.algo=f.algo AND c.hash=f.hash",
    );
    reveal_strlit(" ORDER BY f.path LIMIT ? OFFSET ?");
    reveal_strlit(" ORDER BY f.path");
    reveal_strlit(" LIMIT ? OFFSET ?");
    assert("SELECT COUNT(*) FROM files f"@ =~= "SELECT COUNT(*) FROM "@ + "files f"@);
    assert("SELECT COUNT(*) FROM files f LEFT JOIN content c ON c.algo=f.algo AND c.hash=f.hash"@
        =~= "SELECT COUNT(*) FROM "@
        + "files f LEFT JOIN content c ON c.algo=f.algo AND c.hash=f.hash"@);
    assert(rows_from() =~= "SELECT "@ + "f.path, f.name, f.hash, f.algo, f.size, f.mtime_ns"@ + ", "@
        + "c.file_type, c.ext"@ + " FROM "@
        + "files f LEFT JOIN content c ON c.algo=f.algo AND c.hash=f.hash"@);
    assert(page_sql() =~= " ORDER BY f.path"@ + " LIMIT ? OFFSET ?"@);
    assert(by_fields.count.sql@ == counted("files f"@, conds));
    assert(by_fields.rows.sql@ =~= paged(conds));
    assert(by_filter.count.sql@ == counted(
        "files f LEFT JOIN content c ON c.algo=f.algo AND c.hash=f.hash"@,
        preds,
    ));
    assert(by_filter.rows.sql@ =~= paged(preds));
}

/// The text of a statement that counts the rows of the tables that meet a condition.
pub open spec fn counted(tables: Seq<char>, conds: Seq<char>) -> Seq<char> {
    "SELECT COUNT(*) FROM "@ + tables + conds
}

/// The text of a statement for a page of the files that meet a condition.
pub open spec fn paged(conds: Seq<char>) -> Seq<char> {
    "SELECT "@ + "f.path, f.name, f.hash, f.algo, f.size, f.mtime_ns"@ + ", "@
        + "c.file_type, c.ext"@ + " FROM "@
        + "files f LEFT JOIN content c ON c.algo=f.algo AND c.hash=f.hash"@ + conds
        + " ORDER BY f.path"@ + " LIMIT ? OFFSET ?"@
}

} // verus!
