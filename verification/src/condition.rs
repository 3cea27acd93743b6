//! What the conditions of a search of the index mean: a condition is read as the text
//! that it is, with the values of its `?` in order, and holds of a row or not.
use vstd::prelude::*;

use crate::sql::BindView;
use crate::text::{has_part, has_prefix, lower_char, lowered};

verus! {

/// A row that a search looks at: a file, what is known of its content, and the keys
/// and values that its content has.
pub struct SearchRow {
    pub path: Seq<char>,
    pub name: Seq<char>,
    pub dir: Seq<char>,
    pub hash: Seq<char>,
    pub algo: Seq<char>,
    pub size: i64,
    pub mtime_ns: i64,
    pub file_type: Option<Seq<char>>,
    pub ext: Option<Seq<char>>,
    pub meta: Seq<(Seq<char>, Seq<char>)>,
}

/// What follows a word at the start of a text.
pub open spec fn after(sql: Seq<char>, word: Seq<char>) -> Option<Seq<char>> {
    if has_prefix(sql, word) {
        Some(sql.skip(word.len() as int))
    } else {
        None
    }
}

/// The text matches the pattern: `%` stands for any text, `_` for any character, and
/// the case of ASCII letters does not count.
pub open spec fn like(text: Seq<char>, pattern: Seq<char>) -> bool
    decreases text.len() + pattern.len(),
{
    if pattern.len() == 0 {
        text.len() == 0
    } else if pattern[0] == '%' {
        like(text, pattern.skip(1)) || (text.len() > 0 && like(text.skip(1), pattern))
    } else {
        text.len() > 0 && (pattern[0] == '_' || lower_char(text[0]) == lower_char(pattern[0]))
            && like(text.skip(1), pattern.skip(1))
    }
}

/// Both hold, where what is unknown may be either.
pub open spec fn both(a: Option<bool>, b: Option<bool>) -> Option<bool> {
    if a == Some(false) || b == Some(false) {
        Some(false)
    } else if a is None || b is None {
        None
    } else {
        Some(true)
    }
}

/// One of two holds, where what is unknown may be either.
pub open spec fn either(a: Option<bool>, b: Option<bool>) -> Option<bool> {
    if a == Some(true) || b == Some(true) {
        Some(true)
    } else if a is None || b is None {
        None
    } else {
        Some(false)
    }
}

/// It does not hold; what is unknown stays so.
pub open spec fn opposite(a: Option<bool>) -> Option<bool> {
    match a {
        Some(t) => Some(!t),
        None => None,
    }
}

/// A value with what is left of the text and of the bound values.
pub type Operand = Option<(Option<Seq<char>>, Seq<char>, Seq<BindView>)>;

/// Whether something holds, with what is left of the text and of the bound values.
pub type Truth = Option<(Option<bool>, Seq<char>, Seq<BindView>)>;

/// The column with text that a text starts with: its value, and what follows.
pub open spec fn column(sql: Seq<char>, row: SearchRow, kv: (Seq<char>, Seq<char>)) -> Option<
    (Option<Seq<char>>, Seq<char>),
> {
    if has_prefix(sql, "f.name"@) {
        Some((Some(row.name), sql.skip(6)))
    } else if has_prefix(sql, "f.path"@) {
        Some((Some(row.path), sql.skip(6)))
    } else if has_prefix(sql, "f.dir"@) {
        Some((Some(row.dir), sql.skip(5)))
    } else if has_prefix(sql, "f.hash"@) {
        Some((Some(row.hash), sql.skip(6)))
    } else if has_prefix(sql, "f.algo"@) {
        Some((Some(row.algo), sql.skip(6)))
    } else if has_prefix(sql, "c.ext"@) {
        Some((row.ext, sql.skip(5)))
    } else if has_prefix(sql, "c.file_type"@) {
        Some((row.file_type, sql.skip(11)))
    } else if has_prefix(sql, "m.key"@) {
        Some((Some(kv.0), sql.skip(5)))
    } else if has_prefix(sql, "m.value"@) {
        Some((Some(kv.1), sql.skip(7)))
    } else {
        None
    }
}

/// The column with a number that a text starts with: its value, and what follows.
pub open spec fn number_column(sql: Seq<char>, row: SearchRow) -> Option<(i64, Seq<char>)> {
    if has_prefix(sql, "f.size"@) {
        Some((row.size, sql.skip(6)))
    } else if has_prefix(sql, "f.mtime_ns"@) {
        Some((row.mtime_ns, sql.skip(10)))
    } else {
        None
    }
}

/// A bound text or a column.
pub open spec fn plain_operand(
    sql: Seq<char>,
    binds: Seq<BindView>,
    row: SearchRow,
    kv: (Seq<char>, Seq<char>),
) -> Operand {
    match after(sql, "?"@) {
        Some(rest) => if binds.len() > 0 && binds[0] is Text {
            Some((Some(binds[0]->Text_0), rest, binds.skip(1)))
        } else {
            None
        },
        None => match column(sql, row, kv) {
            Some((v, rest)) => Some((v, rest, binds)),
            None => None,
        },
    }
}

/// An operand, or one whose missing value reads as empty.
pub open spec fn filled_operand(
    sql: Seq<char>,
    binds: Seq<BindView>,
    row: SearchRow,
    kv: (Seq<char>, Seq<char>),
) -> Operand {
    match after(sql, "COALESCE("@) {
        Some(inner) => match plain_operand(inner, binds, row, kv) {
            Some((v, end, b)) => match after(end, ",'')"@) {
                Some(rest) => Some((Some(present(v)), rest, b)),
                None => None,
            },
            None => None,
        },
        None => plain_operand(sql, binds, row, kv),
    }
}

/// A value, empty where it is missing.
pub open spec fn present(v: Option<Seq<char>>) -> Seq<char> {
    match v {
        Some(s) => s,
        None => Seq::empty(),
    }
}

/// An operand, or one in lower case.
pub open spec fn operand(
    sql: Seq<char>,
    binds: Seq<BindView>,
    row: SearchRow,
    kv: (Seq<char>, Seq<char>),
) -> Operand {
    match after(sql, "lower("@) {
        Some(inner) => match filled_operand(inner, binds, row, kv) {
            Some((v, end, b)) => match after(end, ")"@) {
                Some(rest) => Some(
                    (
                        match v {
                            Some(s) => Some(lowered(s)),
                            None => None,
                        },
                        rest,
                        b,
                    ),
                ),
                None => None,
            },
            None => None,
        },
        None => filled_operand(sql, binds, row, kv),
    }
}

/// Whether two values have a relation; unknown where one is missing.
pub open spec fn related(
    a: Option<Seq<char>>,
    b: Option<Seq<char>>,
    f: spec_fn(Seq<char>, Seq<char>) -> bool,
) -> Option<bool> {
    if a is Some && b is Some {
        Some(f(a->0, b->0))
    } else {
        None
    }
}

/// Where a text stands in another, behind `instr(`.
pub open spec fn position(
    sql: Seq<char>,
    binds: Seq<BindView>,
    row: SearchRow,
    kv: (Seq<char>, Seq<char>),
) -> Truth {
    match operand(sql, binds, row, kv) {
        Some((a, mid, b)) => match after(mid, ", "@) {
            Some(next) => match operand(next, b, row, kv) {
                Some((c, end, left)) => match after(end, ")>0"@) {
                    Some(rest) => Some(
                        (
                            related(a, c, |s: Seq<char>, t: Seq<char>| has_part(s, t)),
                            rest,
                            left,
                        ),
                    ),
                    None => match after(end, ")=1"@) {
                        Some(rest) => Some(
                            (
                                related(a, c, |s: Seq<char>, t: Seq<char>| has_prefix(s, t)),
                                rest,
                                left,
                            ),
                        ),
                        None => None,
                    },
                },
                None => None,
            },
            None => None,
        },
        None => None,
    }
}

/// How a number compares with a bound one.
pub open spec fn order(n: i64, sql: Seq<char>, binds: Seq<BindView>) -> Truth {
    if !(binds.len() > 0 && binds[0] is Int) {
        None
    } else {
        let v = binds[0]->Int_0;
        if has_prefix(sql, " >= ?"@) {
            Some((Some(n >= v), sql.skip(5), binds.skip(1)))
        } else if has_prefix(sql, " <= ?"@) {
            Some((Some(n <= v), sql.skip(5), binds.skip(1)))
        } else if has_prefix(sql, " < ?"@) {
            Some((Some(n < v), sql.skip(4), binds.skip(1)))
        } else if has_prefix(sql, " > ?"@) {
            Some((Some(n > v), sql.skip(4), binds.skip(1)))
        } else {
            None
        }
    }
}

/// Whether a value equals another or is like a pattern, which `|| '%'` makes longer.
pub open spec fn equality(
    a: Option<Seq<char>>,
    sql: Seq<char>,
    binds: Seq<BindView>,
    row: SearchRow,
    kv: (Seq<char>, Seq<char>),
) -> Truth {
    match after(sql, "="@) {
        Some(next) => match operand(next, binds, row, kv) {
            Some((b, rest, left)) => Some(
                (related(a, b, |s: Seq<char>, t: Seq<char>| s == t), rest, left),
            ),
            None => None,
        },
        None => match after(sql, " LIKE "@) {
            Some(next) => match operand(next, binds, row, kv) {
                Some((b, end, left)) => match after(end, " || '%'"@) {
                    Some(rest) => Some(
                        (
                            related(a, b, |s: Seq<char>, t: Seq<char>| like(s, t.push('%'))),
                            rest,
                            left,
                        ),
                    ),
                    None => Some(
                        (related(a, b, |s: Seq<char>, t: Seq<char>| like(s, t)), end, left),
                    ),
                },
                None => None,
            },
            None => None,
        },
    }
}

/// A comparison.
pub open spec fn comparison(
    sql: Seq<char>,
    binds: Seq<BindView>,
    row: SearchRow,
    kv: (Seq<char>, Seq<char>),
) -> Truth {
    match after(sql, "1=1"@) {
        Some(rest) => Some((Some(true), rest, binds)),
        None => match after(sql, "instr("@) {
            Some(rest) => position(rest, binds, row, kv),
            None => match number_column(sql, row) {
                Some((n, rest)) => order(n, rest, binds),
                None => match operand(sql, binds, row, kv) {
                    Some((a, rest, b)) => equality(a, rest, b, row, kv),
                    None => None,
                },
            },
        },
    }
}

/// Comparisons with `AND` between them.
pub open spec fn comparisons(
    sql: Seq<char>,
    binds: Seq<BindView>,
    row: SearchRow,
    kv: (Seq<char>, Seq<char>),
) -> Truth
    decreases sql.len(),
{
    match comparison(sql, binds, row, kv) {
        Some((t, rest, b)) => match after(rest, " AND "@) {
            Some(more) => if more.len() < sql.len() {
                match comparisons(more, b, row, kv) {
                    Some((u, end, left)) => Some((both(t, u), end, left)),
                    None => None,
                }
            } else {
                None
            },
            None => Some((t, rest, b)),
        },
        None => None,
    }
}

/// How a condition on the keys and values of a row's content begins.
pub open spec fn exists_word() -> Seq<char> {
    "EXISTS (SELECT 1 FROM meta_kv m WHERE m.algo=f.algo AND m.hash=f.hash"@
}

/// The comparisons hold of a key and value.
pub open spec fn holds_of(
    sql: Seq<char>,
    binds: Seq<BindView>,
    row: SearchRow,
    kv: (Seq<char>, Seq<char>),
) -> bool {
    match comparisons(sql, binds, row, kv) {
        Some((t, _, _)) => t == Some(true),
        None => false,
    }
}

/// A comparison, or whether one of the keys and values meets comparisons.
pub open spec fn factor(sql: Seq<char>, binds: Seq<BindView>, row: SearchRow) -> Truth {
    let none = (Seq::<char>::empty(), Seq::<char>::empty());
    match after(sql, exists_word()) {
        Some(next) => match after(next, " AND "@) {
            Some(conds) => match comparisons(conds, binds, row, none) {
                Some((_, end, left)) => match after(end, ")"@) {
                    Some(rest) => Some(
                        (
                            Some(
                                exists|i: int|
                                    0 <= i < row.meta.len() && #[trigger] holds_of(
                                        conds,
                                        binds,
                                        row,
                                        row.meta[i],
                                    ),
                            ),
                            rest,
                            left,
                        ),
                    ),
                    None => None,
                },
                None => None,
            },
            None => None,
        },
        None => comparison(sql, binds, row, none),
    }
}

/// Factors with `AND` between them.
pub open spec fn all_of(sql: Seq<char>, binds: Seq<BindView>, row: SearchRow) -> Truth
    decreases sql.len(),
{
    match factor(sql, binds, row) {
        Some((t, rest, b)) => match after(rest, " AND "@) {
            Some(more) => if more.len() < sql.len() {
                match all_of(more, b, row) {
                    Some((u, end, left)) => Some((both(t, u), end, left)),
                    None => None,
                }
            } else {
                None
            },
            None => Some((t, rest, b)),
        },
        None => None,
    }
}

/// What `AND` joins, with `OR` between.
pub open spec fn any_of(sql: Seq<char>, binds: Seq<BindView>, row: SearchRow) -> Truth
    decreases sql.len(),
{
    match all_of(sql, binds, row) {
        Some((t, rest, b)) => match after(rest, " OR "@) {
            Some(more) => if more.len() < sql.len() {
                match any_of(more, b, row) {
                    Some((u, end, left)) => Some((either(t, u), end, left)),
                    None => None,
                }
            } else {
                None
            },
            None => Some((t, rest, b)),
        },
        None => None,
    }
}

/// What stands in brackets, what stands in brackets behind `NOT`, or a factor.
pub open spec fn term(sql: Seq<char>, binds: Seq<BindView>, row: SearchRow) -> Truth {
    match after(sql, "NOT ("@) {
        Some(inner) => match any_of(inner, binds, row) {
            Some((t, end, left)) => match after(end, ")"@) {
                Some(rest) => Some((opposite(t), rest, left)),
                None => None,
            },
            None => None,
        },
        None => match after(sql, "("@) {
            Some(inner) => match any_of(inner, binds, row) {
                Some((t, end, left)) => match after(end, ")"@) {
                    Some(rest) => Some((t, rest, left)),
                    None => None,
                },
                None => None,
            },
            None => factor(sql, binds, row),
        },
    }
}

/// Terms, each behind an `AND`: all of them hold, and every bound value is used.
pub open spec fn meets(sql: Seq<char>, binds: Seq<BindView>, row: SearchRow) -> bool
    decreases sql.len(),
{
    if sql.len() == 0 {
        binds.len() == 0
    } else {
        match after(sql, " AND "@) {
            Some(next) => match term(next, binds, row) {
                Some((t, rest, left)) => t == Some(true) && rest.len() < sql.len() && meets(
                    rest,
                    left,
                    row,
                ),
                None => false,
            },
            None => false,
        }
    }
}

/// The row is one that the conditions of a search select.
pub open spec fn selects(sql: Seq<char>, binds: Seq<BindView>, row: SearchRow) -> bool {
    match after(sql, " WHERE 1=1"@) {
        Some(rest) => meets(rest, binds, row),
        None => false,
    }
}

// ---- reading words ---------------------------------------------------------

pub proof fn lemma_after(word: Seq<char>, rest: Seq<char>)
    ensures
        has_prefix(word + rest, word),
        (word + rest).skip(word.len() as int) == rest,
        after(word + rest, word) == Some(rest),
{
    assert((word + rest).subrange(0, word.len() as int) =~= word);
    assert((word + rest).skip(word.len() as int) =~= rest);
}

/// A text does not start with a word from which it differs in a character.
pub proof fn lemma_not_after(sql: Seq<char>, word: Seq<char>, k: int)
    requires
        0 <= k < word.len(),
        k < sql.len() ==> sql[k] != word[k],
    ensures
        !has_prefix(sql, word),
        after(sql, word) is None,
{
    if has_prefix(sql, word) {
        assert(sql.subrange(0, word.len() as int)[k] == sql[k]);
    }
}

pub proof fn lemma_starts(sql: Seq<char>)
    requires
        sql.len() > 0,
    ensures
        sql[0] != 'N' ==> after(sql, "NOT ("@) is None,
        sql[0] != '(' ==> after(sql, "("@) is None,
        sql[0] != 'E' ==> after(sql, exists_word()) is None,
        sql[0] != '1' ==> after(sql, "1=1"@) is None,
        sql[0] != 'i' ==> after(sql, "instr("@) is None,
        sql[0] != 'l' ==> after(sql, "lower("@) is None,
        sql[0] != 'C' ==> after(sql, "COALESCE("@) is None,
        sql[0] != '?' ==> after(sql, "?"@) is None,
        sql[0] != 'f' ==> !has_prefix(sql, "f.size"@) && !has_prefix(sql, "f.mtime_ns"@),
{
    reveal_strlit("NOT (");
    reveal_strlit("(");
    reveal_strlit("EXISTS (SELECT 1 FROM meta_kv m WHERE m.algo=f.algo AND m.hash=f.hash");
    reveal_strlit("1=1");
    reveal_strlit("instr(");
    reveal_strlit("lower(");
    reveal_strlit("COALESCE(");
    reveal_strlit("?");
    reveal_strlit("f.size");
    reveal_strlit("f.mtime_ns");
    if sql[0] != 'N' {
        lemma_not_after(sql, "NOT ("@, 0);
    }
    if sql[0] != '(' {
        lemma_not_after(sql, "("@, 0);
    }
    if sql[0] != 'E' {
        lemma_not_after(sql, exists_word(), 0);
    }
    if sql[0] != '1' {
        lemma_not_after(sql, "1=1"@, 0);
    }
    if sql[0] != 'i' {
        lemma_not_after(sql, "instr("@, 0);
    }
    if sql[0] != 'l' {
        lemma_not_after(sql, "lower("@, 0);
    }
    if sql[0] != 'C' {
        lemma_not_after(sql, "COALESCE("@, 0);
    }
    if sql[0] != '?' {
        lemma_not_after(sql, "?"@, 0);
    }
    if sql[0] != 'f' {
        lemma_not_after(sql, "f.size"@, 0);
        lemma_not_after(sql, "f.mtime_ns"@, 0);
    }
}

/// The words of the columns are read as the columns.
pub proof fn lemma_columns(rest: Seq<char>, row: SearchRow, kv: (Seq<char>, Seq<char>))
    ensures
        column("f.name"@ + rest, row, kv) == Some((Some(row.name), rest)),
        column("f.path"@ + rest, row, kv) == Some((Some(row.path), rest)),
        column("f.dir"@ + rest, row, kv) == Some((Some(row.dir), rest)),
        column("f.hash"@ + rest, row, kv) == Some((Some(row.hash), rest)),
        column("f.algo"@ + rest, row, kv) == Some((Some(row.algo), rest)),
        column("c.ext"@ + rest, row, kv) == Some((row.ext, rest)),
        column("c.file_type"@ + rest, row, kv) == Some((row.file_type, rest)),
        column("m.key"@ + rest, row, kv) == Some((Some(kv.0), rest)),
        column("m.value"@ + rest, row, kv) == Some((Some(kv.1), rest)),
        number_column("f.size"@ + rest, row) == Some((row.size, rest)),
        number_column("f.mtime_ns"@ + rest, row) == Some((row.mtime_ns, rest)),
        number_column("f.name"@ + rest, row) is None,
        number_column("f.path"@ + rest, row) is None,
        number_column("f.dir"@ + rest, row) is None,
        number_column("f.hash"@ + rest, row) is None,
        number_column("f.algo"@ + rest, row) is None,
{
    reveal_strlit("f.name");
    reveal_strlit("f.path");
    reveal_strlit("f.dir");
    reveal_strlit("f.hash");
    reveal_strlit("f.algo");
    reveal_strlit("c.ext");
    reveal_strlit("c.file_type");
    reveal_strlit("m.key");
    reveal_strlit("m.value");
    reveal_strlit("f.size");
    reveal_strlit("f.mtime_ns");
    let (n, p, d, h, a) = ("f.name"@, "f.path"@, "f.dir"@, "f.hash"@, "f.algo"@);
    let (e, t, k, v) = ("c.ext"@, "c.file_type"@, "m.key"@, "m.value"@);
    let (s, m) = ("f.size"@, "f.mtime_ns"@);
    lemma_after(n, rest);
    lemma_after(p, rest);
    lemma_after(d, rest);
    lemma_after(h, rest);
    lemma_after(a, rest);
    lemma_after(e, rest);
    lemma_after(t, rest);
    lemma_after(k, rest);
    lemma_after(v, rest);
    lemma_after(s, rest);
    lemma_after(m, rest);
    assert forall|w: Seq<char>| w == n || w == p || w == d || w == h || w == a implies
        number_column(#[trigger] (w + rest), row) is None by {
        lemma_not_after(w + rest, s, 2);
        lemma_not_after(w + rest, m, 2);
    }
    lemma_not_after(m + rest, s, 2);
    lemma_not_after(p + rest, n, 2);
    lemma_not_after(d + rest, n, 2);
    lemma_not_after(d + rest, p, 2);
    lemma_not_after(h + rest, n, 2);
    lemma_not_after(h + rest, p, 2);
    lemma_not_after(h + rest, d, 2);
    lemma_not_after(a + rest, n, 2);
    lemma_not_after(a + rest, p, 2);
    lemma_not_after(a + rest, d, 2);
    lemma_not_after(a + rest, h, 2);
    assert forall|w: Seq<char>| w == e || w == t || w == k || w == v implies !has_prefix(
        #[trigger] (w + rest),
        n,
    ) && !has_prefix(w + rest, p) && !has_prefix(w + rest, d) && !has_prefix(w + rest, h)
        && !has_prefix(w + rest, a) by {
        lemma_not_after(w + rest, n, 0);
        lemma_not_after(w + rest, p, 0);
        lemma_not_after(w + rest, d, 0);
        lemma_not_after(w + rest, h, 0);
        lemma_not_after(w + rest, a, 0);
    }
    lemma_not_after(t + rest, e, 2);
    lemma_not_after(k + rest, e, 0);
    lemma_not_after(k + rest, t, 0);
    lemma_not_after(v + rest, e, 0);
    lemma_not_after(v + rest, t, 0);
    lemma_not_after(v + rest, k, 2);
}

/// `word` is the word of a column that holds `value`.
pub open spec fn is_column(
    word: Seq<char>,
    value: Option<Seq<char>>,
    row: SearchRow,
    kv: (Seq<char>, Seq<char>),
) -> bool {
    ||| word == "f.name"@ && value == Some(row.name)
    ||| word == "f.path"@ && value == Some(row.path)
    ||| word == "f.dir"@ && value == Some(row.dir)
    ||| word == "f.hash"@ && value == Some(row.hash)
    ||| word == "f.algo"@ && value == Some(row.algo)
    ||| word == "c.ext"@ && value == row.ext
    ||| word == "c.file_type"@ && value == row.file_type
    ||| word == "m.key"@ && value == Some(kv.0)
    ||| word == "m.value"@ && value == Some(kv.1)
}

/// How a column is read.
pub proof fn lemma_column_alone(
    word: Seq<char>,
    value: Option<Seq<char>>,
    rest: Seq<char>,
    binds: Seq<BindView>,
    row: SearchRow,
    kv: (Seq<char>, Seq<char>),
)
    requires
        is_column(word, value, row, kv),
    ensures
        word.len() > 0,
        word[0] == 'f' || word[0] == 'c' || word[0] == 'm',
        plain_operand(word + rest, binds, row, kv) == Some((value, rest, binds)),
        filled_operand(word + rest, binds, row, kv) == Some((value, rest, binds)),
        operand(word + rest, binds, row, kv) == Some((value, rest, binds)),
        number_column(word + rest, row) is None,
{
    reveal_strlit("f.name");
    reveal_strlit("f.path");
    reveal_strlit("f.dir");
    reveal_strlit("f.hash");
    reveal_strlit("f.algo");
    reveal_strlit("c.ext");
    reveal_strlit("c.file_type");
    reveal_strlit("m.key");
    reveal_strlit("m.value");
    assert(word.len() > 0 && (word[0] == 'f' || word[0] == 'c' || word[0] == 'm'));
    assert((word + rest)[0] == word[0]);
    lemma_columns(rest, row, kv);
    lemma_starts(word + rest);
}

/// How a column is read whose missing value reads as empty.
pub proof fn lemma_column_filled(
    word: Seq<char>,
    value: Option<Seq<char>>,
    rest: Seq<char>,
    binds: Seq<BindView>,
    row: SearchRow,
    kv: (Seq<char>, Seq<char>),
)
    requires
        is_column(word, value, row, kv),
    ensures
        filled_operand("COALESCE("@ + (word + (",'')"@ + rest)), binds, row, kv) == Some(
            (Some(present(value)), rest, binds),
        ),
        operand("COALESCE("@ + (word + (",'')"@ + rest)), binds, row, kv) == Some(
            (Some(present(value)), rest, binds),
        ),
{
    let tail = ",'')"@ + rest;
    lemma_column_alone(word, value, tail, binds, row, kv);
    lemma_after("COALESCE("@, word + tail);
    lemma_after(",'')"@, rest);
    assert(("COALESCE("@ + (word + tail))[0] == 'C') by {
        reveal_strlit("COALESCE(");
    }
    lemma_starts("COALESCE("@ + (word + tail));
}

/// How a column is read in lower case.
pub proof fn lemma_column_lowered(
    word: Seq<char>,
    value: Option<Seq<char>>,
    rest: Seq<char>,
    binds: Seq<BindView>,
    row: SearchRow,
    kv: (Seq<char>, Seq<char>),
)
    requires
        is_column(word, value, row, kv),
    ensures
        operand("lower(COALESCE("@ + word + ",''))"@ + rest, binds, row, kv) == Some(
            (Some(lowered(present(value))), rest, binds),
        ),
        value is Some ==> operand("lower("@ + (word + (")"@ + rest)), binds, row, kv) == Some(
            (Some(lowered(value->0)), rest, binds),
        ),
{
    let closed = ")"@ + rest;
    let inner = "COALESCE("@ + (word + (",'')"@ + closed));
    assert("lower(COALESCE("@ + word + ",''))"@ + rest =~= "lower("@ + inner) by {
        reveal_strlit("lower(");
        reveal_strlit("COALESCE(");
        reveal_strlit("lower(COALESCE(");
        reveal_strlit(",'')");
        reveal_strlit(",''))");
        reveal_strlit(")");
        assert("lower(COALESCE("@ =~= "lower("@ + "COALESCE("@);
        assert(",''))"@ =~= ",'')"@ + ")"@);
    }
    lemma_column_filled(word, value, closed, binds, row, kv);
    lemma_after("lower("@, inner);
    lemma_after(")"@, rest);
    lemma_column_alone(word, value, closed, binds, row, kv);
    lemma_after("lower("@, word + closed);
}

/// How a bound text is read, alone or in lower case.
pub proof fn lemma_bound_operand(
    needle: Seq<char>,
    rest: Seq<char>,
    binds: Seq<BindView>,
    row: SearchRow,
    kv: (Seq<char>, Seq<char>),
)
    requires
        binds.len() > 0,
        binds[0] == BindView::Text(needle),
    ensures
        operand("?"@ + rest, binds, row, kv) == Some((Some(needle), rest, binds.skip(1))),
        operand("lower(?)"@ + rest, binds, row, kv) == Some(
            (Some(lowered(needle)), rest, binds.skip(1)),
        ),
{
    reveal_strlit("?");
    reveal_strlit("lower(");
    reveal_strlit("lower(?)");
    reveal_strlit(")");
    lemma_after("?"@, rest);
    lemma_starts("?"@ + rest);
    let closed = ")"@ + rest;
    assert("lower(?)"@ + rest =~= "lower("@ + ("?"@ + closed));
    lemma_after("lower("@, "?"@ + closed);
    lemma_after("?"@, closed);
    lemma_starts("?"@ + closed);
    lemma_after(")"@, rest);
}

// ---- reading conditions ----------------------------------------------------

/// How a number is compared with a bound one.
proof fn lemma_order(n: i64, v: i64, rest: Seq<char>, binds: Seq<BindView>)
    requires
        binds.len() > 0,
        binds[0] == BindView::Int(v),
    ensures
        order(n, " >= ?"@ + rest, binds) == Some((Some(n >= v), rest, binds.skip(1))),
        order(n, " <= ?"@ + rest, binds) == Some((Some(n <= v), rest, binds.skip(1))),
        order(n, " < ?"@ + rest, binds) == Some((Some(n < v), rest, binds.skip(1))),
{
    reveal_strlit(" >= ?");
    reveal_strlit(" <= ?");
    reveal_strlit(" < ?");
    lemma_after(" >= ?"@, rest);
    lemma_after(" <= ?"@, rest);
    lemma_after(" < ?"@, rest);
    lemma_not_after(" <= ?"@ + rest, " >= ?"@, 1);
    lemma_not_after(" < ?"@ + rest, " >= ?"@, 1);
    lemma_not_after(" < ?"@ + rest, " <= ?"@, 2);
}

/// `word` is the word of a column that holds the number `n`.
pub open spec fn is_number_column(word: Seq<char>, n: i64, row: SearchRow) -> bool {
    ||| word == "f.size"@ && n == row.size
    ||| word == "f.mtime_ns"@ && n == row.mtime_ns
}

/// How the comparison of a number column is read.
pub proof fn lemma_number_comparison(
    word: Seq<char>,
    n: i64,
    v: i64,
    rest: Seq<char>,
    binds: Seq<BindView>,
    row: SearchRow,
)
    requires
        is_number_column(word, n, row),
        binds.len() > 0,
        binds[0] == BindView::Int(v),
    ensures
        word.len() > 0,
        word[0] == 'f',
        factor(word + (" >= ?"@ + rest), binds, row) == Some((Some(n >= v), rest, binds.skip(1))),
        factor(word + (" <= ?"@ + rest), binds, row) == Some((Some(n <= v), rest, binds.skip(1))),
        factor(word + (" < ?"@ + rest), binds, row) == Some((Some(n < v), rest, binds.skip(1))),
{
    let none = (Seq::<char>::empty(), Seq::<char>::empty());
    reveal_strlit("f.size");
    reveal_strlit("f.mtime_ns");
    lemma_order(n, v, rest, binds);
    let (ge, le, lt) = (" >= ?"@ + rest, " <= ?"@ + rest, " < ?"@ + rest);
    assert(word[0] == 'f');
    lemma_columns(ge, row, none);
    lemma_starts(word + ge);
    lemma_columns(le, row, none);
    lemma_starts(word + le);
    lemma_columns(lt, row, none);
    lemma_starts(word + lt);
}

/// A condition goes on behind a term that is read.
pub proof fn lemma_step(
    next: Seq<char>,
    binds: Seq<BindView>,
    row: SearchRow,
    t: bool,
    rest: Seq<char>,
    left: Seq<BindView>,
)
    requires
        term(next, binds, row) == Some((Some(t), rest, left)),
        rest.len() <= next.len(),
    ensures
        meets(" AND "@ + next, binds, row) == (t && meets(rest, left, row)),
{
    reveal_strlit(" AND ");
    lemma_after(" AND "@, next);
}

/// What a condition on a number column means.
pub proof fn lemma_number_condition(
    word: Seq<char>,
    n: i64,
    v: i64,
    rest: Seq<char>,
    binds: Seq<BindView>,
    row: SearchRow,
)
    requires
        is_number_column(word, n, row),
        binds.len() > 0,
        binds[0] == BindView::Int(v),
    ensures
        meets(" AND "@ + (word + (" >= ?"@ + rest)), binds, row) == (n >= v && meets(
            rest,
            binds.skip(1),
            row,
        )),
        meets(" AND "@ + (word + (" <= ?"@ + rest)), binds, row) == (n <= v && meets(
            rest,
            binds.skip(1),
            row,
        )),
{
    lemma_number_comparison(word, n, v, rest, binds, row);
    let (ge, le) = (word + (" >= ?"@ + rest), word + (" <= ?"@ + rest));
    lemma_starts(ge);
    lemma_starts(le);
    lemma_step(ge, binds, row, n >= v, rest, binds.skip(1));
    lemma_step(le, binds, row, n <= v, rest, binds.skip(1));
}

/// What the condition on a part of the name means.
pub proof fn lemma_name_condition(
    needle: Seq<char>,
    rest: Seq<char>,
    binds: Seq<BindView>,
    row: SearchRow,
)
    requires
        binds.len() > 0,
        binds[0] == BindView::Text(needle),
    ensures
        meets(" AND instr(lower(f.name), lower(?))>0"@ + rest, binds, row) == (has_part(
            lowered(row.name),
            lowered(needle),
        ) && meets(rest, binds.skip(1), row)),
{
    let none = (Seq::<char>::empty(), Seq::<char>::empty());
    let end = ")>0"@ + rest;
    let second = "lower(?)"@ + end;
    let mid = ", "@ + second;
    let first = "lower("@ + ("f.name"@ + (")"@ + mid));
    let next = "instr("@ + first;
    assert(" AND instr(lower(f.name), lower(?))>0"@ + rest =~= " AND "@ + next) by {
        reveal_strlit(" AND instr(lower(f.name), lower(?))>0");
        reveal_strlit(" AND ");
        reveal_strlit("instr(");
        reveal_strlit("lower(");
        reveal_strlit("f.name");
        reveal_strlit(")");
        reveal_strlit(", ");
        reveal_strlit("lower(?)");
        reveal_strlit(")>0");
        assert(" AND instr(lower(f.name), lower(?))>0"@ =~= " AND "@ + "instr("@ + "lower("@
            + "f.name"@ + ")"@ + ", "@ + "lower(?)"@ + ")>0"@);
    }
    lemma_after("instr("@, first);
    lemma_column_lowered("f.name"@, Some(row.name), mid, binds, row, none);
    lemma_after(", "@, second);
    lemma_bound_operand(needle, end, binds, row, none);
    lemma_after(")>0"@, rest);
    assert(next[0] == 'i') by {
        reveal_strlit("instr(");
    }
    lemma_starts(next);
    lemma_step(
        next,
        binds,
        row,
        has_part(lowered(row.name), lowered(needle)),
        rest,
        binds.skip(1),
    );
}

/// What the condition on the start of the hash means.
pub proof fn lemma_hash_condition(
    start: Seq<char>,
    rest: Seq<char>,
    binds: Seq<BindView>,
    row: SearchRow,
)
    requires
        binds.len() > 0,
        binds[0] == BindView::Text(start),
    ensures
        meets(" AND f.hash LIKE ? || '%'"@ + rest, binds, row) == (like(row.hash, start.push('%'))
            && meets(rest, binds.skip(1), row)),
{
    let none = (Seq::<char>::empty(), Seq::<char>::empty());
    let end = " || '%'"@ + rest;
    let mark = "?"@ + end;
    let tail = " LIKE "@ + mark;
    let next = "f.hash"@ + tail;
    assert(" AND f.hash LIKE ? || '%'"@ + rest =~= " AND "@ + next) by {
        reveal_strlit(" AND f.hash LIKE ? || '%'");
        reveal_strlit(" AND ");
        reveal_strlit("f.hash");
        reveal_strlit(" LIKE ");
        reveal_strlit("?");
        reveal_strlit(" || '%'");
        assert(" AND f.hash LIKE ? || '%'"@ =~= " AND "@ + "f.hash"@ + " LIKE "@ + "?"@
            + " || '%'"@);
    }
    lemma_column_alone("f.hash"@, Some(row.hash), tail, binds, row, none);
    assert(tail[0] == ' ' && "="@.len() == 1 && "="@[0] == '=') by {
        reveal_strlit(" LIKE ");
        reveal_strlit("=");
    }
    lemma_not_after(tail, "="@, 0);
    lemma_after(" LIKE "@, mark);
    lemma_bound_operand(start, end, binds, row, none);
    lemma_after(" || '%'"@, rest);
    assert(next[0] == 'f') by {
        reveal_strlit("f.hash");
    }
    lemma_starts(next);
    lemma_step(next, binds, row, like(row.hash, start.push('%')), rest, binds.skip(1));
}

/// How the comparison of a column with a bound text is read.
proof fn lemma_equal_comparison(
    word: Seq<char>,
    value: Seq<char>,
    needle: Seq<char>,
    rest: Seq<char>,
    binds: Seq<BindView>,
    row: SearchRow,
    kv: (Seq<char>, Seq<char>),
)
    requires
        is_column(word, Some(value), row, kv),
        binds.len() > 0,
        binds[0] == BindView::Text(needle),
    ensures
        comparison(word + ("="@ + ("?"@ + rest)), binds, row, kv) == Some(
            (Some(value == needle), rest, binds.skip(1)),
        ),
{
    let tail = "="@ + ("?"@ + rest);
    lemma_column_alone(word, Some(value), tail, binds, row, kv);
    lemma_after("="@, "?"@ + rest);
    lemma_bound_operand(needle, rest, binds, row, kv);
    lemma_starts(word + tail);
}

/// What the condition on a key means.
pub proof fn lemma_key_condition(
    key: Seq<char>,
    rest: Seq<char>,
    binds: Seq<BindView>,
    row: SearchRow,
)
    requires
        binds.len() > 0,
        binds[0] == BindView::Text(key),
    ensures
        meets(
            " AND EXISTS (SELECT 1 FROM meta_kv m WHERE m.algo=f.algo AND m.hash=f.hash AND m.key=?)"@
                + rest,
            binds,
            row,
        ) == ((exists|i: int| 0 <= i < row.meta.len() && (#[trigger] row.meta[i]).0 == key)
            && meets(rest, binds.skip(1), row)),
{
    let none = (Seq::<char>::empty(), Seq::<char>::empty());
    let end = ")"@ + rest;
    let conds = "m.key"@ + ("="@ + ("?"@ + end));
    let next = exists_word() + (" AND "@ + conds);
    let whole = " AND EXISTS (SELECT 1 FROM meta_kv m WHERE m.algo=f.algo AND m.hash=f.hash AND m.key=?)"@;
    assert(whole + rest =~= " AND "@ + next) by {
        reveal_strlit(
            " AND EXISTS (SELECT 1 FROM meta_kv m WHERE m.algo=f.algo AND m.hash=f.hash AND m.key=?)",
        );
        reveal_strlit("EXISTS (SELECT 1 FROM meta_kv m WHERE m.algo=f.algo AND m.hash=f.hash");
        reveal_strlit(" AND ");
        reveal_strlit("m.key");
        reveal_strlit("=");
        reveal_strlit("?");
        reveal_strlit(")");
        assert(whole =~= " AND "@ + exists_word() + " AND "@ + "m.key"@ + "="@ + "?"@ + ")"@);
    }
    lemma_after(exists_word(), " AND "@ + conds);
    lemma_after(" AND "@, conds);
    lemma_after(")"@, rest);
    assert(end[0] == ')' && " AND "@.len() == 5 && " AND "@[0] == ' ') by {
        reveal_strlit(")");
        reveal_strlit(" AND ");
    }
    lemma_not_after(end, " AND "@, 0);
    assert forall|kv: (Seq<char>, Seq<char>)| #[trigger] comparisons(conds, binds, row, kv) == Some(
        (Some(kv.0 == key), end, binds.skip(1)),
    ) by {
        lemma_equal_comparison("m.key"@, kv.0, key, end, binds, row, kv);
    }
    assert(comparisons(conds, binds, row, none) is Some);
    let found = exists|i: int| 0 <= i < row.meta.len() && (#[trigger] row.meta[i]).0 == key;
    let read = exists|i: int|
        0 <= i < row.meta.len() && #[trigger] holds_of(conds, binds, row, row.meta[i]);
    if found {
        let i = choose|i: int| 0 <= i < row.meta.len() && (#[trigger] row.meta[i]).0 == key;
        assert(holds_of(conds, binds, row, row.meta[i]));
    }
    assert(found == read);
    assert(next[0] == 'E') by {
        reveal_strlit("EXISTS (SELECT 1 FROM meta_kv m WHERE m.algo=f.algo AND m.hash=f.hash");
    }
    lemma_starts(next);
    lemma_step(next, binds, row, found, rest, binds.skip(1));
}

/// What the condition on a key and its value means.
pub proof fn lemma_value_condition(
    key: Seq<char>,
    value: Seq<char>,
    rest: Seq<char>,
    binds: Seq<BindView>,
    row: SearchRow,
)
    requires
        binds.len() > 1,
        binds[0] == BindView::Text(key),
        binds[1] == BindView::Text(value),
    ensures
        meets(
            " AND EXISTS (SELECT 1 FROM meta_kv m WHERE m.algo=f.algo AND m.hash=f.hash AND m.key=? AND m.value=?)"@
                + rest,
            binds,
            row,
        ) == ((exists|i: int|
            0 <= i < row.meta.len() && (#[trigger] row.meta[i]).0 == key && row.meta[i].1 == value)
            && meets(rest, binds.skip(2), row)),
{
    let none = (Seq::<char>::empty(), Seq::<char>::empty());
    let end = ")"@ + rest;
    let second = "m.value"@ + ("="@ + ("?"@ + end));
    let conds = "m.key"@ + ("="@ + ("?"@ + (" AND "@ + second)));
    let next = exists_word() + (" AND "@ + conds);
    let whole = " AND EXISTS (SELECT 1 FROM meta_kv m WHERE m.algo=f.algo AND m.hash=f.hash AND m.key=? AND m.value=?)"@;
    assert(whole + rest =~= " AND "@ + next) by {
        reveal_strlit(
            " AND EXISTS (SELECT 1 FROM meta_kv m WHERE m.algo=f.algo AND m.hash=f.hash AND m.key=? AND m.value=?)",
        );
        reveal_strlit("EXISTS (SELECT 1 FROM meta_kv m WHERE m.algo=f.algo AND m.hash=f.hash");
        reveal_strlit(" AND ");
        reveal_strlit("m.key");
        reveal_strlit("m.value");
        reveal_strlit("=");
        reveal_strlit("?");
        reveal_strlit(")");
        assert(whole =~= " AND "@ + exists_word() + " AND "@ + "m.key"@ + "="@ + "?"@ + " AND "@
            + "m.value"@ + "="@ + "?"@ + ")"@);
    }
    lemma_after(exists_word(), " AND "@ + conds);
    lemma_after(" AND "@, conds);
    lemma_after(" AND "@, second);
    lemma_after(")"@, rest);
    assert(end[0] == ')' && " AND "@.len() == 5 && " AND "@[0] == ' ') by {
        reveal_strlit(")");
        reveal_strlit(" AND ");
    }
    lemma_not_after(end, " AND "@, 0);
    let left = binds.skip(1);
    assert(left[0] == BindView::Text(value));
    assert(left.skip(1) =~= binds.skip(2));
    assert forall|kv: (Seq<char>, Seq<char>)| #[trigger] comparisons(conds, binds, row, kv) == Some(
        (Some(kv.0 == key && kv.1 == value), end, binds.skip(2)),
    ) by {
        lemma_equal_comparison("m.key"@, kv.0, key, " AND "@ + second, binds, row, kv);
        lemma_equal_comparison("m.value"@, kv.1, value, end, left, row, kv);
        assert(comparisons(second, left, row, kv) == Some(
            (Some(kv.1 == value), end, binds.skip(2)),
        ));
    }
    assert(comparisons(conds, binds, row, none) is Some);
    let found = exists|i: int|
        0 <= i < row.meta.len() && (#[trigger] row.meta[i]).0 == key && row.meta[i].1 == value;
    let read = exists|i: int|
        0 <= i < row.meta.len() && #[trigger] holds_of(conds, binds, row, row.meta[i]);
    if found {
        let i = choose|i: int|
            0 <= i < row.meta.len() && (#[trigger] row.meta[i]).0 == key && row.meta[i].1 == value;
        assert(holds_of(conds, binds, row, row.meta[i]));
    }
    assert(found == read);
    assert(next[0] == 'E') by {
        reveal_strlit("EXISTS (SELECT 1 FROM meta_kv m WHERE m.algo=f.algo AND m.hash=f.hash");
    }
    lemma_starts(next);
    lemma_step(next, binds, row, found, rest, binds.skip(2));
}

/// A pattern without marks of its own, and any text behind it, matches what starts
/// with it, in whatever case.
pub proof fn law_pattern_of_a_start(text: Seq<char>, start: Seq<char>)
    requires
        !start.contains('%'),
        !start.contains('_'),
    ensures
        like(text, start.push('%')) == has_prefix(lowered(text), lowered(start)),
    decreases start.len(),
{
    let pattern = start.push('%');
    if start.len() == 0 {
        lemma_any_text(text);
        assert(pattern =~= seq!['%']);
        assert(lowered(text).subrange(0, 0) =~= lowered(start));
    } else {
        assert(start.contains(start[0]));
        if text.len() > 0 {
            let (t, s) = (text.skip(1), start.skip(1));
            assert(s.push('%') =~= pattern.skip(1));
            assert forall|c: char| s.contains(c) implies start.contains(c) by {
                let i = choose|i: int| 0 <= i < s.len() && s[i] == c;
                assert(start[i + 1] == c);
            }
            law_pattern_of_a_start(t, s);
            let (lt, ls) = (lowered(text), lowered(start));
            if has_prefix(lt, ls) {
                assert(lt.subrange(0, ls.len() as int)[0] == ls[0]);
                assert(lowered(t).subrange(0, s.len() as int) =~= lowered(s)) by {
                    assert forall|k: int| 0 <= k < s.len() implies lowered(t)[k] == lowered(
                        s,
                    )[k] by {
                        assert(lt.subrange(0, ls.len() as int)[k + 1] == ls[k + 1]);
                    }
                }
            }
            if lt[0] == ls[0] && has_prefix(lowered(t), lowered(s)) {
                assert(lt.subrange(0, ls.len() as int) =~= ls) by {
                    assert forall|k: int| 0 <= k < ls.len() implies lt[k] == ls[k] by {
                        if k > 0 {
                            assert(lowered(t).subrange(0, s.len() as int)[k - 1] == lowered(s)[k
                                - 1]);
                        }
                    }
                }
            }
        }
    }
}

proof fn lemma_any_text(text: Seq<char>)
    ensures
        like(text, seq!['%']),
    decreases text.len(),
{
    if text.len() > 0 {
        lemma_any_text(text.skip(1));
    } else {
        assert(seq!['%'].skip(1) =~= Seq::<char>::empty());
        assert(like(text, seq!['%'].skip(1)));
    }
}

} // verus!
