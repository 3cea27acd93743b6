//! What the conditions of a query of the catalog mean: a condition is read as the text
//! that it is, with the values of its `?` in order, and holds of a content or not.
use vstd::prelude::*;

use crate::condition::{after, lemma_after, lemma_not_after, like, related};
use crate::meta::opt_view;
use crate::sql::BindView;
use crate::store::{
    bind_if, cond_if, filter_binds, filter_conds, key_cond, prefix_pattern, wanted_tag,
    where_clause, QueryFilter,
};
use crate::text::{has_prefix, joined};

verus! {

/// A copy of a content: the drive that it is on, and what is known of the drive.
pub struct CopyRow {
    pub drive_id: Seq<char>,
    pub online: bool,
    pub detached: bool,
}

/// A content that a query looks at: what it is, its metadata, its copies and its tags.
pub struct ContentRow {
    pub hash: Seq<char>,
    pub file_type: Option<Seq<char>>,
    pub ext: Option<Seq<char>>,
    pub meta: Seq<(Seq<char>, Seq<char>)>,
    pub copies: Seq<CopyRow>,
    pub tags: Seq<Seq<char>>,
}

/// Whether a condition holds, with what is left of the text and of the bound values.
pub type Verdict = Option<(Option<bool>, Seq<char>, Seq<BindView>)>;

/// The column that a text starts with: its value, and what follows.
pub open spec fn content_column(sql: Seq<char>, row: ContentRow) -> Option<
    (Option<Seq<char>>, Seq<char>),
> {
    if has_prefix(sql, "c.file_type"@) {
        Some((row.file_type, sql.skip(11)))
    } else if has_prefix(sql, "c.ext"@) {
        Some((row.ext, sql.skip(5)))
    } else if has_prefix(sql, "c.hash"@) {
        Some((Some(row.hash), sql.skip(6)))
    } else {
        None
    }
}

/// The text that is bound first.
pub open spec fn first_text(binds: Seq<BindView>) -> Option<Seq<char>> {
    if binds.len() > 0 && binds[0] is Text {
        Some(binds[0]->Text_0)
    } else {
        None
    }
}

/// How a column compares with a bound text.
pub open spec fn compared(
    value: Option<Seq<char>>,
    sql: Seq<char>,
    binds: Seq<BindView>,
) -> Verdict {
    match first_text(binds) {
        Some(t) => match after(sql, " = ?"@) {
            Some(rest) => Some(
                (
                    related(value, Some(t), |a: Seq<char>, b: Seq<char>| a == b),
                    rest,
                    binds.skip(1),
                ),
            ),
            None => match after(sql, " LIKE ?"@) {
                Some(rest) => Some(
                    (
                        related(value, Some(t), |a: Seq<char>, b: Seq<char>| like(a, b)),
                        rest,
                        binds.skip(1),
                    ),
                ),
                None => None,
            },
        },
        None => None,
    }
}

/// How a condition on metadata begins: on what the content has of a key.
pub open spec fn key_word() -> Seq<char> {
    "EXISTS (SELECT 1 FROM metadata m WHERE m.algo=c.algo AND m.hash=c.hash AND m.key=?"@
}

/// The condition that a copy is on a drive.
pub open spec fn drive_word() -> Seq<char> {
    "EXISTS (SELECT 1 FROM locations l WHERE l.algo=c.algo AND l.hash=c.hash AND l.drive_id=?)"@
}

/// The condition that the content has a tag.
pub open spec fn tag_word() -> Seq<char> {
    "EXISTS (SELECT 1 FROM tags t WHERE t.algo=c.algo AND t.hash=c.hash AND t.tag=?)"@
}

/// The condition that no copy is on a drive that is online and not detached.
pub open spec fn offline_word() -> Seq<char> {
    "NOT EXISTS (SELECT 1 FROM locations l JOIN drives dr ON dr.drive_id=l.drive_id WHERE l.algo=c.algo AND l.hash=c.hash AND dr.online=1 AND dr.detached=0)"@
}

/// Whether the content has a key, or a key with a value, behind the start of the
/// condition.
pub open spec fn key_clause(sql: Seq<char>, binds: Seq<BindView>, row: ContentRow) -> Verdict {
    match first_text(binds) {
        Some(k) => match after(sql, ")"@) {
            Some(rest) => Some(
                (
                    Some(
                        exists|i: int| 0 <= i < row.meta.len() && (#[trigger] row.meta[i]).0 == k,
                    ),
                    rest,
                    binds.skip(1),
                ),
            ),
            None => match (after(sql, " AND m.value=?)"@), first_text(binds.skip(1))) {
                (Some(rest), Some(v)) => Some(
                    (
                        Some(
                            exists|i: int|
                                0 <= i < row.meta.len() && (#[trigger] row.meta[i]).0 == k
                                    && row.meta[i].1 == v,
                        ),
                        rest,
                        binds.skip(2),
                    ),
                ),
                _ => None,
            },
        },
        None => None,
    }
}

/// A condition.
#[verifier::opaque]
pub open spec fn clause(sql: Seq<char>, binds: Seq<BindView>, row: ContentRow) -> Verdict {
    match content_column(sql, row) {
        Some((v, rest)) => compared(v, rest, binds),
        None => match after(sql, key_word()) {
            Some(rest) => key_clause(rest, binds, row),
            None => match (after(sql, drive_word()), after(sql, tag_word()), after(
                sql,
                offline_word(),
            )) {
                (Some(rest), _, _) => match first_text(binds) {
                    Some(d) => Some(
                        (
                            Some(on_drive(row, d)),
                            rest,
                            binds.skip(1),
                        ),
                    ),
                    None => None,
                },
                (_, Some(rest), _) => match first_text(binds) {
                    Some(t) => Some((Some(row.tags.contains(t)), rest, binds.skip(1))),
                    None => None,
                },
                (_, _, Some(rest)) => Some(
                    (
                        Some(!is_there(row)),
                        rest,
                        binds,
                    ),
                ),
                _ => None,
            },
        },
    }
}

/// Conditions with `AND` between them: all of them hold, and every bound value is used.
pub open spec fn clauses(sql: Seq<char>, binds: Seq<BindView>, row: ContentRow) -> bool
    decreases sql.len(),
{
    match clause(sql, binds, row) {
        Some((t, rest, left)) => t == Some(true) && if rest.len() == 0 {
            left.len() == 0
        } else {
            match after(rest, " AND "@) {
                Some(more) => more.len() < sql.len() && clauses(more, left, row),
                None => false,
            }
        },
        None => false,
    }
}

/// The content is one that the conditions of a query select; without any it is.
pub open spec fn lists(sql: Seq<char>, binds: Seq<BindView>, row: ContentRow) -> bool {
    if sql.len() == 0 {
        binds.len() == 0
    } else {
        match after(sql, "WHERE "@) {
            Some(rest) => clauses(rest, binds, row),
            None => false,
        }
    }
}

// ---- reading conditions ----------------------------------------------------

/// A condition with its values, and whether it holds.
pub struct Item {
    pub sql: Seq<char>,
    pub binds: Seq<BindView>,
    pub holds: bool,
}

/// The condition is read as what it says, whatever follows it.
#[verifier::opaque]
pub open spec fn is_read(item: Item, row: ContentRow) -> bool {
    forall|rest: Seq<char>, left: Seq<BindView>|
        #![trigger clause(item.sql + rest, item.binds + left, row)]
        {
            &&& clause(item.sql + rest, item.binds + left, row) is Some
            &&& match clause(item.sql + rest, item.binds + left, row) {
                Some((t, r, l)) => (t == Some(true) <==> item.holds) && r == rest && l == left,
                None => false,
            }
        }
}

/// The texts of some conditions.
#[verifier::opaque]
pub open spec fn item_texts(items: Seq<Item>) -> Seq<Seq<char>> {
    items.map_values(|i: Item| i.sql)
}

/// The values of some conditions.
#[verifier::opaque]
pub open spec fn item_binds(items: Seq<Item>) -> Seq<BindView>
    decreases items.len(),
{
    if items.len() == 0 {
        Seq::empty()
    } else {
        item_binds(items.drop_last()) + items.last().binds
    }
}

/// All of some conditions hold.
#[verifier::opaque]
pub open spec fn all_hold(items: Seq<Item>) -> bool {
    forall|i: int| 0 <= i < items.len() ==> (#[trigger] items[i]).holds
}

/// Conditions with `AND` between them hold where each does, and what follows them.
proof fn lemma_joined_read(
    items: Seq<Item>,
    tail: Seq<char>,
    left: Seq<BindView>,
    row: ContentRow,
)
    requires
        items.len() > 0,
        all_read(items, row),
        tail.len() == 0 || after(tail, " AND "@) is Some,
    ensures
        clauses(joined(item_texts(items), " AND "@) + tail, item_binds(items) + left, row) == (
        all_hold(items) && if tail.len() == 0 {
            left.len() == 0
        } else {
            clauses(tail.skip(5), left, row)
        }),
    decreases items.len(),
{
    reveal(is_read);
    reveal(all_read);
    reveal(item_binds);
    reveal(all_hold);
    reveal(item_texts);
    reveal_strlit(" AND ");
    let texts = item_texts(items);
    let last = items.last();
    let n = items.len() - 1;
    assert(items[n] == last);
    assert(is_read(items[n], row));
    assert(tail.len() > 0 ==> tail.skip(5) == after(tail, " AND "@)->0);
    let own = last.sql + tail;
    assert(clause(last.sql + tail, last.binds + left, row) is Some);
    let step = clauses(own, last.binds + left, row);
    assert(step == (last.holds && if tail.len() == 0 {
        left.len() == 0
    } else {
        clauses(tail.skip(5), left, row)
    }));
    if items.len() == 1 {
        assert(joined(texts, " AND "@) == last.sql);
        assert(item_binds(items.drop_last()) =~= Seq::<BindView>::empty());
        assert(item_binds(items) =~= last.binds);
        assert(all_hold(items) == last.holds);
    } else {
        let init = items.drop_last();
        let more = " AND "@ + own;
        assert(item_texts(init) =~= texts.drop_last());
        assert(joined(texts, " AND "@) + tail =~= joined(item_texts(init), " AND "@) + more);
        assert(item_binds(items) + left =~= item_binds(init) + (last.binds + left));
        lemma_after(" AND "@, own);
        assert forall|i: int| 0 <= i < init.len() implies is_read(#[trigger] init[i], row) by {
            assert(init[i] == items[i]);
        }
        lemma_joined_read(init, more, last.binds + left, row);
        assert(more.skip(5) =~= own);
        assert(all_hold(items) == (all_hold(init) && last.holds)) by {
            if all_hold(items) {
                assert forall|i: int| 0 <= i < init.len() implies (#[trigger] init[i]).holds by {
                    assert(items[i].holds);
                }
            }
            if all_hold(init) && last.holds {
                assert forall|i: int| 0 <= i < items.len() implies (#[trigger] items[i]).holds by {
                    if i < init.len() {
                        assert(init[i].holds);
                    }
                }
            }
        }
    }
}

proof fn lemma_columns_read(rest: Seq<char>, row: ContentRow)
    ensures
        content_column("c.file_type"@ + rest, row) == Some((row.file_type, rest)),
        content_column("c.ext"@ + rest, row) == Some((row.ext, rest)),
        content_column("c.hash"@ + rest, row) == Some((Some(row.hash), rest)),
{
    reveal_strlit("c.file_type");
    reveal_strlit("c.ext");
    reveal_strlit("c.hash");
    lemma_after("c.file_type"@, rest);
    lemma_after("c.ext"@, rest);
    lemma_after("c.hash"@, rest);
    lemma_not_after("c.ext"@ + rest, "c.file_type"@, 2);
    lemma_not_after("c.hash"@ + rest, "c.file_type"@, 2);
    lemma_not_after("c.hash"@ + rest, "c.ext"@, 2);
}

proof fn lemma_compared_read(value: Option<Seq<char>>, t: Seq<char>, rest: Seq<char>, left: Seq<BindView>)
    ensures
        ({
            let binds = seq![BindView::Text(t)] + left;
            &&& compared(value, " = ?"@ + rest, binds) == Some(
                (related(value, Some(t), |a: Seq<char>, b: Seq<char>| a == b), rest, left),
            )
            &&& compared(value, " LIKE ?"@ + rest, binds) == Some(
                (related(value, Some(t), |a: Seq<char>, b: Seq<char>| like(a, b)), rest, left),
            )
        }),
{
    let binds = seq![BindView::Text(t)] + left;
    reveal_strlit(" = ?");
    reveal_strlit(" LIKE ?");
    assert(binds.skip(1) =~= left);
    assert(binds[0] == BindView::Text(t));
    lemma_after(" = ?"@, rest);
    lemma_after(" LIKE ?"@, rest);
    lemma_not_after(" LIKE ?"@ + rest, " = ?"@, 1);
}

/// The conditions on columns are read.
proof fn lemma_column_items(t: Seq<char>, row: ContentRow)
    ensures
        is_read(
            Item {
                sql: "c.file_type = ?"@,
                binds: seq![BindView::Text(t)],
                holds: row.file_type == Some(t),
            },
            row,
        ),
        is_read(
            Item {
                sql: "c.ext = ?"@,
                binds: seq![BindView::Text(t)],
                holds: row.ext == Some(t),
            },
            row,
        ),
        is_read(
            Item { sql: "c.hash LIKE ?"@, binds: seq![BindView::Text(t)], holds: like(row.hash, t) },
            row,
        ),
{
    reveal(clause);
    reveal(is_read);
    let b = seq![BindView::Text(t)];
    assert("c.file_type = ?"@ =~= "c.file_type"@ + " = ?"@) by {
        reveal_strlit("c.file_type = ?");
        reveal_strlit("c.file_type");
        reveal_strlit(" = ?");
    }
    assert("c.ext = ?"@ =~= "c.ext"@ + " = ?"@) by {
        reveal_strlit("c.ext = ?");
        reveal_strlit("c.ext");
        reveal_strlit(" = ?");
    }
    assert("c.hash LIKE ?"@ =~= "c.hash"@ + " LIKE ?"@) by {
        reveal_strlit("c.hash LIKE ?");
        reveal_strlit("c.hash");
        reveal_strlit(" LIKE ?");
    }
    assert forall|rest: Seq<char>, left: Seq<BindView>|
        #![trigger clause("c.file_type = ?"@ + rest, b + left, row)]
        clause("c.file_type = ?"@ + rest, b + left, row) == Some(
            (related(row.file_type, Some(t), |x: Seq<char>, y: Seq<char>| x == y), rest, left),
        ) by {
        assert("c.file_type = ?"@ + rest =~= "c.file_type"@ + (" = ?"@ + rest));
        lemma_columns_read(" = ?"@ + rest, row);
        lemma_compared_read(row.file_type, t, rest, left);
    }
    assert forall|rest: Seq<char>, left: Seq<BindView>|
        #![trigger clause("c.ext = ?"@ + rest, b + left, row)]
        clause("c.ext = ?"@ + rest, b + left, row) == Some(
            (related(row.ext, Some(t), |x: Seq<char>, y: Seq<char>| x == y), rest, left),
        ) by {
        assert("c.ext = ?"@ + rest =~= "c.ext"@ + (" = ?"@ + rest));
        lemma_columns_read(" = ?"@ + rest, row);
        lemma_compared_read(row.ext, t, rest, left);
    }
    assert forall|rest: Seq<char>, left: Seq<BindView>|
        #![trigger clause("c.hash LIKE ?"@ + rest, b + left, row)]
        clause("c.hash LIKE ?"@ + rest, b + left, row) == Some(
            (
                related(Some(row.hash), Some(t), |x: Seq<char>, y: Seq<char>| like(x, y)),
                rest,
                left,
            ),
        ) by {
        assert("c.hash LIKE ?"@ + rest =~= "c.hash"@ + (" LIKE ?"@ + rest));
        lemma_columns_read(" LIKE ?"@ + rest, row);
        lemma_compared_read(Some(row.hash), t, rest, left);
    }
}

proof fn lemma_no_column(sql: Seq<char>, row: ContentRow)
    requires
        sql.len() > 0,
        sql[0] != 'c',
    ensures
        content_column(sql, row) is None,
{
    reveal_strlit("c.file_type");
    reveal_strlit("c.ext");
    reveal_strlit("c.hash");
    lemma_not_after(sql, "c.file_type"@, 0);
    lemma_not_after(sql, "c.ext"@, 0);
    lemma_not_after(sql, "c.hash"@, 0);
}

/// The conditions on other tables start as they do and not as the others.
proof fn lemma_words(rest: Seq<char>)
    ensures
        key_word().len() > 0 && key_word()[0] == 'E',
        drive_word().len() > 0 && drive_word()[0] == 'E',
        tag_word().len() > 0 && tag_word()[0] == 'E',
        offline_word().len() > 0 && offline_word()[0] == 'N',
        after(drive_word() + rest, key_word()) is None,
        after(tag_word() + rest, key_word()) is None,
        after(tag_word() + rest, drive_word()) is None,
        after(offline_word() + rest, key_word()) is None,
        after(offline_word() + rest, drive_word()) is None,
        after(offline_word() + rest, tag_word()) is None,
{
    reveal_strlit(
        "EXISTS (SELECT 1 FROM metadata m WHERE m.algo=c.algo AND m.hash=c.hash AND m.key=?",
    );
    reveal_strlit(
        "EXISTS (SELECT 1 FROM locations l WHERE l.algo=c.algo AND l.hash=c.hash AND l.drive_id=?)",
    );
    reveal_strlit("EXISTS (SELECT 1 FROM tags t WHERE t.algo=c.algo AND t.hash=c.hash AND t.tag=?)");
    reveal_strlit(
        "NOT EXISTS (SELECT 1 FROM locations l JOIN drives dr ON dr.drive_id=l.drive_id WHERE l.algo=c.algo AND l.hash=c.hash AND dr.online=1 AND dr.detached=0)",
    );
    lemma_not_after(drive_word() + rest, key_word(), 22);
    lemma_not_after(tag_word() + rest, key_word(), 22);
    lemma_not_after(tag_word() + rest, drive_word(), 22);
    lemma_not_after(offline_word() + rest, key_word(), 0);
    lemma_not_after(offline_word() + rest, drive_word(), 0);
    lemma_not_after(offline_word() + rest, tag_word(), 0);
}

/// The conditions on copies and tags are read.
proof fn lemma_table_items(t: Seq<char>, row: ContentRow)
    ensures
        is_read(
            Item {
                sql: drive_word(),
                binds: seq![BindView::Text(t)],
                holds: on_drive(row, t),
            },
            row,
        ),
        is_read(
            Item { sql: tag_word(), binds: seq![BindView::Text(t)], holds: row.tags.contains(t) },
            row,
        ),
        is_read(
            Item {
                sql: offline_word(),
                binds: Seq::empty(),
                holds: !is_there(row),
            },
            row,
        ),
{
    reveal(clause);
    reveal(is_read);
    let b = seq![BindView::Text(t)];
    let none = Seq::<BindView>::empty();
    assert forall|rest: Seq<char>, left: Seq<BindView>|
        #![trigger clause(drive_word() + rest, b + left, row)]
        clause(drive_word() + rest, b + left, row) == Some(
            (
                Some(on_drive(row, t)),
                rest,
                left,
            ),
        ) by {
        lemma_words(rest);
        lemma_no_column(drive_word() + rest, row);
        lemma_after(drive_word(), rest);
        assert((b + left).skip(1) =~= left);
    }
    assert forall|rest: Seq<char>, left: Seq<BindView>|
        #![trigger clause(tag_word() + rest, b + left, row)]
        clause(tag_word() + rest, b + left, row) == Some((Some(row.tags.contains(t)), rest, left)) by {
        lemma_words(rest);
        lemma_no_column(tag_word() + rest, row);
        lemma_after(tag_word(), rest);
        assert((b + left).skip(1) =~= left);
    }
    assert forall|rest: Seq<char>, left: Seq<BindView>|
        #![trigger clause(offline_word() + rest, none + left, row)]
        clause(offline_word() + rest, none + left, row) == Some(
            (
                Some(!is_there(row)),
                rest,
                left,
            ),
        ) by {
        lemma_words(rest);
        lemma_no_column(offline_word() + rest, row);
        lemma_after(offline_word(), rest);
        assert(none + left =~= left);
    }
}

/// The content has a key, with a value where one is asked for.
pub open spec fn has_key(row: ContentRow, key: Seq<char>, value: Option<Seq<char>>) -> bool {
    exists|i: int|
        0 <= i < row.meta.len() && (#[trigger] row.meta[i]).0 == key && (value matches Some(v)
            ==> row.meta[i].1 == v)
}

/// The condition on a key is read.
proof fn lemma_key_item(key: Seq<char>, value: Option<Seq<char>>, row: ContentRow)
    ensures
        is_read(
            Item {
                sql: key_cond(value is Some),
                binds: seq![BindView::Text(key)] + bind_if(value),
                holds: has_key(row, key, value),
            },
            row,
        ),
{
    reveal(clause);
    reveal(is_read);
    let b = seq![BindView::Text(key)] + bind_if(value);
    let end = if value is Some {
        " AND m.value=?)"@
    } else {
        ")"@
    };
    assert(key_cond(value is Some) =~= key_word() + end) by {
        reveal_strlit(
            "EXISTS (SELECT 1 FROM metadata m WHERE m.algo=c.algo AND m.hash=c.hash AND m.key=? AND m.value=?)",
        );
        reveal_strlit(
            "EXISTS (SELECT 1 FROM metadata m WHERE m.algo=c.algo AND m.hash=c.hash AND m.key=?)",
        );
        reveal_strlit(
            "EXISTS (SELECT 1 FROM metadata m WHERE m.algo=c.algo AND m.hash=c.hash AND m.key=?",
        );
        reveal_strlit(" AND m.value=?)");
        reveal_strlit(")");
    }
    assert forall|rest: Seq<char>, left: Seq<BindView>|
        #![trigger clause(key_cond(value is Some) + rest, b + left, row)]
        clause(key_cond(value is Some) + rest, b + left, row) == Some(
            (Some(has_key(row, key, value)), rest, left),
        ) by {
        let sql = key_word() + (end + rest);
        assert(key_cond(value is Some) + rest =~= sql);
        lemma_words(rest);
        lemma_no_column(sql, row);
        lemma_after(key_word(), end + rest);
        lemma_after(end, rest);
        let binds = b + left;
        assert(binds[0] == BindView::Text(key));
        if value is Some {
            reveal_strlit(" AND m.value=?)");
            reveal_strlit(")");
            lemma_not_after(end + rest, ")"@, 0);
            assert(binds.skip(1)[0] == BindView::Text(value->0));
            assert(binds.skip(2) =~= left);
        } else {
            assert(binds.skip(1) =~= left);
        }
        let read = if value is Some {
            exists|i: int|
                0 <= i < row.meta.len() && (#[trigger] row.meta[i]).0 == key && row.meta[i].1
                    == value->0
        } else {
            exists|i: int| 0 <= i < row.meta.len() && (#[trigger] row.meta[i]).0 == key
        };
        assert(read == has_key(row, key, value));
    }
}

proof fn lemma_items_add(a: Seq<Item>, b: Seq<Item>, row: ContentRow)
    ensures
        item_texts(a + b) == item_texts(a) + item_texts(b),
        item_binds(a + b) == item_binds(a) + item_binds(b),
        all_hold(a + b) == (all_hold(a) && all_hold(b)),
        all_read(a, row) && all_read(b, row) ==> all_read(a + b, row),
    decreases b.len(),
{
    reveal(item_binds);
    reveal(all_hold);
    reveal(item_texts);
    reveal(all_read);
    assert(item_texts(a + b) =~= item_texts(a) + item_texts(b));
    if b.len() == 0 {
        assert(a + b =~= a);
        assert(item_binds(a) + item_binds(b) =~= item_binds(a));
    } else {
        lemma_items_add(a, b.drop_last(), row);
        assert((a + b).drop_last() =~= a + b.drop_last());
        assert((a + b).last() == b.last());
        assert(item_binds(a) + item_binds(b.drop_last()) + b.last().binds =~= item_binds(a)
            + item_binds(b));
    }
    let all = a + b;
    assert forall|i: int| 0 <= i < b.len() implies all[a.len() + i] == #[trigger] b[i] by {}
    if all_hold(all) {
        assert forall|i: int| 0 <= i < a.len() implies (#[trigger] a[i]).holds by {
            assert(all[i].holds);
        }
        assert forall|i: int| 0 <= i < b.len() implies (#[trigger] b[i]).holds by {
            assert(all[a.len() + i].holds);
        }
    }
    if all_hold(a) && all_hold(b) {
        assert forall|i: int| 0 <= i < all.len() implies (#[trigger] all[i]).holds by {
            if i < a.len() {
                assert(a[i].holds);
            } else {
                assert(b[i - a.len()].holds);
            }
        }
    }
}

/// A copy of the content is on the drive.
pub open spec fn on_drive(row: ContentRow, drive: Seq<char>) -> bool {
    exists|i: int| 0 <= i < row.copies.len() && (#[trigger] row.copies[i]).drive_id == drive
}

/// A copy of the content is on a drive that is online and not detached.
pub open spec fn is_there(row: ContentRow) -> bool {
    exists|i: int|
        0 <= i < row.copies.len() && (#[trigger] row.copies[i]).online && !row.copies[i].detached
}

/// The conditions of a filter, with what each says.
spec fn filter_items(f: &QueryFilter, row: ContentRow) -> Seq<Item> {
    type_item(f, row) + ext_item(f, row) + hash_item(f, row) + key_item(f, row) + drive_item(f, row)
        + tag_item(f, row) + offline_item(f, row)
}

#[verifier::opaque]
spec fn type_item(f: &QueryFilter, row: ContentRow) -> Seq<Item> {
    match f.file_type {
        Some(t) => seq![
            Item {
                sql: "c.file_type = ?"@,
                binds: seq![BindView::Text(t@)],
                holds: row.file_type == Some(t@),
            },
        ],
        None => Seq::empty(),
    }
}

#[verifier::opaque]
spec fn ext_item(f: &QueryFilter, row: ContentRow) -> Seq<Item> {
    match f.ext {
        Some(t) => seq![
            Item {
                sql: "c.ext = ?"@,
                binds: seq![BindView::Text(t@)],
                holds: row.ext == Some(t@),
            },
        ],
        None => Seq::empty(),
    }
}

#[verifier::opaque]
spec fn hash_item(f: &QueryFilter, row: ContentRow) -> Seq<Item> {
    match f.hash_prefix {
        Some(t) => seq![
            Item {
                sql: "c.hash LIKE ?"@,
                binds: seq![BindView::Text(prefix_pattern(t@))],
                holds: like(row.hash, prefix_pattern(t@)),
            },
        ],
        None => Seq::empty(),
    }
}

#[verifier::opaque]
spec fn key_item(f: &QueryFilter, row: ContentRow) -> Seq<Item> {
    match f.key {
        Some(t) => seq![
            Item {
                sql: key_cond(opt_view(f.value) is Some),
                binds: seq![BindView::Text(t@)] + bind_if(opt_view(f.value)),
                holds: has_key(row, t@, opt_view(f.value)),
            },
        ],
        None => Seq::empty(),
    }
}

#[verifier::opaque]
spec fn drive_item(f: &QueryFilter, row: ContentRow) -> Seq<Item> {
    match f.drive_id {
        Some(t) => seq![
            Item {
                sql: drive_word(),
                binds: seq![BindView::Text(t@)],
                holds: on_drive(row, t@),
            },
        ],
        None => Seq::empty(),
    }
}

#[verifier::opaque]
spec fn tag_item(f: &QueryFilter, row: ContentRow) -> Seq<Item> {
    match wanted_tag(f) {
        Some(t) => seq![
            Item { sql: tag_word(), binds: seq![BindView::Text(t)], holds: row.tags.contains(t) },
        ],
        None => Seq::empty(),
    }
}

#[verifier::opaque]
spec fn offline_item(f: &QueryFilter, row: ContentRow) -> Seq<Item> {
    if f.offline_only {
        seq![Item { sql: offline_word(), binds: Seq::empty(), holds: !is_there(row) }]
    } else {
        Seq::empty()
    }
}

/// What a list of at most one condition comes to.
proof fn lemma_one_item(item: Item, row: ContentRow)
    requires
        is_read(item, row),
    ensures
        all_read(seq![item], row),
        item_texts(seq![item]) == seq![item.sql],
        item_binds(seq![item]) == item.binds,
        all_hold(seq![item]) == item.holds,
{
    reveal(item_binds);
    reveal(all_hold);
    reveal(item_texts);
    reveal(all_read);
    let one = seq![item];
    assert(item_texts(one) =~= seq![item.sql]);
    assert(one.drop_last() =~= Seq::<Item>::empty());
    assert(item_binds(one.drop_last()) =~= Seq::<BindView>::empty());
    assert(item_binds(one) =~= item.binds);
    assert(one[0] == item);
}

proof fn lemma_no_item(row: ContentRow)
    ensures
        all_read(Seq::empty(), row),
        item_texts(Seq::empty()) == Seq::<Seq<char>>::empty(),
        item_binds(Seq::empty()) == Seq::<BindView>::empty(),
        all_hold(Seq::empty()),
{
    reveal(item_binds);
    reveal(all_hold);
    reveal(item_texts);
    reveal(all_read);
    assert(item_texts(Seq::empty()) =~= Seq::<Seq<char>>::empty());
}

proof fn lemma_column_parts(f: &QueryFilter, row: ContentRow)
    ensures
        all_read(type_item(f, row), row),
        all_read(ext_item(f, row), row),
        all_read(hash_item(f, row), row),
        item_texts(type_item(f, row)) == cond_if(f.file_type is Some, "c.file_type = ?"@),
        item_texts(ext_item(f, row)) == cond_if(f.ext is Some, "c.ext = ?"@),
        item_texts(hash_item(f, row)) == cond_if(f.hash_prefix is Some, "c.hash LIKE ?"@),
        item_binds(type_item(f, row)) == bind_if(opt_view(f.file_type)),
        item_binds(ext_item(f, row)) == bind_if(opt_view(f.ext)),
        item_binds(hash_item(f, row)) == bind_if(
            match f.hash_prefix {
                Some(h) => Some(prefix_pattern(h@)),
                None => None,
            },
        ),
        all_hold(type_item(f, row)) == (f.file_type is Some ==> row.file_type == Some(
            f.file_type->0@,
        )),
        all_hold(ext_item(f, row)) == (f.ext is Some ==> row.ext == Some(f.ext->0@)),
        all_hold(hash_item(f, row)) == (f.hash_prefix is Some ==> like(
            row.hash,
            prefix_pattern(f.hash_prefix->0@),
        )),
{
    reveal(type_item);
    reveal(ext_item);
    reveal(hash_item);
    lemma_no_item(row);
    if let Some(t) = f.file_type {
        lemma_column_items(t@, row);
        lemma_one_item(
            Item {
                sql: "c.file_type = ?"@,
                binds: seq![BindView::Text(t@)],
                holds: row.file_type == Some(t@),
            },
            row,
        );
    }
    if let Some(t) = f.ext {
        lemma_column_items(t@, row);
        lemma_one_item(
            Item {
                sql: "c.ext = ?"@,
                binds: seq![BindView::Text(t@)],
                holds: row.ext == Some(t@),
            },
            row,
        );
    }
    if let Some(t) = f.hash_prefix {
        lemma_column_items(prefix_pattern(t@), row);
        lemma_one_item(
            Item {
                sql: "c.hash LIKE ?"@,
                binds: seq![BindView::Text(prefix_pattern(t@))],
                holds: like(row.hash, prefix_pattern(t@)),
            },
            row,
        );
    }
}

proof fn lemma_table_parts(f: &QueryFilter, row: ContentRow)
    ensures
        all_read(key_item(f, row), row),
        all_read(drive_item(f, row), row),
        all_read(tag_item(f, row), row),
        all_read(offline_item(f, row), row),
        item_texts(key_item(f, row)) == cond_if(f.key is Some, key_cond(f.value is Some)),
        item_texts(drive_item(f, row)) == cond_if(f.drive_id is Some, drive_word()),
        item_texts(tag_item(f, row)) == cond_if(wanted_tag(f) is Some, tag_word()),
        item_texts(offline_item(f, row)) == cond_if(f.offline_only, offline_word()),
        item_binds(key_item(f, row)) == (match f.key {
            Some(k) => seq![BindView::Text(k@)] + bind_if(opt_view(f.value)),
            None => Seq::empty(),
        }),
        item_binds(drive_item(f, row)) == bind_if(opt_view(f.drive_id)),
        item_binds(tag_item(f, row)) == bind_if(wanted_tag(f)),
        item_binds(offline_item(f, row)) == Seq::<BindView>::empty(),
        all_hold(key_item(f, row)) == (f.key is Some ==> has_key(
            row,
            f.key->0@,
            opt_view(f.value),
        )),
        all_hold(drive_item(f, row)) == (f.drive_id is Some ==> on_drive(row, f.drive_id->0@)),
        all_hold(tag_item(f, row)) == (wanted_tag(f) is Some ==> row.tags.contains(
            wanted_tag(f)->0,
        )),
        all_hold(offline_item(f, row)) == (f.offline_only ==> !is_there(row)),
{
    reveal(key_item);
    reveal(drive_item);
    reveal(tag_item);
    reveal(offline_item);
    lemma_no_item(row);
    assert((opt_view(f.value) is Some) == (f.value is Some));
    if let Some(t) = f.key {
        lemma_key_item(t@, opt_view(f.value), row);
        lemma_one_item(key_item(f, row)[0], row);
    }
    if let Some(t) = f.drive_id {
        lemma_table_items(t@, row);
        lemma_one_item(drive_item(f, row)[0], row);
    }
    if let Some(t) = wanted_tag(f) {
        lemma_table_items(t, row);
        lemma_one_item(tag_item(f, row)[0], row);
    }
    if f.offline_only {
        lemma_table_items(Seq::empty(), row);
        lemma_one_item(offline_item(f, row)[0], row);
    }
}

/// The content is one that the filter asks for.
spec fn asks_for(f: &QueryFilter, row: ContentRow) -> bool {
    &&& f.file_type is Some ==> row.file_type == Some(f.file_type->0@)
    &&& f.ext is Some ==> row.ext == Some(f.ext->0@)
    &&& f.hash_prefix is Some ==> like(row.hash, prefix_pattern(f.hash_prefix->0@))
    &&& f.key is Some ==> has_key(row, f.key->0@, opt_view(f.value))
    &&& f.drive_id is Some ==> on_drive(row, f.drive_id->0@)
    &&& wanted_tag(f) is Some ==> row.tags.contains(wanted_tag(f)->0)
    &&& f.offline_only ==> !is_there(row)
}

/// The conditions of a query, read as text with their values, select exactly the
/// contents that the query asks for: those of the type, with the extension, with a hash
/// that starts so, with the key and its value, with a copy on the drive, with the tag or
/// the one of favorites, and, where only what is offline is asked for, without a copy on
/// a drive that is there.
pub proof fn law_query_lists_what_it_asks_for(f: &QueryFilter, row: ContentRow)
    ensures
        lists(where_clause(filter_conds(f)), filter_binds(f), row) <==> {
            &&& f.file_type is Some ==> row.file_type == Some(f.file_type->0@)
            &&& f.ext is Some ==> row.ext == Some(f.ext->0@)
            &&& f.hash_prefix is Some ==> like(row.hash, f.hash_prefix->0@.push('%'))
            &&& f.key is Some ==> has_key(row, f.key->0@, opt_view(f.value))
            &&& f.drive_id is Some ==> exists|i: int|
                0 <= i < row.copies.len() && (#[trigger] row.copies[i]).drive_id == f.drive_id->0@
            &&& f.tag is Some ==> row.tags.contains(f.tag->0@)
            &&& f.tag is None && f.favorite ==> row.tags.contains("favorite"@)
            &&& f.offline_only ==> forall|i: int|
                0 <= i < row.copies.len() ==> !(#[trigger] row.copies[i]).online
                    || row.copies[i].detached
        },
{
    reveal_strlit("%");
    if let Some(h) = f.hash_prefix {
        assert(prefix_pattern(h@) =~= h@.push('%'));
    }
    reveal(item_binds);
    reveal(item_texts);
    reveal(all_hold);
    let items = filter_items(f, row);
    lemma_filter_items(f, row);
    let texts = item_texts(items);
    let none = Seq::<char>::empty();
    if items.len() == 0 {
        assert(texts.len() == 0);
        assert(item_binds(items).len() == 0);
    } else {
        let body = joined(texts, " AND "@);
        lemma_after("WHERE "@, body);
        lemma_joined_read(items, none, Seq::empty(), row);
        assert(body + none =~= body);
        assert(item_binds(items) + Seq::<BindView>::empty() =~= item_binds(items));
        assert(("WHERE "@ + body).len() > 0) by {
            reveal_strlit("WHERE ");
        }
    }
}

/// Whether all items of a list are read.
#[verifier::opaque]
spec fn all_read(items: Seq<Item>, row: ContentRow) -> bool {
    forall|i: int| 0 <= i < items.len() ==> is_read(#[trigger] items[i], row)
}

proof fn lemma_seven_items(
    a: Seq<Item>,
    b: Seq<Item>,
    c: Seq<Item>,
    d: Seq<Item>,
    e: Seq<Item>,
    f: Seq<Item>,
    g: Seq<Item>,
    row: ContentRow,
)
    requires
        all_read(a, row),
        all_read(b, row),
        all_read(c, row),
        all_read(d, row),
        all_read(e, row),
        all_read(f, row),
        all_read(g, row),
    ensures
        ({
            let all = a + b + c + d + e + f + g;
            &&& all_read(all, row)
            &&& item_texts(all) == item_texts(a) + item_texts(b) + item_texts(c) + item_texts(d)
                + item_texts(e) + item_texts(f) + item_texts(g)
            &&& item_binds(all) == item_binds(a) + item_binds(b) + item_binds(c) + item_binds(d)
                + item_binds(e) + item_binds(f) + item_binds(g)
            &&& all_hold(all) == (all_hold(a) && all_hold(b) && all_hold(c) && all_hold(d)
                && all_hold(e) && all_hold(f) && all_hold(g))
        }),
{
    lemma_items_add(a, b, row);
    lemma_items_add(a + b, c, row);
    lemma_items_add(a + b + c, d, row);
    lemma_items_add(a + b + c + d, e, row);
    lemma_items_add(a + b + c + d + e, f, row);
    lemma_items_add(a + b + c + d + e + f, g, row);
}

proof fn lemma_filter_items(f: &QueryFilter, row: ContentRow)
    ensures
        item_texts(filter_items(f, row)) == filter_conds(f),
        item_binds(filter_items(f, row)) == filter_binds(f),
        all_read(filter_items(f, row), row),
        all_hold(filter_items(f, row)) == asks_for(f, row),
{
    lemma_column_parts(f, row);
    lemma_table_parts(f, row);
    let (a, b, c, d) = (type_item(f, row), ext_item(f, row), hash_item(f, row), key_item(f, row));
    let (e, g, h) = (drive_item(f, row), tag_item(f, row), offline_item(f, row));
    lemma_seven_items(a, b, c, d, e, g, h, row);
    lemma_filter_binds(
        f,
        item_binds(a),
        item_binds(b),
        item_binds(c),
        item_binds(d),
        item_binds(e),
        item_binds(g),
    );
    lemma_nothing_more(
        item_binds(a) + item_binds(b) + item_binds(c) + item_binds(d) + item_binds(e) + item_binds(
            g,
        ),
    );
}

proof fn lemma_nothing_more(s: Seq<BindView>)
    ensures
        s + Seq::<BindView>::empty() == s,
{
    assert(s + Seq::<BindView>::empty() =~= s);
}

proof fn lemma_filter_binds(
    f: &QueryFilter,
    b1: Seq<BindView>,
    b2: Seq<BindView>,
    b3: Seq<BindView>,
    b4: Seq<BindView>,
    b5: Seq<BindView>,
    b6: Seq<BindView>,
)
    requires
        b1 == bind_if(opt_view(f.file_type)),
        b2 == bind_if(opt_view(f.ext)),
        b3 == bind_if(
            match f.hash_prefix {
                Some(h) => Some(prefix_pattern(h@)),
                None => None,
            },
        ),
        b4 == (match f.key {
            Some(k) => seq![BindView::Text(k@)] + bind_if(opt_view(f.value)),
            None => Seq::empty(),
        }),
        b5 == bind_if(opt_view(f.drive_id)),
        b6 == bind_if(wanted_tag(f)),
    ensures
        filter_binds(f) == b1 + b2 + b3 + b4 + b5 + b6,
{
}

} // verus!
