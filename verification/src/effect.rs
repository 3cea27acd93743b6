//! What the statements pick that count, change and remove rows: the condition of a
//! statement is read as the text that it is, with its numbered values, and holds of a
//! row or not.
use vstd::prelude::*;

use crate::condition::{after, lemma_after, lemma_not_after, law_pattern_of_a_start, like};
use crate::index_store::{FileInsert, MetaRows};
use crate::sql::{
    flag, signed, statement_views, text_or_null, BindView, Statement, StatementView,
};
use crate::statements::{
    add_tag, clear_dir, clear_meta, content_locations, content_metadata, content_summary,
    count_between, count_files, detach_drive, find_file, find_group, find_hash, forget_content,
    has_content, insert_content, insert_file, insert_meta, link_members, list_drives, list_group,
    list_tags, locations_for, merge_row, prune_stale_locations, relabel_drive, remove_location,
    remove_tag,
    set_drive_online, set_has_thumb, thumb_lookup, unlink_hash, upsert_drive, upsert_location,
    DetachPlan, UnlinkPlan,
};
use crate::store::{
    dir_prefix, law_range_is_the_subtree, list_dir, prefix_pattern, upper_of, ContentMeta,
    LinkPlan, Listing,
};
use crate::text::{has_prefix, lowered, text_lt, views};

verus! {

/// A row of a table, by the names of its columns.
pub type TableRow = Map<Seq<char>, Seq<char>>;

/// A character of the name of a column, which may name its table first.
pub open spec fn column_char(c: char) -> bool {
    'a' <= c <= 'z' || '0' <= c <= '9' || c == '_' || c == '.'
}

/// The length of the name of a column that a text starts with.
pub open spec fn column_len(s: Seq<char>) -> nat
    decreases s.len(),
{
    if s.len() == 0 || !column_char(s[0]) {
        0
    } else {
        1 + column_len(s.skip(1))
    }
}

/// The bound text with the number that a text starts with, and what follows.
pub open spec fn numbered(s: Seq<char>, binds: Seq<BindView>) -> Option<(Seq<char>, Seq<char>)> {
    if s.len() > 0 && '1' <= s[0] <= '9' && s[0] as int - 49 < binds.len() && binds[s[0] as int
        - 49] is Text {
        Some((binds[s[0] as int - 49]->Text_0, s.skip(1)))
    } else {
        None
    }
}

/// Whether a value compares so with a numbered one, and what follows.
pub open spec fn compares(value: Seq<char>, sql: Seq<char>, binds: Seq<BindView>) -> Option<
    (bool, Seq<char>),
> {
    match (after(sql, " = ?"@), after(sql, "=?"@), after(sql, " < ?"@), after(sql, " >= ?"@)) {
        (Some(n), _, _, _) => match numbered(n, binds) {
            Some((v, rest)) => Some((value == v, rest)),
            None => None,
        },
        (_, Some(n), _, _) => match numbered(n, binds) {
            Some((v, rest)) => Some((value == v, rest)),
            None => None,
        },
        (_, _, Some(n), _) => match numbered(n, binds) {
            Some((v, rest)) => Some((text_lt(value, v), rest)),
            None => None,
        },
        (_, _, _, Some(n)) => match numbered(n, binds) {
            Some((v, rest)) => Some((!text_lt(value, v), rest)),
            None => None,
        },
        _ => None,
    }
}

/// Comparisons with `AND` between them: all of them hold of the row.
pub open spec fn picks(sql: Seq<char>, binds: Seq<BindView>, row: TableRow) -> bool
    decreases sql.len(),
{
    let n = column_len(sql) as int;
    let column = sql.take(n);
    match compares(row[column], sql.skip(n), binds) {
        Some((t, rest)) => row.dom().contains(column) && t && if rest.len() == 0 {
            true
        } else {
            match after(rest, " AND "@) {
                Some(more) => more.len() < sql.len() && picks(more, binds, row),
                None => false,
            }
        },
        None => false,
    }
}

/// The statement does `what` to the row.
pub open spec fn does(s: StatementView, what: Seq<char>, row: TableRow) -> bool {
    match after(s.sql, what) {
        Some(conds) => picks(conds, s.binds, row),
        None => false,
    }
}

// ---- reading conditions ----------------------------------------------------

proof fn lemma_column_len(column: Seq<char>, rest: Seq<char>)
    requires
        forall|i: int| 0 <= i < column.len() ==> column_char(#[trigger] column[i]),
        rest.len() > 0,
        !column_char(rest[0]),
    ensures
        column_len(column + rest) == column.len(),
    decreases column.len(),
{
    if column.len() == 0 {
        assert(column + rest =~= rest);
    } else {
        let less = column.skip(1);
        assert((column + rest)[0] == column[0]);
        assert(column_char(column[0]));
        assert((column + rest).skip(1) =~= less + rest);
        assert forall|i: int| 0 <= i < less.len() implies column_char(#[trigger] less[i]) by {
            assert(less[i] == column[i + 1]);
        }
        lemma_column_len(less, rest);
    }
}

/// How a comparison with a numbered value is read.
proof fn lemma_compares(
    value: Seq<char>,
    d: int,
    v: Seq<char>,
    rest: Seq<char>,
    binds: Seq<BindView>,
)
    requires
        0 <= d < binds.len(),
        d < 9,
        binds[d] == BindView::Text(v),
    ensures
        ({
            let n = seq![(49 + d) as char] + rest;
            &&& compares(value, " = ?"@ + n, binds) == Some((value == v, rest))
            &&& compares(value, "=?"@ + n, binds) == Some((value == v, rest))
            &&& compares(value, " < ?"@ + n, binds) == Some((text_lt(value, v), rest))
            &&& compares(value, " >= ?"@ + n, binds) == Some((!text_lt(value, v), rest))
        }),
{
    let n = seq![(49 + d) as char] + rest;
    reveal_strlit(" = ?");
    reveal_strlit("=?");
    reveal_strlit(" < ?");
    reveal_strlit(" >= ?");
    assert(n[0] as int == 49 + d);
    assert(n.skip(1) =~= rest);
    assert(numbered(n, binds) == Some((v, rest)));
    lemma_after(" = ?"@, n);
    lemma_after("=?"@, n);
    lemma_after(" < ?"@, n);
    lemma_after(" >= ?"@, n);
    lemma_not_after("=?"@ + n, " = ?"@, 0);
    lemma_not_after(" < ?"@ + n, " = ?"@, 1);
    lemma_not_after(" < ?"@ + n, "=?"@, 0);
    lemma_not_after(" >= ?"@ + n, " = ?"@, 1);
    lemma_not_after(" >= ?"@ + n, "=?"@, 0);
    lemma_not_after(" >= ?"@ + n, " < ?"@, 1);
}

/// `word` is how the column is compared for `holds`.
spec fn is_test(word: Seq<char>, value: Seq<char>, v: Seq<char>, holds: bool) -> bool {
    ||| word == " = ?"@ && holds == (value == v)
    ||| word == "=?"@ && holds == (value == v)
    ||| word == " < ?"@ && holds == text_lt(value, v)
    ||| word == " >= ?"@ && holds == !text_lt(value, v)
}

/// How the last comparison is read, and one with others behind it.
proof fn lemma_picks(
    column: Seq<char>,
    word: Seq<char>,
    d: int,
    v: Seq<char>,
    more: Seq<char>,
    holds: bool,
    binds: Seq<BindView>,
    row: TableRow,
)
    requires
        column.len() > 0,
        forall|i: int| 0 <= i < column.len() ==> column_char(#[trigger] column[i]),
        0 <= d < binds.len(),
        d < 9,
        binds[d] == BindView::Text(v),
        is_test(word, row[column], v, holds),
    ensures
        picks(column + (word + seq![(49 + d) as char]), binds, row) == (row.dom().contains(column)
            && holds),
        picks(column + (word + (seq![(49 + d) as char] + (" AND "@ + more))), binds, row) == (
        row.dom().contains(column) && holds && picks(more, binds, row)),
{
    let c = seq![(49 + d) as char];
    let none = Seq::<char>::empty();
    let and = " AND "@ + more;
    reveal_strlit(" = ?");
    reveal_strlit("=?");
    reveal_strlit(" < ?");
    reveal_strlit(" >= ?");
    reveal_strlit(" AND ");
    assert(c + none =~= c);
    lemma_compares(row[column], d, v, none, binds);
    lemma_compares(row[column], d, v, and, binds);
    lemma_after(" AND "@, more);
    assert(!column_char(word[0]));
    let (one, two) = (word + c, word + (c + and));
    assert(one[0] == word[0] && two[0] == word[0]);
    lemma_column_len(column, one);
    lemma_column_len(column, two);
    assert((column + one).take(column.len() as int) =~= column);
    assert((column + two).take(column.len() as int) =~= column);
    assert((column + one).skip(column.len() as int) =~= one);
    assert((column + two).skip(column.len() as int) =~= two);
}

proof fn lemma_column_names()
    ensures
        is_name("algo"@),
        is_name("hash"@),
        is_name("drive_id"@),
        is_name("path"@),
        is_name("tag"@),
        is_name("seen_at"@),
        is_name("group_id"@),
        is_name("dir"@),
{
    reveal_strlit("algo");
    reveal_strlit("hash");
    reveal_strlit("drive_id");
    reveal_strlit("path");
    reveal_strlit("tag");
    reveal_strlit("seen_at");
    reveal_strlit("group_id");
    reveal_strlit("dir");
}

/// The text is the name of a column.
spec fn is_name(s: Seq<char>) -> bool {
    s.len() > 0 && forall|i: int| 0 <= i < s.len() ==> column_char(#[trigger] s[i])
}

/// The row has the value in the column.
pub open spec fn has(row: TableRow, column: Seq<char>, value: Seq<char>) -> bool {
    row.dom().contains(column) && row[column] == value
}

proof fn lemma_one_column(
    what: Seq<char>,
    column: Seq<char>,
    s: StatementView,
    a: Seq<char>,
    row: TableRow,
)
    requires
        is_name(column),
        s.sql == what + (column + (" = ?"@ + seq!['1'])),
        s.binds == seq![BindView::Text(a)],
    ensures
        does(s, what, row) == has(row, column, a),
{
    lemma_after(what, column + (" = ?"@ + seq!['1']));
    assert((49 + 0) as char == '1');
    lemma_picks(column, " = ?"@, 0, a, Seq::empty(), row[column] == a, s.binds, row);
}

proof fn lemma_content(
    what: Seq<char>,
    s: StatementView,
    algo: Seq<char>,
    hash: Seq<char>,
    row: TableRow,
)
    requires
        s.sql == what + "algo = ?1 AND hash = ?2"@,
        s.binds.len() >= 2,
        s.binds[0] == BindView::Text(algo),
        s.binds[1] == BindView::Text(hash),
    ensures
        does(s, what, row) == (has(row, "algo"@, algo) && has(row, "hash"@, hash)),
{
    let second = "hash"@ + (" = ?"@ + seq!['2']);
    let first = "algo"@ + (" = ?"@ + (seq!['1'] + (" AND "@ + second)));
    assert("algo = ?1 AND hash = ?2"@ =~= first) by {
        reveal_strlit("algo = ?1 AND hash = ?2");
        reveal_strlit("algo");
        reveal_strlit("hash");
        reveal_strlit(" = ?");
        reveal_strlit(" AND ");
    }
    lemma_column_names();
    lemma_after(what, first);
    assert((49 + 0) as char == '1' && (49 + 1) as char == '2');
    lemma_picks("hash"@, " = ?"@, 1, hash, Seq::empty(), row["hash"@] == hash, s.binds, row);
    lemma_picks("algo"@, " = ?"@, 0, algo, second, row["algo"@] == algo, s.binds, row);
}

// ---- what statements do ----------------------------------------------------

/// Removing a location removes that of the content at the path on the drive, and no
/// other.
pub proof fn law_one_location_is_removed(
    algo: &str,
    hash: &str,
    drive: &str,
    path: &str,
    r: Statement,
    row: TableRow,
)
    requires
        call_ensures(remove_location, (algo, hash, drive, path), r),
    ensures
        does(r@, "DELETE FROM locations WHERE "@, row) <==> has(row, "algo"@, algo@) && has(
            row,
            "hash"@,
            hash@,
        ) && has(row, "drive_id"@, drive@) && has(row, "path"@, path@),
{
    let what = "DELETE FROM locations WHERE "@;
    let fourth = "path"@ + ("=?"@ + seq!['4']);
    let third = "drive_id"@ + ("=?"@ + (seq!['3'] + (" AND "@ + fourth)));
    let second = "hash"@ + ("=?"@ + (seq!['2'] + (" AND "@ + third)));
    let first = "algo"@ + ("=?"@ + (seq!['1'] + (" AND "@ + second)));
    assert("algo=?1 AND hash=?2 AND drive_id=?3 AND path=?4"@ =~= first) by {
        reveal_strlit("algo=?1 AND hash=?2 AND drive_id=?3 AND path=?4");
        reveal_strlit("algo");
        reveal_strlit("hash");
        reveal_strlit("drive_id");
        reveal_strlit("path");
        reveal_strlit("=?");
        reveal_strlit(" AND ");
    }
    assert("DELETE FROM locations WHERE algo=?1 AND hash=?2 AND drive_id=?3 AND path=?4"@ =~= what
        + "algo=?1 AND hash=?2 AND drive_id=?3 AND path=?4"@) by {
        reveal_strlit("DELETE FROM locations WHERE algo=?1 AND hash=?2 AND drive_id=?3 AND path=?4");
        reveal_strlit("DELETE FROM locations WHERE ");
        reveal_strlit("algo=?1 AND hash=?2 AND drive_id=?3 AND path=?4");
    }
    lemma_column_names();
    lemma_after(what, first);
    assert((49 + 0) as char == '1' && (49 + 1) as char == '2' && (49 + 2) as char == '3' && (49
        + 3) as char == '4');
    let b = r@.binds;
    assert(b[0] == BindView::Text(algo@) && b[1] == BindView::Text(hash@) && b[2] == BindView::Text(
        drive@,
    ) && b[3] == BindView::Text(path@));
    lemma_picks("path"@, "=?"@, 3, path@, Seq::empty(), row["path"@] == path@, b, row);
    lemma_picks("drive_id"@, "=?"@, 2, drive@, fourth, row["drive_id"@] == drive@, b, row);
    lemma_picks("hash"@, "=?"@, 1, hash@, third, row["hash"@] == hash@, b, row);
    lemma_picks("algo"@, "=?"@, 0, algo@, second, row["algo"@] == algo@, b, row);
}

/// What was not seen since a time is pruned: the locations of the drive that were seen
/// before it, and none that was seen at it or later.
pub proof fn law_stale_locations_are_pruned(
    drive: &str,
    since: &str,
    r: Statement,
    row: TableRow,
)
    requires
        call_ensures(prune_stale_locations, (drive, since), r),
    ensures
        does(r@, "DELETE FROM locations WHERE "@, row) <==> has(row, "drive_id"@, drive@)
            && row.dom().contains("seen_at"@) && text_lt(row["seen_at"@], since@),
{
    let what = "DELETE FROM locations WHERE "@;
    let second = "seen_at"@ + (" < ?"@ + seq!['2']);
    let first = "drive_id"@ + (" = ?"@ + (seq!['1'] + (" AND "@ + second)));
    assert("DELETE FROM locations WHERE drive_id = ?1 AND seen_at < ?2"@ =~= what + first) by {
        reveal_strlit("DELETE FROM locations WHERE drive_id = ?1 AND seen_at < ?2");
        reveal_strlit("DELETE FROM locations WHERE ");
        reveal_strlit("drive_id");
        reveal_strlit("seen_at");
        reveal_strlit(" = ?");
        reveal_strlit(" < ?");
        reveal_strlit(" AND ");
    }
    lemma_column_names();
    lemma_after(what, first);
    assert((49 + 0) as char == '1' && (49 + 1) as char == '2');
    let b = r@.binds;
    assert(b[0] == BindView::Text(drive@) && b[1] == BindView::Text(since@));
    lemma_picks(
        "seen_at"@,
        " < ?"@,
        1,
        since@,
        Seq::empty(),
        text_lt(row["seen_at"@], since@),
        b,
        row,
    );
    lemma_picks("drive_id"@, " = ?"@, 0, drive@, second, row["drive_id"@] == drive@, b, row);
}

/// Forgetting a content removes its metadata and then its row, and those of no other.
pub proof fn law_one_content_is_forgotten(algo: &str, hash: &str, r: Vec<Statement>, row: TableRow)
    requires
        call_ensures(forget_content, (algo, hash), r),
    ensures
        r@.len() == 2,
        does(r@[0]@, "DELETE FROM metadata WHERE "@, row) <==> has(row, "algo"@, algo@) && has(
            row,
            "hash"@,
            hash@,
        ),
        does(r@[1]@, "DELETE FROM content WHERE "@, row) <==> has(row, "algo"@, algo@) && has(
            row,
            "hash"@,
            hash@,
        ),
{
    let all = crate::sql::statement_views(r@);
    assert(all.len() == r@.len());
    assert(all[0] == r@[0]@ && all[1] == r@[1]@);
    assert("DELETE FROM metadata WHERE algo = ?1 AND hash = ?2"@ =~= "DELETE FROM metadata WHERE "@
        + "algo = ?1 AND hash = ?2"@) by {
        reveal_strlit("DELETE FROM metadata WHERE algo = ?1 AND hash = ?2");
        reveal_strlit("DELETE FROM metadata WHERE ");
        reveal_strlit("algo = ?1 AND hash = ?2");
    }
    assert("DELETE FROM content WHERE algo = ?1 AND hash = ?2"@ =~= "DELETE FROM content WHERE "@
        + "algo = ?1 AND hash = ?2"@) by {
        reveal_strlit("DELETE FROM content WHERE algo = ?1 AND hash = ?2");
        reveal_strlit("DELETE FROM content WHERE ");
        reveal_strlit("algo = ?1 AND hash = ?2");
    }
    let (s0, s1) = (r@[0]@, r@[1]@);
    assert(s0.binds[0] == BindView::Text(algo@) && s0.binds[1] == BindView::Text(hash@));
    assert(s1.binds[0] == BindView::Text(algo@) && s1.binds[1] == BindView::Text(hash@));
    lemma_content("DELETE FROM metadata WHERE "@, s0, algo@, hash@, row);
    lemma_content("DELETE FROM content WHERE "@, s1, algo@, hash@, row);
}

/// Removing a tag removes it from the content, and no other tag and from no other.
pub proof fn law_one_tag_is_removed(
    algo: &str,
    hash: &str,
    tag: &str,
    r: Statement,
    row: TableRow,
)
    requires
        call_ensures(remove_tag, (algo, hash, tag), r),
    ensures
        does(r@, "DELETE FROM tags WHERE "@, row) <==> has(row, "algo"@, algo@) && has(
            row,
            "hash"@,
            hash@,
        ) && has(row, "tag"@, tag@),
{
    let what = "DELETE FROM tags WHERE "@;
    let third = "tag"@ + (" = ?"@ + seq!['3']);
    let second = "hash"@ + (" = ?"@ + (seq!['2'] + (" AND "@ + third)));
    let first = "algo"@ + (" = ?"@ + (seq!['1'] + (" AND "@ + second)));
    assert("DELETE FROM tags WHERE algo = ?1 AND hash = ?2 AND tag = ?3"@ =~= what + first) by {
        reveal_strlit("DELETE FROM tags WHERE algo = ?1 AND hash = ?2 AND tag = ?3");
        reveal_strlit("DELETE FROM tags WHERE ");
        reveal_strlit("algo");
        reveal_strlit("hash");
        reveal_strlit("tag");
        reveal_strlit(" = ?");
        reveal_strlit(" AND ");
    }
    lemma_column_names();
    lemma_after(what, first);
    assert((49 + 0) as char == '1' && (49 + 1) as char == '2' && (49 + 2) as char == '3');
    let b = r@.binds;
    assert(b[0] == BindView::Text(algo@) && b[1] == BindView::Text(hash@) && b[2] == BindView::Text(
        tag@,
    ));
    lemma_picks("tag"@, " = ?"@, 2, tag@, Seq::empty(), row["tag"@] == tag@, b, row);
    lemma_picks("hash"@, " = ?"@, 1, hash@, third, row["hash"@] == hash@, b, row);
    lemma_picks("algo"@, " = ?"@, 0, algo@, second, row["algo"@] == algo@, b, row);
}

/// Unlinking takes the content out of its group; what is counted, and removed where the
/// group is dissolved, is what is in the group.
pub proof fn law_one_content_is_unlinked(
    algo: &str,
    hash: &str,
    group: &str,
    r: UnlinkPlan,
    row: TableRow,
)
    requires
        call_ensures(unlink_hash, (algo, hash, group), r),
    ensures
        does(r.remove@, "DELETE FROM link_members WHERE "@, row) <==> has(row, "algo"@, algo@)
            && has(row, "hash"@, hash@),
        does(r.count@, "SELECT COUNT(*) FROM link_members WHERE "@, row) <==> has(
            row,
            "group_id"@,
            group@,
        ),
        does(r.dissolve@, "DELETE FROM link_members WHERE "@, row) <==> has(
            row,
            "group_id"@,
            group@,
        ),
{
    lemma_column_names();
    let b = r.remove@.binds;
    assert(b[0] == BindView::Text(algo@) && b[1] == BindView::Text(hash@));
    assert("DELETE FROM link_members WHERE algo = ?1 AND hash = ?2"@
        =~= "DELETE FROM link_members WHERE "@ + "algo = ?1 AND hash = ?2"@) by {
        reveal_strlit("DELETE FROM link_members WHERE algo = ?1 AND hash = ?2");
        reveal_strlit("DELETE FROM link_members WHERE ");
        reveal_strlit("algo = ?1 AND hash = ?2");
    }
    lemma_content("DELETE FROM link_members WHERE "@, r.remove@, algo@, hash@, row);
    let tail = "group_id"@ + (" = ?"@ + seq!['1']);
    assert("SELECT COUNT(*) FROM link_members WHERE group_id = ?1"@
        =~= "SELECT COUNT(*) FROM link_members WHERE "@ + tail) by {
        reveal_strlit("SELECT COUNT(*) FROM link_members WHERE group_id = ?1");
        reveal_strlit("SELECT COUNT(*) FROM link_members WHERE ");
        reveal_strlit("group_id");
        reveal_strlit(" = ?");
    }
    assert("DELETE FROM link_members WHERE group_id = ?1"@ =~= "DELETE FROM link_members WHERE "@
        + tail) by {
        reveal_strlit("DELETE FROM link_members WHERE group_id = ?1");
        reveal_strlit("DELETE FROM link_members WHERE ");
        reveal_strlit("group_id");
        reveal_strlit(" = ?");
    }
    assert(r.count@.binds =~= seq![BindView::Text(group@)]);
    assert(r.dissolve@.binds =~= seq![BindView::Text(group@)]);
    lemma_one_column(
        "SELECT COUNT(*) FROM link_members WHERE "@,
        "group_id"@,
        r.count@,
        group@,
        row,
    );
    lemma_one_column("DELETE FROM link_members WHERE "@, "group_id"@, r.dissolve@, group@, row);
}

/// Detaching a drive removes the locations on it, and no others.
pub proof fn law_locations_of_a_detached_drive_are_removed(
    drive: &str,
    r: DetachPlan,
    row: TableRow,
)
    requires
        call_ensures(detach_drive, (drive,), r),
    ensures
        does(r.locations@, "DELETE FROM locations WHERE "@, row) <==> has(
            row,
            "drive_id"@,
            drive@,
        ),
        does(r.mark@, "UPDATE drives SET detached = 1, online = 0 WHERE "@, row) <==> has(
            row,
            "drive_id"@,
            drive@,
        ),
{
    lemma_column_names();
    let tail = "drive_id"@ + (" = ?"@ + seq!['1']);
    assert("DELETE FROM locations WHERE drive_id = ?1"@ =~= "DELETE FROM locations WHERE "@ + tail) by {
        reveal_strlit("DELETE FROM locations WHERE drive_id = ?1");
        reveal_strlit("DELETE FROM locations WHERE ");
        reveal_strlit("drive_id");
        reveal_strlit(" = ?");
    }
    assert("UPDATE drives SET detached = 1, online = 0 WHERE drive_id = ?1"@
        =~= "UPDATE drives SET detached = 1, online = 0 WHERE "@ + tail) by {
        reveal_strlit("UPDATE drives SET detached = 1, online = 0 WHERE drive_id = ?1");
        reveal_strlit("UPDATE drives SET detached = 1, online = 0 WHERE ");
        reveal_strlit("drive_id");
        reveal_strlit(" = ?");
    }
    assert(r.locations@.binds =~= seq![BindView::Text(drive@)]);
    assert(r.mark@.binds =~= seq![BindView::Text(drive@)]);
    lemma_one_column("DELETE FROM locations WHERE "@, "drive_id"@, r.locations@, drive@, row);
    lemma_one_column(
        "UPDATE drives SET detached = 1, online = 0 WHERE "@,
        "drive_id"@,
        r.mark@,
        drive@,
        row,
    );
}

/// Clearing removes the files of a directory, and the content and the keys of a hash.
pub proof fn law_clearing_removes_what_it_names(
    dir: &str,
    hash: &str,
    files: Statement,
    meta: Vec<Statement>,
    row: TableRow,
)
    requires
        call_ensures(clear_dir, (dir,), files),
        call_ensures(clear_meta, (hash,), meta),
    ensures
        does(files@, "DELETE FROM files WHERE "@, row) <==> has(row, "dir"@, dir@),
        meta@.len() == 2,
        does(meta@[0]@, "DELETE FROM content WHERE "@, row) <==> has(row, "hash"@, hash@),
        does(meta@[1]@, "DELETE FROM meta_kv WHERE "@, row) <==> has(row, "hash"@, hash@),
{
    lemma_column_names();
    let all = crate::sql::statement_views(meta@);
    assert(all.len() == meta@.len());
    assert(all[0] == meta@[0]@ && all[1] == meta@[1]@);
    let (one, two) = ("dir"@ + (" = ?"@ + seq!['1']), "hash"@ + (" = ?"@ + seq!['1']));
    assert("DELETE FROM files WHERE dir = ?1"@ =~= "DELETE FROM files WHERE "@ + one) by {
        reveal_strlit("DELETE FROM files WHERE dir = ?1");
        reveal_strlit("DELETE FROM files WHERE ");
        reveal_strlit("dir");
        reveal_strlit(" = ?");
    }
    assert("DELETE FROM content WHERE hash = ?1"@ =~= "DELETE FROM content WHERE "@ + two) by {
        reveal_strlit("DELETE FROM content WHERE hash = ?1");
        reveal_strlit("DELETE FROM content WHERE ");
        reveal_strlit("hash");
        reveal_strlit(" = ?");
    }
    assert("DELETE FROM meta_kv WHERE hash = ?1"@ =~= "DELETE FROM meta_kv WHERE "@ + two) by {
        reveal_strlit("DELETE FROM meta_kv WHERE hash = ?1");
        reveal_strlit("DELETE FROM meta_kv WHERE ");
        reveal_strlit("hash");
        reveal_strlit(" = ?");
    }
    assert(files@.binds =~= seq![BindView::Text(dir@)]);
    assert(meta@[0]@.binds =~= seq![BindView::Text(hash@)]);
    assert(meta@[1]@.binds =~= seq![BindView::Text(hash@)]);
    lemma_one_column("DELETE FROM files WHERE "@, "dir"@, files@, dir@, row);
    lemma_one_column("DELETE FROM content WHERE "@, "hash"@, meta@[0]@, hash@, row);
    lemma_one_column("DELETE FROM meta_kv WHERE "@, "hash"@, meta@[1]@, hash@, row);
}

/// The files of a drive are counted, and those of it whose paths lie between two texts,
/// the first among them and the second not.
pub proof fn law_files_of_a_drive_are_counted(
    drive: &str,
    lo: &str,
    hi: &str,
    all: Statement,
    below: Statement,
    row: TableRow,
)
    requires
        call_ensures(count_files, (drive,), all),
        call_ensures(count_between, (drive, lo, hi), below),
    ensures
        does(all@, "SELECT COUNT(*) FROM locations WHERE "@, row) <==> has(
            row,
            "drive_id"@,
            drive@,
        ),
        does(below@, "SELECT COUNT(*) FROM locations WHERE "@, row) <==> has(
            row,
            "drive_id"@,
            drive@,
        ) && row.dom().contains("path"@) && !text_lt(row["path"@], lo@) && text_lt(
            row["path"@],
            hi@,
        ),
{
    let what = "SELECT COUNT(*) FROM locations WHERE "@;
    lemma_column_names();
    let tail = "drive_id"@ + (" = ?"@ + seq!['1']);
    assert("SELECT COUNT(*) FROM locations WHERE drive_id = ?1"@ =~= what + tail) by {
        reveal_strlit("SELECT COUNT(*) FROM locations WHERE drive_id = ?1");
        reveal_strlit("SELECT COUNT(*) FROM locations WHERE ");
        reveal_strlit("drive_id");
        reveal_strlit(" = ?");
    }
    assert(all@.binds =~= seq![BindView::Text(drive@)]);
    lemma_one_column(what, "drive_id"@, all@, drive@, row);
    let third = "path"@ + (" < ?"@ + seq!['3']);
    let second = "path"@ + (" >= ?"@ + (seq!['2'] + (" AND "@ + third)));
    let first = "drive_id"@ + (" = ?"@ + (seq!['1'] + (" AND "@ + second)));
    assert("SELECT COUNT(*) FROM locations WHERE drive_id = ?1 AND path >= ?2 AND path < ?3"@
        =~= what + first) by {
        reveal_strlit(
            "SELECT COUNT(*) FROM locations WHERE drive_id = ?1 AND path >= ?2 AND path < ?3",
        );
        reveal_strlit("SELECT COUNT(*) FROM locations WHERE ");
        reveal_strlit("drive_id");
        reveal_strlit("path");
        reveal_strlit(" = ?");
        reveal_strlit(" >= ?");
        reveal_strlit(" < ?");
        reveal_strlit(" AND ");
    }
    lemma_after(what, first);
    assert((49 + 0) as char == '1' && (49 + 1) as char == '2' && (49 + 2) as char == '3');
    let b = below@.binds;
    assert(b[0] == BindView::Text(drive@) && b[1] == BindView::Text(lo@) && b[2] == BindView::Text(
        hi@,
    ));
    lemma_picks("path"@, " < ?"@, 2, hi@, Seq::empty(), text_lt(row["path"@], hi@), b, row);
    lemma_picks("path"@, " >= ?"@, 1, lo@, third, !text_lt(row["path"@], lo@), b, row);
    lemma_picks("drive_id"@, " = ?"@, 0, drive@, second, row["drive_id"@] == drive@, b, row);
}

/// Whether a content has a thumbnail, and whether a drive is online, is set of the one
/// and the other that are named.
pub proof fn law_states_are_set_where_named(
    algo: &str,
    hash: &str,
    has_thumb: bool,
    thumb: Statement,
    drive: &str,
    online: bool,
    state: Statement,
    row: TableRow,
)
    requires
        call_ensures(set_has_thumb, (algo, hash, has_thumb), thumb),
        call_ensures(set_drive_online, (drive, online), state),
    ensures
        does(thumb@, "UPDATE content SET has_thumb = ?3 WHERE "@, row) <==> has(
            row,
            "algo"@,
            algo@,
        ) && has(row, "hash"@, hash@),
        thumb@.binds[2] == BindView::Int(
            if has_thumb {
                1
            } else {
                0
            },
        ),
        does(state@, "UPDATE drives SET online = ?2 WHERE "@, row) <==> has(
            row,
            "drive_id"@,
            drive@,
        ),
        state@.binds[1] == BindView::Int(
            if online {
                1
            } else {
                0
            },
        ),
{
    lemma_column_names();
    assert("UPDATE content SET has_thumb = ?3 WHERE algo = ?1 AND hash = ?2"@
        =~= "UPDATE content SET has_thumb = ?3 WHERE "@ + "algo = ?1 AND hash = ?2"@) by {
        reveal_strlit("UPDATE content SET has_thumb = ?3 WHERE algo = ?1 AND hash = ?2");
        reveal_strlit("UPDATE content SET has_thumb = ?3 WHERE ");
        reveal_strlit("algo = ?1 AND hash = ?2");
    }
    lemma_content("UPDATE content SET has_thumb = ?3 WHERE "@, thumb@, algo@, hash@, row);
    let what = "UPDATE drives SET online = ?2 WHERE "@;
    let tail = "drive_id"@ + (" = ?"@ + seq!['1']);
    assert("UPDATE drives SET online = ?2 WHERE drive_id = ?1"@ =~= what + tail) by {
        reveal_strlit("UPDATE drives SET online = ?2 WHERE drive_id = ?1");
        reveal_strlit("UPDATE drives SET online = ?2 WHERE ");
        reveal_strlit("drive_id");
        reveal_strlit(" = ?");
    }
    lemma_after(what, tail);
    assert((49 + 0) as char == '1');
    lemma_picks(
        "drive_id"@,
        " = ?"@,
        0,
        drive@,
        Seq::empty(),
        row["drive_id"@] == drive@,
        state@.binds,
        row,
    );
}

/// Merging a group moves its members, and no others, to the target.
pub proof fn law_members_move_to_the_target(target: Seq<char>, group: Seq<char>, row: TableRow)
    ensures
        does(merge_row(target, group), "UPDATE link_members SET group_id = ?1 WHERE "@, row)
            <==> has(row, "group_id"@, group),
        merge_row(target, group).binds[0] == BindView::Text(target),
{
    lemma_column_names();
    let what = "UPDATE link_members SET group_id = ?1 WHERE "@;
    let tail = "group_id"@ + (" = ?"@ + seq!['2']);
    assert("UPDATE link_members SET group_id = ?1 WHERE group_id = ?2"@ =~= what + tail) by {
        reveal_strlit("UPDATE link_members SET group_id = ?1 WHERE group_id = ?2");
        reveal_strlit("UPDATE link_members SET group_id = ?1 WHERE ");
        reveal_strlit("group_id");
        reveal_strlit(" = ?");
    }
    lemma_after(what, tail);
    let b = merge_row(target, group).binds;
    assert(b[0] == BindView::Text(target) && b[1] == BindView::Text(group));
    assert((49 + 1) as char == '2');
    lemma_picks(
        "group_id"@,
        " = ?"@,
        1,
        group,
        Seq::empty(),
        row["group_id"@] == group,
        b,
        row,
    );
}

// ---- rows that are put in --------------------------------------------------

/// The first texts with a comma between each two.
pub open spec fn listed_first(texts: Seq<Seq<char>>, n: nat) -> Seq<char>
    decreases n,
{
    if n == 0 {
        Seq::empty()
    } else if n == 1 {
        texts[0]
    } else {
        listed_first(texts, (n - 1) as nat) + ", "@ + texts[n - 1]
    }
}

/// What a value in a statement stands for: a numbered value, or a number.
pub open spec fn stands_for(s: Seq<char>, binds: Seq<BindView>) -> Option<BindView> {
    if s.len() == 2 && s[0] == '?' && '1' <= s[1] <= '9' && s[1] as int - 49 < binds.len() {
        Some(binds[s[1] as int - 49])
    } else if s == "0"@ {
        Some(BindView::Int(0))
    } else if s == "1"@ {
        Some(BindView::Int(1))
    } else {
        None
    }
}

/// The text of a statement that names columns and lists values for them.
pub open spec fn row_text(
    head: Seq<char>,
    columns: Seq<Seq<char>>,
    values: Seq<Seq<char>>,
    tail: Seq<char>,
) -> Seq<char> {
    head + listed_first(columns, columns.len()) + ") VALUES ("@ + listed_first(values, values.len())
        + ")"@ + tail
}

/// The statement puts these values into these columns.
pub open spec fn puts(
    s: StatementView,
    head: Seq<char>,
    columns: Seq<Seq<char>>,
    values: Seq<BindView>,
    tail: Seq<char>,
) -> bool {
    exists|texts: Seq<Seq<char>>|
        {
            &&& s.sql == #[trigger] row_text(head, columns, texts, tail)
            &&& texts.len() == columns.len()
            &&& values.len() == columns.len()
            &&& forall|i: int|
                0 <= i < texts.len() ==> stands_for(#[trigger] texts[i], s.binds) == Some(values[i])
        }
}

/// A tag is put into the row of its content, with the time at which it came.
pub proof fn law_tag_is_put_on_its_content(
    algo: &str,
    hash: &str,
    tag: &str,
    now: &str,
    r: Statement,
)
    requires
        call_ensures(add_tag, (algo, hash, tag, now), r),
    ensures
        puts(
            r@,
            "INSERT OR IGNORE INTO tags ("@,
            seq!["algo"@, "hash"@, "tag"@, "added_at"@],
            seq![
                BindView::Text(algo@),
                BindView::Text(hash@),
                BindView::Text(tag@),
                BindView::Text(now@),
            ],
            Seq::empty(),
        ),
{
    let s = r@;
    let columns = seq!["algo"@, "hash"@, "tag"@, "added_at"@];
    let texts = seq!["?1"@, "?2"@, "?3"@, "?4"@];
    let values = seq![
        BindView::Text(algo@),
        BindView::Text(hash@),
        BindView::Text(tag@),
        BindView::Text(now@),
    ];
    reveal_strlit("INSERT OR IGNORE INTO tags (algo, hash, tag, added_at) VALUES (?1, ?2, ?3, ?4)");
    reveal_strlit("INSERT OR IGNORE INTO tags (");
    reveal_strlit(", ");
    reveal_strlit(") VALUES (");
    reveal_strlit(")");
    reveal_strlit("algo");
    reveal_strlit("hash");
    reveal_strlit("tag");
    reveal_strlit("added_at");
    reveal_strlit("?1");
    reveal_strlit("?2");
    reveal_strlit("?3");
    reveal_strlit("?4");
    reveal_with_fuel(listed_first, 5);
    assert("INSERT OR IGNORE INTO tags (algo, hash, tag, added_at) VALUES (?1, ?2, ?3, ?4)"@ =~= row_text("INSERT OR IGNORE INTO tags ("@, columns, texts, Seq::empty()));
    assert forall|i: int| 0 <= i < texts.len() implies stands_for(#[trigger] texts[i], s.binds)
        == Some(values[i]) by {}
}

/// A file is put into the search index with each of its parts in the column of that name.
pub proof fn law_file_is_put_in_by_its_columns(f: &FileInsert, r: Statement)
    requires
        call_ensures(insert_file, (f,), r),
    ensures
        puts(
            r@,
            "INSERT OR REPLACE INTO files ("@,
            seq!["path"@, "dir"@, "name"@, "algo"@, "hash"@, "size"@, "mtime_ns"@],
            seq![
                BindView::Text(f.path@),
                BindView::Text(f.dir@),
                BindView::Text(f.name@),
                BindView::Text(f.algo@),
                BindView::Text(f.hash@),
                BindView::Int(f.size),
                BindView::Int(f.mtime_ns),
            ],
            Seq::empty(),
        ),
{
    let s = r@;
    let columns = seq!["path"@, "dir"@, "name"@, "algo"@, "hash"@, "size"@, "mtime_ns"@];
    let texts = seq!["?1"@, "?2"@, "?3"@, "?4"@, "?5"@, "?6"@, "?7"@];
    let values = seq![
        BindView::Text(f.path@),
        BindView::Text(f.dir@),
        BindView::Text(f.name@),
        BindView::Text(f.algo@),
        BindView::Text(f.hash@),
        BindView::Int(f.size),
        BindView::Int(f.mtime_ns),
    ];
    reveal_strlit("INSERT OR REPLACE INTO files (path, dir, name, algo, hash, size, mtime_ns) VALUES (?1, ?2, ?3, ?4, ?5, ?6, ?7)");
    reveal_strlit("INSERT OR REPLACE INTO files (");
    reveal_strlit(", ");
    reveal_strlit(") VALUES (");
    reveal_strlit(")");
    reveal_strlit("path");
    reveal_strlit("dir");
    reveal_strlit("name");
    reveal_strlit("algo");
    reveal_strlit("hash");
    reveal_strlit("size");
    reveal_strlit("mtime_ns");
    reveal_strlit("?1");
    reveal_strlit("?2");
    reveal_strlit("?3");
    reveal_strlit("?4");
    reveal_strlit("?5");
    reveal_strlit("?6");
    reveal_strlit("?7");
    reveal_with_fuel(listed_first, 8);
    assert("INSERT OR REPLACE INTO files (path, dir, name, algo, hash, size, mtime_ns) VALUES (?1, ?2, ?3, ?4, ?5, ?6, ?7)"@ =~= row_text("INSERT OR REPLACE INTO files ("@, columns, texts, Seq::empty()));
    assert forall|i: int| 0 <= i < texts.len() implies stands_for(#[trigger] texts[i], s.binds)
        == Some(values[i]) by {}
}

/// A content is put in with what was read of it, each part in the column of that name.
pub proof fn law_content_is_put_in_by_its_columns(
    algo: &str,
    hash: &str,
    m: &ContentMeta,
    now: &str,
    r: Vec<Statement>,
)
    requires
        call_ensures(insert_content, (algo, hash, m, now), r),
    ensures
        puts(
            r@[0]@,
            "INSERT OR REPLACE INTO content ("@,
            seq![
                "algo"@,
                "hash"@,
                "size"@,
                "file_type"@,
                "ext"@,
                "extracted_at"@,
                "extractor_version"@,
                "has_thumb"@,
            ],
            seq![
                BindView::Text(algo@),
                BindView::Text(hash@),
                BindView::Int(signed(m.size) as i64),
                text_or_null(m.file_type),
                text_or_null(m.ext),
                BindView::Text(now@),
                BindView::Int(m.extractor_version),
                flag(m.has_thumb),
            ],
            Seq::empty(),
        ),
{
    assert(statement_views(r@).len() == 1 + m.tags@.len());
    assert(statement_views(r@)[0] == r@[0]@);
    let s = r@[0]@;
    let columns = seq![
        "algo"@,
        "hash"@,
        "size"@,
        "file_type"@,
        "ext"@,
        "extracted_at"@,
        "extractor_version"@,
        "has_thumb"@,
    ];
    let texts = seq!["?1"@, "?2"@, "?3"@, "?4"@, "?5"@, "?6"@, "?7"@, "?8"@];
    let values = seq![
        BindView::Text(algo@),
        BindView::Text(hash@),
        BindView::Int(signed(m.size) as i64),
        text_or_null(m.file_type),
        text_or_null(m.ext),
        BindView::Text(now@),
        BindView::Int(m.extractor_version),
        flag(m.has_thumb),
    ];
    reveal_strlit("INSERT OR REPLACE INTO content (algo, hash, size, file_type, ext, extracted_at, extractor_version, has_thumb) VALUES (?1, ?2, ?3, ?4, ?5, ?6, ?7, ?8)");
    reveal_strlit("INSERT OR REPLACE INTO content (");
    reveal_strlit(", ");
    reveal_strlit(") VALUES (");
    reveal_strlit(")");
    reveal_strlit("algo");
    reveal_strlit("hash");
    reveal_strlit("size");
    reveal_strlit("file_type");
    reveal_strlit("ext");
    reveal_strlit("extracted_at");
    reveal_strlit("extractor_version");
    reveal_strlit("has_thumb");
    reveal_strlit("?1");
    reveal_strlit("?2");
    reveal_strlit("?3");
    reveal_strlit("?4");
    reveal_strlit("?5");
    reveal_strlit("?6");
    reveal_strlit("?7");
    reveal_strlit("?8");
    reveal_with_fuel(listed_first, 9);
    assert("INSERT OR REPLACE INTO content (algo, hash, size, file_type, ext, extracted_at, extractor_version, has_thumb) VALUES (?1, ?2, ?3, ?4, ?5, ?6, ?7, ?8)"@ =~= row_text("INSERT OR REPLACE INTO content ("@, columns, texts, Seq::empty()));
    assert forall|i: int| 0 <= i < texts.len() implies stands_for(#[trigger] texts[i], s.binds)
        == Some(values[i]) by {}
}

/// Each tag that was read of a content is put in behind it, with its group, key and
/// value.
pub proof fn law_tags_of_a_content_are_put_in(
    algo: &str,
    hash: &str,
    m: &ContentMeta,
    now: &str,
    r: Vec<Statement>,
    k: int,
)
    requires
        call_ensures(insert_content, (algo, hash, m, now), r),
        0 <= k < m.tags@.len(),
    ensures
        puts(
            r@[k + 1]@,
            "INSERT OR REPLACE INTO metadata ("@,
            seq!["algo"@, "hash"@, "grp"@, "key"@, "value"@],
            seq![
                BindView::Text(algo@),
                BindView::Text(hash@),
                BindView::Text(m.tags@[k].group@),
                BindView::Text(m.tags@[k].key@),
                BindView::Text(m.tags@[k].value@),
            ],
            Seq::empty(),
        ),
{
    assert(statement_views(r@).len() == 1 + m.tags@.len());
    assert(statement_views(r@)[k + 1] == r@[k + 1]@);
    let s = r@[k + 1]@;
    let columns = seq!["algo"@, "hash"@, "grp"@, "key"@, "value"@];
    let texts = seq!["?1"@, "?2"@, "?3"@, "?4"@, "?5"@];
    let values = seq![
        BindView::Text(algo@),
        BindView::Text(hash@),
        BindView::Text(m.tags@[k].group@),
        BindView::Text(m.tags@[k].key@),
        BindView::Text(m.tags@[k].value@),
    ];
    reveal_strlit("INSERT OR REPLACE INTO metadata (algo, hash, grp, key, value) VALUES (?1, ?2, ?3, ?4, ?5)");
    reveal_strlit("INSERT OR REPLACE INTO metadata (");
    reveal_strlit(", ");
    reveal_strlit(") VALUES (");
    reveal_strlit(")");
    reveal_strlit("algo");
    reveal_strlit("hash");
    reveal_strlit("grp");
    reveal_strlit("key");
    reveal_strlit("value");
    reveal_strlit("?1");
    reveal_strlit("?2");
    reveal_strlit("?3");
    reveal_strlit("?4");
    reveal_strlit("?5");
    reveal_with_fuel(listed_first, 6);
    assert("INSERT OR REPLACE INTO metadata (algo, hash, grp, key, value) VALUES (?1, ?2, ?3, ?4, ?5)"@ =~= row_text("INSERT OR REPLACE INTO metadata ("@, columns, texts, Seq::empty()));
    assert forall|i: int| 0 <= i < texts.len() implies stands_for(#[trigger] texts[i], s.binds)
        == Some(values[i]) by {}
}

/// Each content is put into the group, behind the groups that become part of it.
pub proof fn law_members_are_put_into_the_group(
    plan: &LinkPlan,
    members: &Vec<(String, String)>,
    now: &str,
    r: Vec<Statement>,
    k: int,
)
    requires
        call_ensures(link_members, (plan, members, now), r),
        0 <= k < members@.len(),
    ensures
        puts(
            r@[plan.merged@.len() + k]@,
            "INSERT OR IGNORE INTO link_members ("@,
            seq!["group_id"@, "algo"@, "hash"@, "added_at"@],
            seq![
                BindView::Text(plan.target@),
                BindView::Text(members@[k].0@),
                BindView::Text(members@[k].1@),
                BindView::Text(now@),
            ],
            Seq::empty(),
        ),
{
    assert(views(plan.merged@).len() == plan.merged@.len());
    assert(statement_views(r@).len() == plan.merged@.len() + members@.len());
    assert(statement_views(r@)[plan.merged@.len() + k] == r@[plan.merged@.len() + k]@);
    let s = r@[plan.merged@.len() + k]@;
    let columns = seq!["group_id"@, "algo"@, "hash"@, "added_at"@];
    let texts = seq!["?1"@, "?2"@, "?3"@, "?4"@];
    let values = seq![
        BindView::Text(plan.target@),
        BindView::Text(members@[k].0@),
        BindView::Text(members@[k].1@),
        BindView::Text(now@),
    ];
    reveal_strlit("INSERT OR IGNORE INTO link_members (group_id, algo, hash, added_at) VALUES (?1, ?2, ?3, ?4)");
    reveal_strlit("INSERT OR IGNORE INTO link_members (");
    reveal_strlit(", ");
    reveal_strlit(") VALUES (");
    reveal_strlit(")");
    reveal_strlit("group_id");
    reveal_strlit("algo");
    reveal_strlit("hash");
    reveal_strlit("added_at");
    reveal_strlit("?1");
    reveal_strlit("?2");
    reveal_strlit("?3");
    reveal_strlit("?4");
    reveal_with_fuel(listed_first, 5);
    assert("INSERT OR IGNORE INTO link_members (group_id, algo, hash, added_at) VALUES (?1, ?2, ?3, ?4)"@ =~= row_text("INSERT OR IGNORE INTO link_members ("@, columns, texts, Seq::empty()));
    assert forall|i: int| 0 <= i < texts.len() implies stands_for(#[trigger] texts[i], s.binds)
        == Some(values[i]) by {}
}

/// The search index takes the kind of a content and its extension.
pub proof fn law_kind_of_a_content_is_put_in(m: &MetaRows, r: Vec<Statement>)
    requires
        call_ensures(insert_meta, (m,), r),
    ensures
        puts(
            r@[0]@,
            "INSERT OR REPLACE INTO content ("@,
            seq!["algo"@, "hash"@, "file_type"@, "ext"@],
            seq![
                BindView::Text(m.algo@),
                BindView::Text(m.hash@),
                text_or_null(m.file_type),
                text_or_null(m.ext),
            ],
            Seq::empty(),
        ),
{
    assert(statement_views(r@).len() == 1 + m.kv@.len());
    assert(statement_views(r@)[0] == r@[0]@);
    let s = r@[0]@;
    let columns = seq!["algo"@, "hash"@, "file_type"@, "ext"@];
    let texts = seq!["?1"@, "?2"@, "?3"@, "?4"@];
    let values = seq![
        BindView::Text(m.algo@),
        BindView::Text(m.hash@),
        text_or_null(m.file_type),
        text_or_null(m.ext),
    ];
    reveal_strlit("INSERT OR REPLACE INTO content (algo, hash, file_type, ext) VALUES (?1, ?2, ?3, ?4)");
    reveal_strlit("INSERT OR REPLACE INTO content (");
    reveal_strlit(", ");
    reveal_strlit(") VALUES (");
    reveal_strlit(")");
    reveal_strlit("algo");
    reveal_strlit("hash");
    reveal_strlit("file_type");
    reveal_strlit("ext");
    reveal_strlit("?1");
    reveal_strlit("?2");
    reveal_strlit("?3");
    reveal_strlit("?4");
    reveal_with_fuel(listed_first, 5);
    assert("INSERT OR REPLACE INTO content (algo, hash, file_type, ext) VALUES (?1, ?2, ?3, ?4)"@ =~= row_text("INSERT OR REPLACE INTO content ("@, columns, texts, Seq::empty()));
    assert forall|i: int| 0 <= i < texts.len() implies stands_for(#[trigger] texts[i], s.binds)
        == Some(values[i]) by {}
}

/// The search index takes each tag and property of a content, with its kind, key and
/// value.
pub proof fn law_properties_of_a_content_are_put_in(m: &MetaRows, r: Vec<Statement>, k: int)
    requires
        call_ensures(insert_meta, (m,), r),
        0 <= k < m.kv@.len(),
    ensures
        puts(
            r@[k + 1]@,
            "INSERT INTO meta_kv ("@,
            seq!["algo"@, "hash"@, "kind"@, "key"@, "value"@],
            seq![
                BindView::Text(m.algo@),
                BindView::Text(m.hash@),
                BindView::Text(m.kv@[k].kind@),
                BindView::Text(m.kv@[k].key@),
                BindView::Text(m.kv@[k].value@),
            ],
            Seq::empty(),
        ),
{
    assert(statement_views(r@).len() == 1 + m.kv@.len());
    assert(statement_views(r@)[k + 1] == r@[k + 1]@);
    let s = r@[k + 1]@;
    let columns = seq!["algo"@, "hash"@, "kind"@, "key"@, "value"@];
    let texts = seq!["?1"@, "?2"@, "?3"@, "?4"@, "?5"@];
    let values = seq![
        BindView::Text(m.algo@),
        BindView::Text(m.hash@),
        BindView::Text(m.kv@[k].kind@),
        BindView::Text(m.kv@[k].key@),
        BindView::Text(m.kv@[k].value@),
    ];
    reveal_strlit("INSERT INTO meta_kv (algo, hash, kind, key, value) VALUES (?1, ?2, ?3, ?4, ?5)");
    reveal_strlit("INSERT INTO meta_kv (");
    reveal_strlit(", ");
    reveal_strlit(") VALUES (");
    reveal_strlit(")");
    reveal_strlit("algo");
    reveal_strlit("hash");
    reveal_strlit("kind");
    reveal_strlit("key");
    reveal_strlit("value");
    reveal_strlit("?1");
    reveal_strlit("?2");
    reveal_strlit("?3");
    reveal_strlit("?4");
    reveal_strlit("?5");
    reveal_with_fuel(listed_first, 6);
    assert("INSERT INTO meta_kv (algo, hash, kind, key, value) VALUES (?1, ?2, ?3, ?4, ?5)"@ =~= row_text("INSERT INTO meta_kv ("@, columns, texts, Seq::empty()));
    assert forall|i: int| 0 <= i < texts.len() implies stands_for(#[trigger] texts[i], s.binds)
        == Some(values[i]) by {}
}

/// A copy of a content is noted with its drive, its path and when it was seen; one that
/// is known gets the new times.
pub proof fn law_copy_is_noted_where_it_is(
    algo: &str,
    hash: &str,
    drive_id: &str,
    path: &str,
    mtime_ns: u64,
    seen_at: &str,
    r: Statement,
)
    requires
        call_ensures(upsert_location, (algo, hash, drive_id, path, mtime_ns, seen_at), r),
    ensures
        puts(
            r@,
            "INSERT INTO locations ("@,
            seq!["algo"@, "hash"@, "drive_id"@, "path"@, "mtime_ns"@, "seen_at"@],
            seq![
                BindView::Text(algo@),
                BindView::Text(hash@),
                BindView::Text(drive_id@),
                BindView::Text(path@),
                BindView::Int(signed(mtime_ns) as i64),
                BindView::Text(seen_at@),
            ],
            " ON CONFLICT(algo, hash, drive_id, path) DO UPDATE SET mtime_ns = excluded.mtime_ns, seen_at = excluded.seen_at"@,
        ),
{
    let s = r@;
    let columns = seq!["algo"@, "hash"@, "drive_id"@, "path"@, "mtime_ns"@, "seen_at"@];
    let texts = seq!["?1"@, "?2"@, "?3"@, "?4"@, "?5"@, "?6"@];
    let values = seq![
        BindView::Text(algo@),
        BindView::Text(hash@),
        BindView::Text(drive_id@),
        BindView::Text(path@),
        BindView::Int(signed(mtime_ns) as i64),
        BindView::Text(seen_at@),
    ];
    reveal_strlit("INSERT INTO locations (algo, hash, drive_id, path, mtime_ns, seen_at) VALUES (?1, ?2, ?3, ?4, ?5, ?6) ON CONFLICT(algo, hash, drive_id, path) DO UPDATE SET mtime_ns = excluded.mtime_ns, seen_at = excluded.seen_at");
    reveal_strlit("INSERT INTO locations (");
    reveal_strlit(", ");
    reveal_strlit(") VALUES (");
    reveal_strlit(")");
    reveal_strlit("algo");
    reveal_strlit("hash");
    reveal_strlit("drive_id");
    reveal_strlit("path");
    reveal_strlit("mtime_ns");
    reveal_strlit("seen_at");
    reveal_strlit("?1");
    reveal_strlit("?2");
    reveal_strlit("?3");
    reveal_strlit("?4");
    reveal_strlit("?5");
    reveal_strlit("?6");
    reveal_strlit(" ON CONFLICT(algo, hash, drive_id, path) DO UPDATE SET mtime_ns = excluded.mtime_ns, seen_at = excluded.seen_at");
    reveal_with_fuel(listed_first, 7);
    assert("INSERT INTO locations (algo, hash, drive_id, path, mtime_ns, seen_at) VALUES (?1, ?2, ?3, ?4, ?5, ?6) ON CONFLICT(algo, hash, drive_id, path) DO UPDATE SET mtime_ns = excluded.mtime_ns, seen_at = excluded.seen_at"@ =~= row_text("INSERT INTO locations ("@, columns, texts, " ON CONFLICT(algo, hash, drive_id, path) DO UPDATE SET mtime_ns = excluded.mtime_ns, seen_at = excluded.seen_at"@));
    assert forall|i: int| 0 <= i < texts.len() implies stands_for(#[trigger] texts[i], s.binds)
        == Some(values[i]) by {}
}

/// A drive is noted with its label, its root and the time, first and last seen then,
/// and online; one that is known keeps when it was first seen and whether it was taken
/// out.
pub proof fn law_drive_is_noted_where_it_is(
    drive_id: &str,
    label: &str,
    root: &str,
    now: &str,
    r: Statement,
)
    requires
        call_ensures(upsert_drive, (drive_id, label, root, now), r),
    ensures
        puts(
            r@,
            "INSERT INTO drives ("@,
            seq![
                "drive_id"@,
                "label"@,
                "last_root"@,
                "first_seen"@,
                "last_seen"@,
                "online"@,
                "detached"@,
            ],
            seq![
                BindView::Text(drive_id@),
                BindView::Text(label@),
                BindView::Text(root@),
                BindView::Text(now@),
                BindView::Text(now@),
                BindView::Int(1),
                BindView::Int(0),
            ],
            " ON CONFLICT(drive_id) DO UPDATE SET label = excluded.label, last_root = excluded.last_root, last_seen = excluded.last_seen, online = 1"@,
        ),
{
    let s = r@;
    let columns = seq![
        "drive_id"@,
        "label"@,
        "last_root"@,
        "first_seen"@,
        "last_seen"@,
        "online"@,
        "detached"@,
    ];
    let texts = seq!["?1"@, "?2"@, "?3"@, "?4"@, "?4"@, "1"@, "0"@];
    let values = seq![
        BindView::Text(drive_id@),
        BindView::Text(label@),
        BindView::Text(root@),
        BindView::Text(now@),
        BindView::Text(now@),
        BindView::Int(1),
        BindView::Int(0),
    ];
    reveal_strlit("INSERT INTO drives (drive_id, label, last_root, first_seen, last_seen, online, detached) VALUES (?1, ?2, ?3, ?4, ?4, 1, 0) ON CONFLICT(drive_id) DO UPDATE SET label = excluded.label, last_root = excluded.last_root, last_seen = excluded.last_seen, online = 1");
    reveal_strlit("INSERT INTO drives (");
    reveal_strlit(", ");
    reveal_strlit(") VALUES (");
    reveal_strlit(")");
    reveal_strlit("drive_id");
    reveal_strlit("label");
    reveal_strlit("last_root");
    reveal_strlit("first_seen");
    reveal_strlit("last_seen");
    reveal_strlit("online");
    reveal_strlit("detached");
    reveal_strlit("0");
    reveal_strlit("1");
    reveal_strlit("?1");
    reveal_strlit("?2");
    reveal_strlit("?3");
    reveal_strlit("?4");
    reveal_strlit(" ON CONFLICT(drive_id) DO UPDATE SET label = excluded.label, last_root = excluded.last_root, last_seen = excluded.last_seen, online = 1");
    reveal_with_fuel(listed_first, 8);
    assert("INSERT INTO drives (drive_id, label, last_root, first_seen, last_seen, online, detached) VALUES (?1, ?2, ?3, ?4, ?4, 1, 0) ON CONFLICT(drive_id) DO UPDATE SET label = excluded.label, last_root = excluded.last_root, last_seen = excluded.last_seen, online = 1"@ =~= row_text("INSERT INTO drives ("@, columns, texts, " ON CONFLICT(drive_id) DO UPDATE SET label = excluded.label, last_root = excluded.last_root, last_seen = excluded.last_seen, online = 1"@));
    assert("1"@[0] == '1' && "0"@[0] == '0');
    assert(s.binds =~= seq![
        BindView::Text(drive_id@),
        BindView::Text(label@),
        BindView::Text(root@),
        BindView::Text(now@),
    ]);
    assert forall|i: int| 0 <= i < texts.len() implies stands_for(#[trigger] texts[i], s.binds)
        == Some(values[i]) by {}
}

// ---- rows that are looked for ----------------------------------------------

/// The statement gives the row: its condition stands between the two texts.
pub open spec fn finds(s: StatementView, what: Seq<char>, tail: Seq<char>, row: TableRow) -> bool {
    let end = s.sql.len() - tail.len();
    &&& what.len() <= end
    &&& s.sql.take(what.len() as int) == what
    &&& s.sql.skip(end) == tail
    &&& picks(s.sql.subrange(what.len() as int, end), s.binds, row)
}

/// How a condition on two columns between two texts is read.
proof fn lemma_finds(
    s: StatementView,
    what: Seq<char>,
    first: Seq<char>,
    second: Seq<char>,
    word: Seq<char>,
    tail: Seq<char>,
    a: Seq<char>,
    b: Seq<char>,
    row: TableRow,
)
    requires
        is_name(first),
        is_name(second),
        word == " = ?"@ || word == "=?"@,
        s.sql == what + (first + word + seq!['1'] + " AND "@ + second + word + seq!['2']) + tail,
        s.binds == seq![BindView::Text(a), BindView::Text(b)],
    ensures
        finds(s, what, tail, row) == (has(row, first, a) && has(row, second, b)),
{
    let last = second + (word + seq!['2']);
    let conds = first + (word + (seq!['1'] + (" AND "@ + last)));
    assert(first + word + seq!['1'] + " AND "@ + second + word + seq!['2'] =~= conds);
    let end = s.sql.len() - tail.len();
    assert(s.sql.take(what.len() as int) =~= what);
    assert(s.sql.skip(end) =~= tail);
    assert(s.sql.subrange(what.len() as int, end) =~= conds);
    assert((49 + 0) as char == '1' && (49 + 1) as char == '2');
    lemma_picks(second, word, 1, b, Seq::empty(), row[second] == b, s.binds, row);
    lemma_picks(first, word, 0, a, last, row[first] == a, s.binds, row);
}

/// The copies of a content are those of its algorithm and hash, on drives that were not
/// taken out.
pub proof fn law_copies_of_a_content_are_found(algo: &str, hash: &str, r: Statement, row: TableRow)
    requires
        call_ensures(locations_for, (algo, hash), r),
    ensures
        finds(
            r@,
            "SELECT l.drive_id, l.path, dr.last_root, dr.online FROM locations l JOIN drives dr ON dr.drive_id = l.drive_id WHERE "@,
            " AND dr.detached=0 ORDER BY l.drive_id, l.path"@,
            row,
        ) <==> has(row, "l.algo"@, algo@) && has(row, "l.hash"@, hash@),
{
    let what = "SELECT l.drive_id, l.path, dr.last_root, dr.online FROM locations l JOIN drives dr ON dr.drive_id = l.drive_id WHERE "@;
    let (first, second) = ("l.algo"@, "l.hash"@);
    let tail = " AND dr.detached=0 ORDER BY l.drive_id, l.path"@;
    reveal_strlit("SELECT l.drive_id, l.path, dr.last_root, dr.online FROM locations l JOIN drives dr ON dr.drive_id = l.drive_id WHERE l.algo=?1 AND l.hash=?2 AND dr.detached=0 ORDER BY l.drive_id, l.path");
    reveal_strlit("SELECT l.drive_id, l.path, dr.last_root, dr.online FROM locations l JOIN drives dr ON dr.drive_id = l.drive_id WHERE ");
    reveal_strlit("l.algo");
    reveal_strlit("l.hash");
    reveal_strlit("=?");
    reveal_strlit(" AND ");
    reveal_strlit(" AND dr.detached=0 ORDER BY l.drive_id, l.path");
    assert(r@.sql =~= what + (first + "=?"@ + seq!['1'] + " AND "@ + second + "=?"@
        + seq!['2']) + tail);
    assert(r@.binds =~= seq![BindView::Text(algo@), BindView::Text(hash@)]);
    lemma_finds(r@, what, first, second, "=?"@, tail, algo@, hash@, row);
}

/// All copies of a content are those of its algorithm and hash, on whatever drive.
pub proof fn law_all_copies_of_a_content_are_found(
    algo: &str,
    hash: &str,
    r: Statement,
    row: TableRow,
)
    requires
        call_ensures(content_locations, (algo, hash), r),
    ensures
        finds(
            r@,
            "SELECT l.drive_id, l.path, dr.online FROM locations l JOIN drives dr ON dr.drive_id = l.drive_id WHERE "@,
            " ORDER BY l.drive_id, l.path"@,
            row,
        ) <==> has(row, "l.algo"@, algo@) && has(row, "l.hash"@, hash@),
{
    let what = "SELECT l.drive_id, l.path, dr.online FROM locations l JOIN drives dr ON dr.drive_id = l.drive_id WHERE "@;
    let (first, second) = ("l.algo"@, "l.hash"@);
    let tail = " ORDER BY l.drive_id, l.path"@;
    reveal_strlit("SELECT l.drive_id, l.path, dr.online FROM locations l JOIN drives dr ON dr.drive_id = l.drive_id WHERE l.algo=?1 AND l.hash=?2 ORDER BY l.drive_id, l.path");
    reveal_strlit("SELECT l.drive_id, l.path, dr.online FROM locations l JOIN drives dr ON dr.drive_id = l.drive_id WHERE ");
    reveal_strlit("l.algo");
    reveal_strlit("l.hash");
    reveal_strlit("=?");
    reveal_strlit(" AND ");
    reveal_strlit(" ORDER BY l.drive_id, l.path");
    assert(r@.sql =~= what + (first + "=?"@ + seq!['1'] + " AND "@ + second + "=?"@
        + seq!['2']) + tail);
    assert(r@.binds =~= seq![BindView::Text(algo@), BindView::Text(hash@)]);
    lemma_finds(r@, what, first, second, "=?"@, tail, algo@, hash@, row);
}

/// A file is found by its drive and its path.
pub proof fn law_file_is_found_by_drive_and_path(
    drive: &str,
    path: &str,
    r: Statement,
    row: TableRow,
)
    requires
        call_ensures(find_file, (drive, path), r),
    ensures
        finds(
            r@,
            "SELECT l.algo, l.hash, c.size, c.file_type, c.ext, c.has_thumb FROM locations l JOIN content c ON c.algo=l.algo AND c.hash=l.hash WHERE "@,
            Seq::empty(),
            row,
        ) <==> has(row, "l.drive_id"@, drive@) && has(row, "l.path"@, path@),
{
    let what = "SELECT l.algo, l.hash, c.size, c.file_type, c.ext, c.has_thumb FROM locations l JOIN content c ON c.algo=l.algo AND c.hash=l.hash WHERE "@;
    let (first, second) = ("l.drive_id"@, "l.path"@);
    let tail = Seq::empty();
    reveal_strlit("SELECT l.algo, l.hash, c.size, c.file_type, c.ext, c.has_thumb FROM locations l JOIN content c ON c.algo=l.algo AND c.hash=l.hash WHERE l.drive_id = ?1 AND l.path = ?2");
    reveal_strlit("SELECT l.algo, l.hash, c.size, c.file_type, c.ext, c.has_thumb FROM locations l JOIN content c ON c.algo=l.algo AND c.hash=l.hash WHERE ");
    reveal_strlit("l.drive_id");
    reveal_strlit("l.path");
    reveal_strlit(" = ?");
    reveal_strlit(" AND ");
    assert(r@.sql =~= what + (first + " = ?"@ + seq!['1'] + " AND "@ + second + " = ?"@
        + seq!['2']) + tail);
    assert(r@.binds =~= seq![BindView::Text(drive@), BindView::Text(path@)]);
    lemma_finds(r@, what, first, second, " = ?"@, tail, drive@, path@, row);
}

/// What is known of a content is found by its algorithm and hash.
pub proof fn law_content_is_found_by_its_hash(algo: &str, hash: &str, r: Statement, row: TableRow)
    requires
        call_ensures(content_summary, (algo, hash), r),
    ensures
        finds(
            r@,
            "SELECT size, file_type, ext, extracted_at, has_thumb FROM content WHERE "@,
            Seq::empty(),
            row,
        ) <==> has(row, "algo"@, algo@) && has(row, "hash"@, hash@),
{
    let what = "SELECT size, file_type, ext, extracted_at, has_thumb FROM content WHERE "@;
    let (first, second) = ("algo"@, "hash"@);
    let tail = Seq::empty();
    reveal_strlit("SELECT size, file_type, ext, extracted_at, has_thumb FROM content WHERE algo=?1 AND hash=?2");
    reveal_strlit("SELECT size, file_type, ext, extracted_at, has_thumb FROM content WHERE ");
    reveal_strlit("algo");
    reveal_strlit("hash");
    reveal_strlit("=?");
    reveal_strlit(" AND ");
    assert(r@.sql =~= what + (first + "=?"@ + seq!['1'] + " AND "@ + second + "=?"@
        + seq!['2']) + tail);
    assert(r@.binds =~= seq![BindView::Text(algo@), BindView::Text(hash@)]);
    lemma_finds(r@, what, first, second, "=?"@, tail, algo@, hash@, row);
}

/// What was read of a content is found by its algorithm and hash.
pub proof fn law_metadata_is_found_by_its_content(
    algo: &str,
    hash: &str,
    r: Statement,
    row: TableRow,
)
    requires
        call_ensures(content_metadata, (algo, hash), r),
    ensures
        finds(
            r@,
            "SELECT grp, key, value FROM metadata WHERE "@,
            " ORDER BY grp, key"@,
            row,
        ) <==> has(row, "algo"@, algo@) && has(row, "hash"@, hash@),
{
    let what = "SELECT grp, key, value FROM metadata WHERE "@;
    let (first, second) = ("algo"@, "hash"@);
    let tail = " ORDER BY grp, key"@;
    reveal_strlit("SELECT grp, key, value FROM metadata WHERE algo=?1 AND hash=?2 ORDER BY grp, key");
    reveal_strlit("SELECT grp, key, value FROM metadata WHERE ");
    reveal_strlit("algo");
    reveal_strlit("hash");
    reveal_strlit("=?");
    reveal_strlit(" AND ");
    reveal_strlit(" ORDER BY grp, key");
    assert(r@.sql =~= what + (first + "=?"@ + seq!['1'] + " AND "@ + second + "=?"@
        + seq!['2']) + tail);
    assert(r@.binds =~= seq![BindView::Text(algo@), BindView::Text(hash@)]);
    lemma_finds(r@, what, first, second, "=?"@, tail, algo@, hash@, row);
}

/// Whether a content is known goes by its algorithm and hash.
pub proof fn law_known_content_is_found(algo: &str, hash: &str, r: Statement, row: TableRow)
    requires
        call_ensures(has_content, (algo, hash), r),
    ensures
        finds(
            r@,
            "SELECT 1 FROM content WHERE "@,
            Seq::empty(),
            row,
        ) <==> has(row, "algo"@, algo@) && has(row, "hash"@, hash@),
{
    let what = "SELECT 1 FROM content WHERE "@;
    let (first, second) = ("algo"@, "hash"@);
    let tail = Seq::empty();
    reveal_strlit("SELECT 1 FROM content WHERE algo = ?1 AND hash = ?2");
    reveal_strlit("SELECT 1 FROM content WHERE ");
    reveal_strlit("algo");
    reveal_strlit("hash");
    reveal_strlit(" = ?");
    reveal_strlit(" AND ");
    assert(r@.sql =~= what + (first + " = ?"@ + seq!['1'] + " AND "@ + second + " = ?"@
        + seq!['2']) + tail);
    assert(r@.binds =~= seq![BindView::Text(algo@), BindView::Text(hash@)]);
    lemma_finds(r@, what, first, second, " = ?"@, tail, algo@, hash@, row);
}

/// The tags of a content are found by its algorithm and hash.
pub proof fn law_tags_are_found_by_their_content(
    algo: &str,
    hash: &str,
    r: Statement,
    row: TableRow,
)
    requires
        call_ensures(list_tags, (algo, hash), r),
    ensures
        finds(
            r@,
            "SELECT tag FROM tags WHERE "@,
            " ORDER BY tag"@,
            row,
        ) <==> has(row, "algo"@, algo@) && has(row, "hash"@, hash@),
{
    let what = "SELECT tag FROM tags WHERE "@;
    let (first, second) = ("algo"@, "hash"@);
    let tail = " ORDER BY tag"@;
    reveal_strlit("SELECT tag FROM tags WHERE algo = ?1 AND hash = ?2 ORDER BY tag");
    reveal_strlit("SELECT tag FROM tags WHERE ");
    reveal_strlit("algo");
    reveal_strlit("hash");
    reveal_strlit(" = ?");
    reveal_strlit(" AND ");
    reveal_strlit(" ORDER BY tag");
    assert(r@.sql =~= what + (first + " = ?"@ + seq!['1'] + " AND "@ + second + " = ?"@
        + seq!['2']) + tail);
    assert(r@.binds =~= seq![BindView::Text(algo@), BindView::Text(hash@)]);
    lemma_finds(r@, what, first, second, " = ?"@, tail, algo@, hash@, row);
}

/// The group of a content is found by its algorithm and hash.
pub proof fn law_group_is_found_by_its_member(algo: &str, hash: &str, r: Statement, row: TableRow)
    requires
        call_ensures(find_group, (algo, hash), r),
    ensures
        finds(
            r@,
            "SELECT group_id FROM link_members WHERE "@,
            Seq::empty(),
            row,
        ) <==> has(row, "algo"@, algo@) && has(row, "hash"@, hash@),
{
    let what = "SELECT group_id FROM link_members WHERE "@;
    let (first, second) = ("algo"@, "hash"@);
    let tail = Seq::empty();
    reveal_strlit("SELECT group_id FROM link_members WHERE algo = ?1 AND hash = ?2");
    reveal_strlit("SELECT group_id FROM link_members WHERE ");
    reveal_strlit("algo");
    reveal_strlit("hash");
    reveal_strlit(" = ?");
    reveal_strlit(" AND ");
    assert(r@.sql =~= what + (first + " = ?"@ + seq!['1'] + " AND "@ + second + " = ?"@
        + seq!['2']) + tail);
    assert(r@.binds =~= seq![BindView::Text(algo@), BindView::Text(hash@)]);
    lemma_finds(r@, what, first, second, " = ?"@, tail, algo@, hash@, row);
}

/// The contents of a group are found by the algorithm and hash of one of them.
pub proof fn law_members_are_found_by_one_of_them(
    algo: &str,
    hash: &str,
    r: Statement,
    row: TableRow,
)
    requires
        call_ensures(list_group, (algo, hash), r),
    ensures
        finds(
            r@,
            "SELECT m2.algo, m2.hash FROM link_members m1 JOIN link_members m2 ON m1.group_id = m2.group_id WHERE "@,
            " ORDER BY m2.hash"@,
            row,
        ) <==> has(row, "m1.algo"@, algo@) && has(row, "m1.hash"@, hash@),
{
    let what = "SELECT m2.algo, m2.hash FROM link_members m1 JOIN link_members m2 ON m1.group_id = m2.group_id WHERE "@;
    let (first, second) = ("m1.algo"@, "m1.hash"@);
    let tail = " ORDER BY m2.hash"@;
    reveal_strlit("SELECT m2.algo, m2.hash FROM link_members m1 JOIN link_members m2 ON m1.group_id = m2.group_id WHERE m1.algo = ?1 AND m1.hash = ?2 ORDER BY m2.hash");
    reveal_strlit("SELECT m2.algo, m2.hash FROM link_members m1 JOIN link_members m2 ON m1.group_id = m2.group_id WHERE ");
    reveal_strlit("m1.algo");
    reveal_strlit("m1.hash");
    reveal_strlit(" = ?");
    reveal_strlit(" AND ");
    reveal_strlit(" ORDER BY m2.hash");
    assert(r@.sql =~= what + (first + " = ?"@ + seq!['1'] + " AND "@ + second + " = ?"@
        + seq!['2']) + tail);
    assert(r@.binds =~= seq![BindView::Text(algo@), BindView::Text(hash@)]);
    lemma_finds(r@, what, first, second, " = ?"@, tail, algo@, hash@, row);
}

/// A content is looked up by what its hash starts with, in whatever case, and no more
/// than two are needed to see that one is not the only one.
pub proof fn law_contents_are_looked_up_by_a_start(prefix: &str, r: Statement, hash: Seq<char>)
    requires
        call_ensures(find_hash, (prefix,), r),
        !prefix@.contains('%'),
        !prefix@.contains('_'),
    ensures
        r@.sql == "SELECT algo, hash FROM content WHERE "@ + "hash LIKE ?1"@ + " LIMIT 2"@,
        r@.binds.len() == 1,
        r@.binds[0] is Text,
        like(hash, r@.binds[0]->Text_0) <==> has_prefix(lowered(hash), lowered(prefix@)),
{
    reveal_strlit("SELECT algo, hash FROM content WHERE hash LIKE ?1 LIMIT 2");
    reveal_strlit("SELECT algo, hash FROM content WHERE ");
    reveal_strlit("hash LIKE ?1");
    reveal_strlit(" LIMIT 2");
    reveal_strlit("%");
    assert(prefix_pattern(prefix@) =~= prefix@.push('%'));
    law_pattern_of_a_start(hash, prefix@);
}

/// A thumbnail is looked up by what the hash of its content starts with, in whatever
/// case, at a copy on a drive that was not taken out, one that is there first.
pub proof fn law_thumbnails_are_looked_up_by_a_start(prefix: &str, r: Statement, hash: Seq<char>)
    requires
        call_ensures(thumb_lookup, (prefix,), r),
        !prefix@.contains('%'),
        !prefix@.contains('_'),
    ensures
        r@.sql
            == "SELECT c.algo, c.hash, c.has_thumb, dr.last_root, l.path FROM content c JOIN locations l ON l.algo = c.algo AND l.hash = c.hash JOIN drives dr ON dr.drive_id = l.drive_id AND dr.detached = 0 WHERE "@
            + "c.hash LIKE ?1"@ + " ORDER BY dr.online DESC LIMIT 1"@,
        r@.binds.len() == 1,
        r@.binds[0] is Text,
        like(hash, r@.binds[0]->Text_0) <==> has_prefix(lowered(hash), lowered(prefix@)),
{
    reveal_strlit(
        "SELECT c.algo, c.hash, c.has_thumb, dr.last_root, l.path FROM content c JOIN locations l ON l.algo = c.algo AND l.hash = c.hash JOIN drives dr ON dr.drive_id = l.drive_id AND dr.detached = 0 WHERE c.hash LIKE ?1 ORDER BY dr.online DESC LIMIT 1",
    );
    reveal_strlit(
        "SELECT c.algo, c.hash, c.has_thumb, dr.last_root, l.path FROM content c JOIN locations l ON l.algo = c.algo AND l.hash = c.hash JOIN drives dr ON dr.drive_id = l.drive_id AND dr.detached = 0 WHERE ",
    );
    reveal_strlit("c.hash LIKE ?1");
    reveal_strlit(" ORDER BY dr.online DESC LIMIT 1");
    reveal_strlit("%");
    assert(prefix_pattern(prefix@) =~= prefix@.push('%'));
    law_pattern_of_a_start(hash, prefix@);
}

/// The listing of a directory looks at the rows of its drive whose paths start with the
/// path of the directory and a slash.
pub proof fn law_listing_looks_below_the_directory(
    drive: &str,
    path: &str,
    r: Listing,
    row: TableRow,
)
    requires
        call_ensures(list_dir, (drive, path), r),
        dir_prefix(path@).len() > 0,
    ensures
        finds(
            r.files@,
            "SELECT substr(l.path, ?4 + 1) AS name, l.algo, l.hash, c.size, c.file_type, c.ext, c.has_thumb FROM locations l JOIN content c ON c.algo = l.algo AND c.hash = l.hash WHERE "@,
            " AND instr(substr(l.path, ?4 + 1), '/') = 0 ORDER BY name"@,
            row,
        ) <==> has(row, "l.drive_id"@, drive@) && row.dom().contains("l.path"@) && has_prefix(
            row["l.path"@],
            dir_prefix(path@),
        ),
        finds(
            r.dirs@,
            "SELECT child, COUNT(*) AS n FROM (SELECT substr(rest, 1, instr(rest, '/') - 1) AS child FROM (SELECT substr(l.path, ?4 + 1) AS rest FROM locations l WHERE "@,
            ") WHERE instr(rest, '/') > 0) GROUP BY child ORDER BY child"@,
            row,
        ) <==> has(row, "l.drive_id"@, drive@) && row.dom().contains("l.path"@) && has_prefix(
            row["l.path"@],
            dir_prefix(path@),
        ),
        r.files@.binds.len() == 4,
        dir_prefix(path@).len() <= i64::MAX ==> r.files@.binds[3] == BindView::Int(
            dir_prefix(path@).len() as i64,
        ),
        r.dirs@.binds == r.files@.binds,
{
    let prefix = dir_prefix(path@);
    let conds = "l.drive_id = ?1 AND l.path >= ?2 AND l.path < ?3"@;
    reveal_strlit("/");
    assert(prefix.last() == '/');
    lemma_listing_conds(drive@, prefix, r.files@.binds, row);
    assert("l.drive_id = ?1 "@ + "AND l.path >= ?2 AND l.path < ?3"@ =~= conds) by {
        reveal_strlit("l.drive_id = ?1 ");
        reveal_strlit("AND l.path >= ?2 AND l.path < ?3");
        reveal_strlit("l.drive_id = ?1 AND l.path >= ?2 AND l.path < ?3");
    }
    let (w, t) = (
        "SELECT substr(l.path, ?4 + 1) AS name, l.algo, l.hash, c.size, c.file_type, c.ext, c.has_thumb FROM locations l JOIN content c ON c.algo = l.algo AND c.hash = l.hash WHERE "@,
        " AND instr(substr(l.path, ?4 + 1), '/') = 0 ORDER BY name"@,
    );
    assert("SELECT substr(l.path, ?4 + 1) AS name, l.algo, l.hash, c.size, c.file_type, c.ext, c.has_thumb FROM locations l JOIN content c ON c.algo = l.algo AND c.hash = l.hash WHERE l.drive_id = ?1 "@ =~= w + "l.drive_id = ?1 "@) by {
        reveal_strlit("SELECT substr(l.path, ?4 + 1) AS name, l.algo, l.hash, c.size, c.file_type, c.ext, c.has_thumb FROM locations l JOIN content c ON c.algo = l.algo AND c.hash = l.hash WHERE l.drive_id = ?1 ");
        reveal_strlit("SELECT substr(l.path, ?4 + 1) AS name, l.algo, l.hash, c.size, c.file_type, c.ext, c.has_thumb FROM locations l JOIN content c ON c.algo = l.algo AND c.hash = l.hash WHERE ");
        reveal_strlit("l.drive_id = ?1 ");
    }
    assert(r.files@.sql =~= w + conds + t);
    lemma_between(r.files@, w, conds, t, row);
    let (w2, t2) = (
        "SELECT child, COUNT(*) AS n FROM (SELECT substr(rest, 1, instr(rest, '/') - 1) AS child FROM (SELECT substr(l.path, ?4 + 1) AS rest FROM locations l WHERE "@,
        ") WHERE instr(rest, '/') > 0) GROUP BY child ORDER BY child"@,
    );
    assert("SELECT child, COUNT(*) AS n FROM (SELECT substr(rest, 1, instr(rest, '/') - 1) AS child FROM (SELECT substr(l.path, ?4 + 1) AS rest FROM locations l WHERE l.drive_id = ?1 "@ =~= w2 + "l.drive_id = ?1 "@) by {
        reveal_strlit("SELECT child, COUNT(*) AS n FROM (SELECT substr(rest, 1, instr(rest, '/') - 1) AS child FROM (SELECT substr(l.path, ?4 + 1) AS rest FROM locations l WHERE l.drive_id = ?1 ");
        reveal_strlit("SELECT child, COUNT(*) AS n FROM (SELECT substr(rest, 1, instr(rest, '/') - 1) AS child FROM (SELECT substr(l.path, ?4 + 1) AS rest FROM locations l WHERE ");
        reveal_strlit("l.drive_id = ?1 ");
    }
    assert(r.dirs@.sql =~= w2 + conds + t2);
    lemma_between(r.dirs@, w2, conds, t2, row);
}

proof fn lemma_between(
    s: StatementView,
    what: Seq<char>,
    conds: Seq<char>,
    tail: Seq<char>,
    row: TableRow,
)
    requires
        s.sql == what + conds + tail,
    ensures
        finds(s, what, tail, row) == picks(conds, s.binds, row),
{
    let end = s.sql.len() - tail.len();
    assert(s.sql.take(what.len() as int) =~= what);
    assert(s.sql.skip(end) =~= tail);
    assert(s.sql.subrange(what.len() as int, end) =~= conds);
}

proof fn lemma_listing_conds(
    drive: Seq<char>,
    prefix: Seq<char>,
    b: Seq<BindView>,
    row: TableRow,
)
    requires
        prefix.len() > 0,
        (prefix.last() as int) < 0x7f,
        b.len() == 4,
        b[0] == BindView::Text(drive),
        b[1] == BindView::Text(prefix),
        b[2] == BindView::Text(upper_of(prefix)),
    ensures
        picks("l.drive_id = ?1 AND l.path >= ?2 AND l.path < ?3"@, b, row) == (has(
            row,
            "l.drive_id"@,
            drive,
        ) && row.dom().contains("l.path"@) && has_prefix(row["l.path"@], prefix)),
{
    let third = "l.path"@ + (" < ?"@ + seq!['3']);
    let second = "l.path"@ + (" >= ?"@ + (seq!['2'] + (" AND "@ + third)));
    let first = "l.drive_id"@ + (" = ?"@ + (seq!['1'] + (" AND "@ + second)));
    reveal_strlit("l.drive_id = ?1 AND l.path >= ?2 AND l.path < ?3");
    reveal_strlit("l.drive_id");
    reveal_strlit("l.path");
    reveal_strlit(" = ?");
    reveal_strlit(" < ?");
    reveal_strlit(" >= ?");
    reveal_strlit(" AND ");
    assert("l.drive_id = ?1 AND l.path >= ?2 AND l.path < ?3"@ =~= first);
    assert((49 + 0) as char == '1' && (49 + 1) as char == '2' && (49 + 2) as char == '3');
    let (v, upper) = (row["l.path"@], upper_of(prefix));
    let none = Seq::<char>::empty();
    lemma_picks("l.path"@, " < ?"@, 2, upper, none, text_lt(v, upper), b, row);
    lemma_picks("l.path"@, " >= ?"@, 1, prefix, third, !text_lt(v, prefix), b, row);
    lemma_picks("l.drive_id"@, " = ?"@, 0, drive, second, row["l.drive_id"@] == drive, b, row);
    law_range_is_the_subtree(prefix, v);
}

/// The listing of the root of a drive looks at all rows of the drive.
pub proof fn law_listing_of_a_root_looks_at_the_drive(
    drive: &str,
    path: &str,
    r: Listing,
    row: TableRow,
)
    requires
        call_ensures(list_dir, (drive, path), r),
        dir_prefix(path@).len() == 0,
    ensures
        finds(
            r.files@,
            "SELECT substr(l.path, ?4 + 1) AS name, l.algo, l.hash, c.size, c.file_type, c.ext, c.has_thumb FROM locations l JOIN content c ON c.algo = l.algo AND c.hash = l.hash WHERE "@,
            " "@ + " AND instr(substr(l.path, ?4 + 1), '/') = 0 ORDER BY name"@,
            row,
        ) <==> has(row, "l.drive_id"@, drive@),
        finds(
            r.dirs@,
            "SELECT child, COUNT(*) AS n FROM (SELECT substr(rest, 1, instr(rest, '/') - 1) AS child FROM (SELECT substr(l.path, ?4 + 1) AS rest FROM locations l WHERE "@,
            " "@ + ") WHERE instr(rest, '/') > 0) GROUP BY child ORDER BY child"@,
            row,
        ) <==> has(row, "l.drive_id"@, drive@),
{
    let conds = "l.drive_id"@ + (" = ?"@ + seq!['1']);
    let (w, t) = ("SELECT substr(l.path, ?4 + 1) AS name, l.algo, l.hash, c.size, c.file_type, c.ext, c.has_thumb FROM locations l JOIN content c ON c.algo = l.algo AND c.hash = l.hash WHERE "@, " AND instr(substr(l.path, ?4 + 1), '/') = 0 ORDER BY name"@);
    let (w2, t2) = ("SELECT child, COUNT(*) AS n FROM (SELECT substr(rest, 1, instr(rest, '/') - 1) AS child FROM (SELECT substr(l.path, ?4 + 1) AS rest FROM locations l WHERE "@, ") WHERE instr(rest, '/') > 0) GROUP BY child ORDER BY child"@);
    reveal_strlit("l.drive_id");
    reveal_strlit(" = ?");
    reveal_strlit(" ");
    assert("SELECT substr(l.path, ?4 + 1) AS name, l.algo, l.hash, c.size, c.file_type, c.ext, c.has_thumb FROM locations l JOIN content c ON c.algo = l.algo AND c.hash = l.hash WHERE l.drive_id = ?1 "@ =~= w + conds + " "@) by {
        reveal_strlit("SELECT substr(l.path, ?4 + 1) AS name, l.algo, l.hash, c.size, c.file_type, c.ext, c.has_thumb FROM locations l JOIN content c ON c.algo = l.algo AND c.hash = l.hash WHERE l.drive_id = ?1 ");
        reveal_strlit("SELECT substr(l.path, ?4 + 1) AS name, l.algo, l.hash, c.size, c.file_type, c.ext, c.has_thumb FROM locations l JOIN content c ON c.algo = l.algo AND c.hash = l.hash WHERE ");
    }
    assert("SELECT child, COUNT(*) AS n FROM (SELECT substr(rest, 1, instr(rest, '/') - 1) AS child FROM (SELECT substr(l.path, ?4 + 1) AS rest FROM locations l WHERE l.drive_id = ?1 "@ =~= w2 + conds + " "@) by {
        reveal_strlit("SELECT child, COUNT(*) AS n FROM (SELECT substr(rest, 1, instr(rest, '/') - 1) AS child FROM (SELECT substr(l.path, ?4 + 1) AS rest FROM locations l WHERE l.drive_id = ?1 ");
        reveal_strlit("SELECT child, COUNT(*) AS n FROM (SELECT substr(rest, 1, instr(rest, '/') - 1) AS child FROM (SELECT substr(l.path, ?4 + 1) AS rest FROM locations l WHERE ");
    }
    assert(r.files@.sql =~= w + conds + (" "@ + t));
    assert(r.dirs@.sql =~= w2 + conds + (" "@ + t2));
    assert((49 + 0) as char == '1');
    let b = r.files@.binds;
    assert(b[0] == BindView::Text(drive@));
    assert(r.dirs@.binds == b);
    lemma_picks(
        "l.drive_id"@,
        " = ?"@,
        0,
        drive@,
        Seq::empty(),
        row["l.drive_id"@] == drive@,
        b,
        row,
    );
    lemma_between(r.files@, w, conds, " "@ + t, row);
    lemma_between(r.dirs@, w2, conds, " "@ + t2, row);
}

/// A label goes to the drive that is named, unless it was taken out.
pub proof fn law_label_goes_to_its_drive(drive: &str, label: &str, r: Statement, row: TableRow)
    requires
        call_ensures(relabel_drive, (drive, label), r),
    ensures
        finds(r@, "UPDATE drives SET label = ?2 WHERE "@, " AND detached = 0"@, row) <==> has(
            row,
            "drive_id"@,
            drive@,
        ),
        r@.binds.len() == 2,
        r@.binds[1] == BindView::Text(label@),
{
    let conds = "drive_id"@ + (" = ?"@ + seq!['1']);
    let (w, t) = ("UPDATE drives SET label = ?2 WHERE "@, " AND detached = 0"@);
    reveal_strlit("UPDATE drives SET label = ?2 WHERE drive_id = ?1 AND detached = 0");
    reveal_strlit("UPDATE drives SET label = ?2 WHERE ");
    reveal_strlit(" AND detached = 0");
    reveal_strlit("drive_id");
    reveal_strlit(" = ?");
    assert(r@.sql =~= w + conds + t);
    assert((49 + 0) as char == '1');
    let b = r@.binds;
    assert(b[0] == BindView::Text(drive@));
    lemma_column_names();
    lemma_picks("drive_id"@, " = ?"@, 0, drive@, Seq::empty(), row["drive_id"@] == drive@, b, row);
    lemma_between(r@, w, conds, t, row);
}

/// The condition that no copy is left of the content of a row of the table.
pub open spec fn without_copies(table: Seq<char>) -> Seq<char> {
    "NOT EXISTS (SELECT 1 FROM locations l WHERE l.algo = "@ + table + ".algo AND l.hash = "@ + table
        + ".hash)"@
}

/// What goes with a drive is what has no copy left: the thumbnails, the metadata and the
/// contents go by the same condition.
pub proof fn law_what_has_no_copy_left_goes(drive: &str, r: DetachPlan)
    requires
        call_ensures(detach_drive, (drive,), r),
    ensures
        r.orphans.sql@ == "SELECT c.algo, c.hash FROM content c WHERE "@ + without_copies("c"@),
        r.metadata.sql@ == "DELETE FROM metadata WHERE "@ + without_copies("metadata"@),
        r.content.sql@ == "DELETE FROM content WHERE "@ + without_copies("content"@),
        r.orphans@.binds.len() == 0,
        r.metadata@.binds.len() == 0,
        r.content@.binds.len() == 0,
{
    reveal_strlit("NOT EXISTS (SELECT 1 FROM locations l WHERE l.algo = ");
    reveal_strlit(".algo AND l.hash = ");
    reveal_strlit(".hash)");
    assert(r.orphans.sql@ =~= "SELECT c.algo, c.hash FROM content c WHERE "@ + without_copies(
        "c"@,
    )) by {
        reveal_strlit(
            "SELECT c.algo, c.hash FROM content c WHERE NOT EXISTS (SELECT 1 FROM locations l WHERE l.algo = c.algo AND l.hash = c.hash)",
        );
        reveal_strlit("SELECT c.algo, c.hash FROM content c WHERE ");
        reveal_strlit("c");
    }
    assert(r.metadata.sql@ =~= "DELETE FROM metadata WHERE "@ + without_copies("metadata"@)) by {
        reveal_strlit(
            "DELETE FROM metadata WHERE NOT EXISTS (SELECT 1 FROM locations l WHERE l.algo = metadata.algo AND l.hash = metadata.hash)",
        );
        reveal_strlit("DELETE FROM metadata WHERE ");
        reveal_strlit("metadata");
    }
    assert(r.content.sql@ =~= "DELETE FROM content WHERE "@ + without_copies("content"@)) by {
        reveal_strlit(
            "DELETE FROM content WHERE NOT EXISTS (SELECT 1 FROM locations l WHERE l.algo = content.algo AND l.hash = content.hash)",
        );
        reveal_strlit("DELETE FROM content WHERE ");
        reveal_strlit("content");
    }
}

/// The drives are listed that were not taken out, by label and then by id.
pub proof fn law_drives_are_listed_by_label(r: Statement)
    requires
        call_ensures(list_drives, (), r),
    ensures
        r@.sql
            == "SELECT d.drive_id, d.label, d.last_root, d.first_seen, d.last_seen, d.online, d.detached, "@
            + "(SELECT COUNT(*) FROM locations l WHERE l.drive_id = d.drive_id)"@
            + " FROM drives d WHERE d.detached = 0"@ + " ORDER BY d.label, d.drive_id"@,
        r@.binds.len() == 0,
{
    reveal_strlit(
        "SELECT d.drive_id, d.label, d.last_root, d.first_seen, d.last_seen, d.online, d.detached, (SELECT COUNT(*) FROM locations l WHERE l.drive_id = d.drive_id) FROM drives d WHERE d.detached = 0 ORDER BY d.label, d.drive_id",
    );
    reveal_strlit(
        "SELECT d.drive_id, d.label, d.last_root, d.first_seen, d.last_seen, d.online, d.detached, ",
    );
    reveal_strlit("(SELECT COUNT(*) FROM locations l WHERE l.drive_id = d.drive_id)");
    reveal_strlit(" FROM drives d WHERE d.detached = 0");
    reveal_strlit(" ORDER BY d.label, d.drive_id");
}

} // verus!
