//! The statements that read and change the rows of the two indexes.
use vstd::prelude::*;

use crate::index_store::{FileInsert, KvInsert, MetaRows};
use crate::sql::{
    bind_views, flag, signed, statement_views, text_or_null, to_signed, BindView, Statement,
    StatementView,
};
use crate::store::{hash_pattern, prefix_pattern, ContentMeta, LinkPlan, MetaTag};
use crate::text::views;

verus! {

/// A statement with texts bound in order.
pub open spec fn with_texts(sql: Seq<char>, texts: Seq<Seq<char>>) -> StatementView {
    StatementView { sql, binds: texts.map_values(|t: Seq<char>| BindView::Text(t)) }
}

fn texts1(sql: &str, a: &str) -> (r: Statement)
    ensures
        r@ == with_texts(sql@, seq![a@]),
{
    let mut s: Statement = Statement::part(sql);
    s.bind_text(a);
    assert(s@ =~= with_texts(sql@, seq![a@]));
    s
}

fn texts2(sql: &str, a: &str, b: &str) -> (r: Statement)
    ensures
        r@ == with_texts(sql@, seq![a@, b@]),
{
    let mut s: Statement = Statement::part(sql);
    s.bind_text(a);
    s.bind_text(b);
    assert(s@ =~= with_texts(sql@, seq![a@, b@]));
    s
}

fn texts3(sql: &str, a: &str, b: &str, c: &str) -> (r: Statement)
    ensures
        r@ == with_texts(sql@, seq![a@, b@, c@]),
{
    let mut s: Statement = Statement::part(sql);
    s.bind_text(a);
    s.bind_text(b);
    s.bind_text(c);
    assert(s@ =~= with_texts(sql@, seq![a@, b@, c@]));
    s
}

fn texts4(sql: &str, a: &str, b: &str, c: &str, d: &str) -> (r: Statement)
    ensures
        r@ == with_texts(sql@, seq![a@, b@, c@, d@]),
{
    let mut s: Statement = Statement::part(sql);
    s.bind_text(a);
    s.bind_text(b);
    s.bind_text(c);
    s.bind_text(d);
    assert(s@ =~= with_texts(sql@, seq![a@, b@, c@, d@]));
    s
}

fn texts5(sql: &str, a: &str, b: &str, c: &str, d: &str, e: &str) -> (r: Statement)
    ensures
        r@ == with_texts(sql@, seq![a@, b@, c@, d@, e@]),
{
    let mut s: Statement = Statement::part(sql);
    s.bind_text(a);
    s.bind_text(b);
    s.bind_text(c);
    s.bind_text(d);
    s.bind_text(e);
    assert(s@ =~= with_texts(sql@, seq![a@, b@, c@, d@, e@]));
    s
}

// ---- drives ----------------------------------------------------------------

/// Notes that a drive was seen at a root; one that was taken out stays out.
pub fn upsert_drive(drive_id: &str, label: &str, root: &str, now: &str) -> (r: Statement)
    ensures
        r@ == with_texts(
            "INSERT INTO drives (drive_id, label, last_root, first_seen, last_seen, online, detached) VALUES (?1, ?2, ?3, ?4, ?4, 1, 0) ON CONFLICT(drive_id) DO UPDATE SET label = excluded.label, last_root = excluded.last_root, last_seen = excluded.last_seen, online = 1"@,
            seq![drive_id@, label@, root@, now@],
        ),
{
    texts4(
        "INSERT INTO drives (drive_id, label, last_root, first_seen, last_seen, online, detached) VALUES (?1, ?2, ?3, ?4, ?4, 1, 0) ON CONFLICT(drive_id) DO UPDATE SET label = excluded.label, last_root = excluded.last_root, last_seen = excluded.last_seen, online = 1",
        drive_id,
        label,
        root,
        now,
    )
}

/// The drives that were not taken out, each with the number of its files.
pub fn list_drives() -> (r: Statement)
    ensures
        r@ == with_texts(
            "SELECT d.drive_id, d.label, d.last_root, d.first_seen, d.last_seen, d.online, d.detached, (SELECT COUNT(*) FROM locations l WHERE l.drive_id = d.drive_id) FROM drives d WHERE d.detached = 0 ORDER BY d.label, d.drive_id"@,
            Seq::empty(),
        ),
{
    let s: Statement = Statement::part(
        "SELECT d.drive_id, d.label, d.last_root, d.first_seen, d.last_seen, d.online, d.detached, (SELECT COUNT(*) FROM locations l WHERE l.drive_id = d.drive_id) FROM drives d WHERE d.detached = 0 ORDER BY d.label, d.drive_id",
    );
    assert(s@.binds =~= Seq::<Seq<char>>::empty().map_values(|t: Seq<char>| BindView::Text(t)));
    s
}

/// Notes whether a drive is there.
pub fn set_drive_online(drive_id: &str, online: bool) -> (r: Statement)
    ensures
        r.sql@ == "UPDATE drives SET online = ?2 WHERE drive_id = ?1"@,
        bind_views(r.binds@) == seq![BindView::Text(drive_id@), flag(online)],
{
    let mut s: Statement = Statement::part("UPDATE drives SET online = ?2 WHERE drive_id = ?1");
    s.bind_text(drive_id);
    s.bind_flag(online);
    assert(bind_views(s.binds@) =~= seq![BindView::Text(drive_id@), flag(online)]);
    s
}

/// Gives a drive another label.
pub fn relabel_drive(drive_id: &str, label: &str) -> (r: Statement)
    ensures
        r@ == with_texts(
            "UPDATE drives SET label = ?2 WHERE drive_id = ?1 AND detached = 0"@,
            seq![drive_id@, label@],
        ),
{
    texts2(
        "UPDATE drives SET label = ?2 WHERE drive_id = ?1 AND detached = 0",
        drive_id,
        label,
    )
}

/// How to take a drive out, in this order.
#[derive(Clone, Debug)]
pub struct DetachPlan {
    /// Removes its copies.
    pub locations: Statement,
    /// Marks it.
    pub mark: Statement,
    /// Finds the contents that have no copy left, whose thumbnails go too.
    pub orphans: Statement,
    /// Removes the metadata of contents that have no copy left.
    pub metadata: Statement,
    /// Removes the contents that have no copy left.
    pub content: Statement,
}

/// How to take a drive out.
pub fn detach_drive(drive_id: &str) -> (r: DetachPlan)
    ensures
        r.locations@ == with_texts("DELETE FROM locations WHERE drive_id = ?1"@, seq![drive_id@]),
        r.mark@ == with_texts(
            "UPDATE drives SET detached = 1, online = 0 WHERE drive_id = ?1"@,
            seq![drive_id@],
        ),
        r.orphans.sql@
            == "SELECT c.algo, c.hash FROM content c WHERE NOT EXISTS (SELECT 1 FROM locations l WHERE l.algo = c.algo AND l.hash = c.hash)"@,
        r.metadata.sql@
            == "DELETE FROM metadata WHERE NOT EXISTS (SELECT 1 FROM locations l WHERE l.algo = metadata.algo AND l.hash = metadata.hash)"@,
        r.content.sql@
            == "DELETE FROM content WHERE NOT EXISTS (SELECT 1 FROM locations l WHERE l.algo = content.algo AND l.hash = content.hash)"@,
        bind_views(r.orphans.binds@).len() == 0,
        bind_views(r.metadata.binds@).len() == 0,
        bind_views(r.content.binds@).len() == 0,
{
    DetachPlan {
        locations: texts1("DELETE FROM locations WHERE drive_id = ?1", drive_id),
        mark: texts1("UPDATE drives SET detached = 1, online = 0 WHERE drive_id = ?1", drive_id),
        orphans: Statement::part(
            "SELECT c.algo, c.hash FROM content c WHERE NOT EXISTS (SELECT 1 FROM locations l WHERE l.algo = c.algo AND l.hash = c.hash)",
        ),
        metadata: Statement::part(
            "DELETE FROM metadata WHERE NOT EXISTS (SELECT 1 FROM locations l WHERE l.algo = metadata.algo AND l.hash = metadata.hash)",
        ),
        content: Statement::part(
            "DELETE FROM content WHERE NOT EXISTS (SELECT 1 FROM locations l WHERE l.algo = content.algo AND l.hash = content.hash)",
        ),
    }
}

// ---- contents and copies ---------------------------------------------------

/// Finds a content.
pub fn has_content(algo: &str, hash: &str) -> (r: Statement)
    ensures
        r@ == with_texts(
            "SELECT 1 FROM content WHERE algo = ?1 AND hash = ?2"@,
            seq![algo@, hash@],
        ),
{
    texts2("SELECT 1 FROM content WHERE algo = ?1 AND hash = ?2", algo, hash)
}

/// The statement for the row of a content.
pub open spec fn content_row(
    algo: Seq<char>,
    hash: Seq<char>,
    m: ContentMeta,
    now: Seq<char>,
) -> StatementView {
    StatementView {
        sql: "INSERT OR REPLACE INTO content (algo, hash, size, file_type, ext, extracted_at, extractor_version, has_thumb) VALUES (?1, ?2, ?3, ?4, ?5, ?6, ?7, ?8)"@,
        binds: seq![
            BindView::Text(algo),
            BindView::Text(hash),
            BindView::Int(signed(m.size) as i64),
            text_or_null(m.file_type),
            text_or_null(m.ext),
            BindView::Text(now),
            BindView::Int(m.extractor_version),
            flag(m.has_thumb),
        ],
    }
}

/// The statement for the row of a tag that was read.
pub open spec fn tag_row(algo: Seq<char>, hash: Seq<char>, t: MetaTag) -> StatementView {
    with_texts(
        "INSERT OR REPLACE INTO metadata (algo, hash, grp, key, value) VALUES (?1, ?2, ?3, ?4, ?5)"@,
        seq![algo, hash, t.group@, t.key@, t.value@],
    )
}

fn content_statement(algo: &str, hash: &str, m: &ContentMeta, now: &str) -> (r: Statement)
    ensures
        r@ == content_row(algo@, hash@, *m, now@),
{
    let mut s: Statement = Statement::part(
        "INSERT OR REPLACE INTO content (algo, hash, size, file_type, ext, extracted_at, extractor_version, has_thumb) VALUES (?1, ?2, ?3, ?4, ?5, ?6, ?7, ?8)",
    );
    s.bind_text(algo);
    s.bind_text(hash);
    s.bind_int(to_signed(m.size));
    s.bind_opt(&m.file_type);
    s.bind_opt(&m.ext);
    s.bind_text(now);
    s.bind_int(m.extractor_version);
    s.bind_flag(m.has_thumb);
    assert(s@ =~= content_row(algo@, hash@, *m, now@));
    s
}

/// Puts a content in, with what was read of it: its row, then one for each tag.
pub fn insert_content(algo: &str, hash: &str, m: &ContentMeta, now: &str) -> (r: Vec<Statement>)
    ensures
        statement_views(r@) == seq![content_row(algo@, hash@, *m, now@)] + m.tags@.map_values(
            |t: MetaTag| tag_row(algo@, hash@, t),
        ),
{
    let mut out: Vec<Statement> = Vec::new();
    out.push(content_statement(algo, hash, m, now));
    let mut i: usize = 0;
    while i < m.tags.len()
        invariant
            i <= m.tags@.len(),
            out@.len() == i + 1,
            out@[0]@ == content_row(algo@, hash@, *m, now@),
            forall|k: int|
                1 <= k < out@.len() ==> (#[trigger] out@[k])@ == tag_row(
                    algo@,
                    hash@,
                    m.tags@[k - 1],
                ),
        decreases m.tags@.len() - i,
    {
        let t: &MetaTag = &m.tags[i];
        out.push(
            texts5(
                "INSERT OR REPLACE INTO metadata (algo, hash, grp, key, value) VALUES (?1, ?2, ?3, ?4, ?5)",
                algo,
                hash,
                t.group.as_str(),
                t.key.as_str(),
                t.value.as_str(),
            ),
        );
        i += 1;
    }
    assert(statement_views(out@) =~= seq![content_row(algo@, hash@, *m, now@)]
        + m.tags@.map_values(|t: MetaTag| tag_row(algo@, hash@, t)));
    out
}

/// Forgets what was read of a content, but not where its copies are.
pub fn forget_content(algo: &str, hash: &str) -> (r: Vec<Statement>)
    ensures
        statement_views(r@) == seq![
            with_texts(
                "DELETE FROM metadata WHERE algo = ?1 AND hash = ?2"@,
                seq![algo@, hash@],
            ),
            with_texts("DELETE FROM content WHERE algo = ?1 AND hash = ?2"@, seq![algo@, hash@]),
        ],
{
    let mut out: Vec<Statement> = Vec::new();
    out.push(texts2("DELETE FROM metadata WHERE algo = ?1 AND hash = ?2", algo, hash));
    out.push(texts2("DELETE FROM content WHERE algo = ?1 AND hash = ?2", algo, hash));
    assert(statement_views(out@) =~= seq![
        with_texts("DELETE FROM metadata WHERE algo = ?1 AND hash = ?2"@, seq![algo@, hash@]),
        with_texts("DELETE FROM content WHERE algo = ?1 AND hash = ?2"@, seq![algo@, hash@]),
    ]);
    out
}

/// Notes whether a content has a thumbnail.
pub fn set_has_thumb(algo: &str, hash: &str, has: bool) -> (r: Statement)
    ensures
        r.sql@ == "UPDATE content SET has_thumb = ?3 WHERE algo = ?1 AND hash = ?2"@,
        bind_views(r.binds@) == seq![BindView::Text(algo@), BindView::Text(hash@), flag(has)],
{
    let mut s: Statement = Statement::part(
        "UPDATE content SET has_thumb = ?3 WHERE algo = ?1 AND hash = ?2",
    );
    s.bind_text(algo);
    s.bind_text(hash);
    s.bind_flag(has);
    assert(bind_views(s.binds@) =~= seq![
        BindView::Text(algo@),
        BindView::Text(hash@),
        flag(has),
    ]);
    s
}

/// Notes a copy of a content, or that it was seen again.
pub fn upsert_location(
    algo: &str,
    hash: &str,
    drive_id: &str,
    path: &str,
    mtime_ns: u64,
    seen_at: &str,
) -> (r: Statement)
    ensures
        r.sql@
            == "INSERT INTO locations (algo, hash, drive_id, path, mtime_ns, seen_at) VALUES (?1, ?2, ?3, ?4, ?5, ?6) ON CONFLICT(algo, hash, drive_id, path) DO UPDATE SET mtime_ns = excluded.mtime_ns, seen_at = excluded.seen_at"@,
        bind_views(r.binds@) == seq![
            BindView::Text(algo@),
            BindView::Text(hash@),
            BindView::Text(drive_id@),
            BindView::Text(path@),
            BindView::Int(signed(mtime_ns) as i64),
            BindView::Text(seen_at@),
        ],
{
    let mut s: Statement = texts4(
        "INSERT INTO locations (algo, hash, drive_id, path, mtime_ns, seen_at) VALUES (?1, ?2, ?3, ?4, ?5, ?6) ON CONFLICT(algo, hash, drive_id, path) DO UPDATE SET mtime_ns = excluded.mtime_ns, seen_at = excluded.seen_at",
        algo,
        hash,
        drive_id,
        path,
    );
    s.bind_int(to_signed(mtime_ns));
    s.bind_text(seen_at);
    assert(bind_views(s.binds@) =~= seq![
        BindView::Text(algo@),
        BindView::Text(hash@),
        BindView::Text(drive_id@),
        BindView::Text(path@),
        BindView::Int(signed(mtime_ns) as i64),
        BindView::Text(seen_at@),
    ]);
    s
}

/// Removes a copy of a content.
pub fn remove_location(algo: &str, hash: &str, drive_id: &str, path: &str) -> (r: Statement)
    ensures
        r@ == with_texts(
            "DELETE FROM locations WHERE algo=?1 AND hash=?2 AND drive_id=?3 AND path=?4"@,
            seq![algo@, hash@, drive_id@, path@],
        ),
{
    texts4(
        "DELETE FROM locations WHERE algo=?1 AND hash=?2 AND drive_id=?3 AND path=?4",
        algo,
        hash,
        drive_id,
        path,
    )
}

/// The copies of a content on drives that were not taken out.
pub fn locations_for(algo: &str, hash: &str) -> (r: Statement)
    ensures
        r@ == with_texts(
            "SELECT l.drive_id, l.path, dr.last_root, dr.online FROM locations l JOIN drives dr ON dr.drive_id = l.drive_id WHERE l.algo=?1 AND l.hash=?2 AND dr.detached=0 ORDER BY l.drive_id, l.path"@,
            seq![algo@, hash@],
        ),
{
    texts2(
        "SELECT l.drive_id, l.path, dr.last_root, dr.online FROM locations l JOIN drives dr ON dr.drive_id = l.drive_id WHERE l.algo=?1 AND l.hash=?2 AND dr.detached=0 ORDER BY l.drive_id, l.path",
        algo,
        hash,
    )
}

/// Removes the copies on a drive that were last seen before a time.
pub fn prune_stale_locations(drive_id: &str, since: &str) -> (r: Statement)
    ensures
        r@ == with_texts(
            "DELETE FROM locations WHERE drive_id = ?1 AND seen_at < ?2"@,
            seq![drive_id@, since@],
        ),
{
    texts2("DELETE FROM locations WHERE drive_id = ?1 AND seen_at < ?2", drive_id, since)
}

/// Finds at most two contents whose hash starts with a prefix.
pub fn find_hash(prefix: &str) -> (r: Statement)
    ensures
        r@ == with_texts(
            "SELECT algo, hash FROM content WHERE hash LIKE ?1 LIMIT 2"@,
            seq![prefix_pattern(prefix@)],
        ),
{
    texts1(
        "SELECT algo, hash FROM content WHERE hash LIKE ?1 LIMIT 2",
        hash_pattern(prefix).as_str(),
    )
}

/// Finds a copy of a content whose hash starts with a prefix, on a drive that is there
/// if there is one.
pub fn thumb_lookup(prefix: &str) -> (r: Statement)
    ensures
        r@ == with_texts(
            "SELECT c.algo, c.hash, c.has_thumb, dr.last_root, l.path FROM content c JOIN locations l ON l.algo = c.algo AND l.hash = c.hash JOIN drives dr ON dr.drive_id = l.drive_id AND dr.detached = 0 WHERE c.hash LIKE ?1 ORDER BY dr.online DESC LIMIT 1"@,
            seq![prefix_pattern(prefix@)],
        ),
{
    texts1(
        "SELECT c.algo, c.hash, c.has_thumb, dr.last_root, l.path FROM content c JOIN locations l ON l.algo = c.algo AND l.hash = c.hash JOIN drives dr ON dr.drive_id = l.drive_id AND dr.detached = 0 WHERE c.hash LIKE ?1 ORDER BY dr.online DESC LIMIT 1",
        hash_pattern(prefix).as_str(),
    )
}

/// Counts the files of a drive.
pub fn count_files(drive: &str) -> (r: Statement)
    ensures
        r@ == with_texts("SELECT COUNT(*) FROM locations WHERE drive_id = ?1"@, seq![drive@]),
{
    texts1("SELECT COUNT(*) FROM locations WHERE drive_id = ?1", drive)
}

/// Finds the file with a path on a drive, and what is known of its content.
pub fn find_file(drive: &str, path: &str) -> (r: Statement)
    ensures
        r@ == with_texts(
            "SELECT l.algo, l.hash, c.size, c.file_type, c.ext, c.has_thumb FROM locations l JOIN content c ON c.algo=l.algo AND c.hash=l.hash WHERE l.drive_id = ?1 AND l.path = ?2"@,
            seq![drive@, path@],
        ),
{
    texts2(
        "SELECT l.algo, l.hash, c.size, c.file_type, c.ext, c.has_thumb FROM locations l JOIN content c ON c.algo=l.algo AND c.hash=l.hash WHERE l.drive_id = ?1 AND l.path = ?2",
        drive,
        path,
    )
}

/// Counts the files of a drive whose path is not before `lo` and before `hi`.
pub fn count_between(drive: &str, lo: &str, hi: &str) -> (r: Statement)
    ensures
        r@ == with_texts(
            "SELECT COUNT(*) FROM locations WHERE drive_id = ?1 AND path >= ?2 AND path < ?3"@,
            seq![drive@, lo@, hi@],
        ),
{
    texts3(
        "SELECT COUNT(*) FROM locations WHERE drive_id = ?1 AND path >= ?2 AND path < ?3",
        drive,
        lo,
        hi,
    )
}

/// What is known of a content as a whole.
pub fn content_summary(algo: &str, hash: &str) -> (r: Statement)
    ensures
        r@ == with_texts(
            "SELECT size, file_type, ext, extracted_at, has_thumb FROM content WHERE algo=?1 AND hash=?2"@,
            seq![algo@, hash@],
        ),
{
    texts2(
        "SELECT size, file_type, ext, extracted_at, has_thumb FROM content WHERE algo=?1 AND hash=?2",
        algo,
        hash,
    )
}

/// The tags that were read of a content, by group and key.
pub fn content_metadata(algo: &str, hash: &str) -> (r: Statement)
    ensures
        r@ == with_texts(
            "SELECT grp, key, value FROM metadata WHERE algo=?1 AND hash=?2 ORDER BY grp, key"@,
            seq![algo@, hash@],
        ),
{
    texts2(
        "SELECT grp, key, value FROM metadata WHERE algo=?1 AND hash=?2 ORDER BY grp, key",
        algo,
        hash,
    )
}

/// All copies of a content, those on drives that were taken out among them.
pub fn content_locations(algo: &str, hash: &str) -> (r: Statement)
    ensures
        r@ == with_texts(
            "SELECT l.drive_id, l.path, dr.online FROM locations l JOIN drives dr ON dr.drive_id = l.drive_id WHERE l.algo=?1 AND l.hash=?2 ORDER BY l.drive_id, l.path"@,
            seq![algo@, hash@],
        ),
{
    texts2(
        "SELECT l.drive_id, l.path, dr.online FROM locations l JOIN drives dr ON dr.drive_id = l.drive_id WHERE l.algo=?1 AND l.hash=?2 ORDER BY l.drive_id, l.path",
        algo,
        hash,
    )
}

// ---- tags and links --------------------------------------------------------

/// Puts a tag on a content.
pub fn add_tag(algo: &str, hash: &str, tag: &str, now: &str) -> (r: Statement)
    ensures
        r@ == with_texts(
            "INSERT OR IGNORE INTO tags (algo, hash, tag, added_at) VALUES (?1, ?2, ?3, ?4)"@,
            seq![algo@, hash@, tag@, now@],
        ),
{
    texts4(
        "INSERT OR IGNORE INTO tags (algo, hash, tag, added_at) VALUES (?1, ?2, ?3, ?4)",
        algo,
        hash,
        tag,
        now,
    )
}

/// Takes a tag off a content.
pub fn remove_tag(algo: &str, hash: &str, tag: &str) -> (r: Statement)
    ensures
        r@ == with_texts(
            "DELETE FROM tags WHERE algo = ?1 AND hash = ?2 AND tag = ?3"@,
            seq![algo@, hash@, tag@],
        ),
{
    texts3("DELETE FROM tags WHERE algo = ?1 AND hash = ?2 AND tag = ?3", algo, hash, tag)
}

/// The tags of a content.
pub fn list_tags(algo: &str, hash: &str) -> (r: Statement)
    ensures
        r@ == with_texts(
            "SELECT tag FROM tags WHERE algo = ?1 AND hash = ?2 ORDER BY tag"@,
            seq![algo@, hash@],
        ),
{
    texts2("SELECT tag FROM tags WHERE algo = ?1 AND hash = ?2 ORDER BY tag", algo, hash)
}

/// The group that a content is linked in.
pub fn find_group(algo: &str, hash: &str) -> (r: Statement)
    ensures
        r@ == with_texts(
            "SELECT group_id FROM link_members WHERE algo = ?1 AND hash = ?2"@,
            seq![algo@, hash@],
        ),
{
    texts2("SELECT group_id FROM link_members WHERE algo = ?1 AND hash = ?2", algo, hash)
}

/// The statement that makes a group part of another.
pub open spec fn merge_row(target: Seq<char>, group: Seq<char>) -> StatementView {
    with_texts(
        "UPDATE link_members SET group_id = ?1 WHERE group_id = ?2"@,
        seq![target, group],
    )
}

/// The statement that puts a content into a group, unless it is in one.
pub open spec fn member_row(
    target: Seq<char>,
    member: (String, String),
    now: Seq<char>,
) -> StatementView {
    with_texts(
        "INSERT OR IGNORE INTO link_members (group_id, algo, hash, added_at) VALUES (?1, ?2, ?3, ?4)"@,
        seq![target, member.0@, member.1@, now],
    )
}

/// Carries out the linking of some contents: the groups that become part of the one
/// first, then the contents that are in none.
pub fn link_members(plan: &LinkPlan, members: &Vec<(String, String)>, now: &str) -> (r: Vec<
    Statement,
>)
    ensures
        statement_views(r@) == views(plan.merged@).map_values(
            |g: Seq<char>| merge_row(plan.target@, g),
        ) + members@.map_values(|m: (String, String)| member_row(plan.target@, m, now@)),
{
    let mut out: Vec<Statement> = Vec::new();
    let mut i: usize = 0;
    while i < plan.merged.len()
        invariant
            i <= plan.merged@.len(),
            out@.len() == i,
            forall|k: int|
                0 <= k < i ==> (#[trigger] out@[k])@ == merge_row(
                    plan.target@,
                    plan.merged@[k]@,
                ),
        decreases plan.merged@.len() - i,
    {
        out.push(
            texts2(
                "UPDATE link_members SET group_id = ?1 WHERE group_id = ?2",
                plan.target.as_str(),
                plan.merged[i].as_str(),
            ),
        );
        i += 1;
    }
    let ghost merges = plan.merged@.len();
    let mut j: usize = 0;
    while j < members.len()
        invariant
            j <= members@.len(),
            merges == plan.merged@.len(),
            out@.len() == merges + j,
            forall|k: int|
                0 <= k < merges ==> (#[trigger] out@[k])@ == merge_row(
                    plan.target@,
                    plan.merged@[k]@,
                ),
            forall|k: int|
                merges <= k < out@.len() ==> (#[trigger] out@[k])@ == member_row(
                    plan.target@,
                    members@[k - merges],
                    now@,
                ),
        decreases members@.len() - j,
    {
        out.push(
            texts4(
                "INSERT OR IGNORE INTO link_members (group_id, algo, hash, added_at) VALUES (?1, ?2, ?3, ?4)",
                plan.target.as_str(),
                members[j].0.as_str(),
                members[j].1.as_str(),
                now,
            ),
        );
        j += 1;
    }
    assert(statement_views(out@) =~= views(plan.merged@).map_values(
        |g: Seq<char>| merge_row(plan.target@, g),
    ) + members@.map_values(|m: (String, String)| member_row(plan.target@, m, now@)));
    out
}

/// How to take a content out of its group, in this order.
#[derive(Clone, Debug)]
pub struct UnlinkPlan {
    /// Takes it out.
    pub remove: Statement,
    /// Counts the contents that are left.
    pub count: Statement,
    /// Dissolves the group.
    pub dissolve: Statement,
}

/// How to take a content out of its group.
pub fn unlink_hash(algo: &str, hash: &str, group: &str) -> (r: UnlinkPlan)
    ensures
        r.remove@ == with_texts(
            "DELETE FROM link_members WHERE algo = ?1 AND hash = ?2"@,
            seq![algo@, hash@],
        ),
        r.count@ == with_texts(
            "SELECT COUNT(*) FROM link_members WHERE group_id = ?1"@,
            seq![group@],
        ),
        r.dissolve@ == with_texts("DELETE FROM link_members WHERE group_id = ?1"@, seq![group@]),
{
    UnlinkPlan {
        remove: texts2("DELETE FROM link_members WHERE algo = ?1 AND hash = ?2", algo, hash),
        count: texts1("SELECT COUNT(*) FROM link_members WHERE group_id = ?1", group),
        dissolve: texts1("DELETE FROM link_members WHERE group_id = ?1", group),
    }
}

/// The contents of the group that a content is in, by hash.
pub fn list_group(algo: &str, hash: &str) -> (r: Statement)
    ensures
        r@ == with_texts(
            "SELECT m2.algo, m2.hash FROM link_members m1 JOIN link_members m2 ON m1.group_id = m2.group_id WHERE m1.algo = ?1 AND m1.hash = ?2 ORDER BY m2.hash"@,
            seq![algo@, hash@],
        ),
{
    texts2(
        "SELECT m2.algo, m2.hash FROM link_members m1 JOIN link_members m2 ON m1.group_id = m2.group_id WHERE m1.algo = ?1 AND m1.hash = ?2 ORDER BY m2.hash",
        algo,
        hash,
    )
}

// ---- the search index ------------------------------------------------------

/// Puts a file into the search index, in place of an older row.
pub fn insert_file(f: &FileInsert) -> (r: Statement)
    ensures
        r.sql@
            == "INSERT OR REPLACE INTO files (path, dir, name, algo, hash, size, mtime_ns) VALUES (?1, ?2, ?3, ?4, ?5, ?6, ?7)"@,
        bind_views(r.binds@) == seq![
            BindView::Text(f.path@),
            BindView::Text(f.dir@),
            BindView::Text(f.name@),
            BindView::Text(f.algo@),
            BindView::Text(f.hash@),
            BindView::Int(f.size),
            BindView::Int(f.mtime_ns),
        ],
{
    let mut s: Statement = texts5(
        "INSERT OR REPLACE INTO files (path, dir, name, algo, hash, size, mtime_ns) VALUES (?1, ?2, ?3, ?4, ?5, ?6, ?7)",
        f.path.as_str(),
        f.dir.as_str(),
        f.name.as_str(),
        f.algo.as_str(),
        f.hash.as_str(),
    );
    s.bind_int(f.size);
    s.bind_int(f.mtime_ns);
    assert(bind_views(s.binds@) =~= seq![
        BindView::Text(f.path@),
        BindView::Text(f.dir@),
        BindView::Text(f.name@),
        BindView::Text(f.algo@),
        BindView::Text(f.hash@),
        BindView::Int(f.size),
        BindView::Int(f.mtime_ns),
    ]);
    s
}

/// Takes the files of a directory out of the search index.
pub fn clear_dir(dir: &str) -> (r: Statement)
    ensures
        r@ == with_texts("DELETE FROM files WHERE dir = ?1"@, seq![dir@]),
{
    texts1("DELETE FROM files WHERE dir = ?1", dir)
}

/// Takes the metadata of a content out of the search index.
pub fn clear_meta(hash: &str) -> (r: Vec<Statement>)
    ensures
        statement_views(r@) == seq![
            with_texts("DELETE FROM content WHERE hash = ?1"@, seq![hash@]),
            with_texts("DELETE FROM meta_kv WHERE hash = ?1"@, seq![hash@]),
        ],
{
    let mut out: Vec<Statement> = Vec::new();
    out.push(texts1("DELETE FROM content WHERE hash = ?1", hash));
    out.push(texts1("DELETE FROM meta_kv WHERE hash = ?1", hash));
    assert(statement_views(out@) =~= seq![
        with_texts("DELETE FROM content WHERE hash = ?1"@, seq![hash@]),
        with_texts("DELETE FROM meta_kv WHERE hash = ?1"@, seq![hash@]),
    ]);
    out
}

/// The statement for what kind of content a content is.
pub open spec fn kind_row(m: MetaRows) -> StatementView {
    StatementView {
        sql: "INSERT OR REPLACE INTO content (algo, hash, file_type, ext) VALUES (?1, ?2, ?3, ?4)"@,
        binds: seq![
            BindView::Text(m.algo@),
            BindView::Text(m.hash@),
            text_or_null(m.file_type),
            text_or_null(m.ext),
        ],
    }
}

/// The statement for a tag or property of a content.
pub open spec fn kv_row(m: MetaRows, kv: KvInsert) -> StatementView {
    with_texts(
        "INSERT INTO meta_kv (algo, hash, kind, key, value) VALUES (?1, ?2, ?3, ?4, ?5)"@,
        seq![m.algo@, m.hash@, kv.kind@, kv.key@, kv.value@],
    )
}

/// Puts the metadata of a content into the search index: what kind of content it is,
/// then its tags and properties.
pub fn insert_meta(m: &MetaRows) -> (r: Vec<Statement>)
    ensures
        statement_views(r@) == seq![kind_row(*m)] + m.kv@.map_values(
            |kv: KvInsert| kv_row(*m, kv),
        ),
{
    let mut head: Statement = texts2(
        "INSERT OR REPLACE INTO content (algo, hash, file_type, ext) VALUES (?1, ?2, ?3, ?4)",
        m.algo.as_str(),
        m.hash.as_str(),
    );
    head.bind_opt(&m.file_type);
    head.bind_opt(&m.ext);
    assert(head@ =~= kind_row(*m));
    let mut out: Vec<Statement> = Vec::new();
    out.push(head);
    let mut i: usize = 0;
    while i < m.kv.len()
        invariant
            i <= m.kv@.len(),
            out@.len() == i + 1,
            out@[0]@ == kind_row(*m),
            forall|k: int|
                1 <= k < out@.len() ==> (#[trigger] out@[k])@ == kv_row(*m, m.kv@[k - 1]),
        decreases m.kv@.len() - i,
    {
        let kv: &KvInsert = &m.kv[i];
        out.push(
            texts5(
                "INSERT INTO meta_kv (algo, hash, kind, key, value) VALUES (?1, ?2, ?3, ?4, ?5)",
                m.algo.as_str(),
                m.hash.as_str(),
                kv.kind.as_str(),
                kv.key.as_str(),
                kv.value.as_str(),
            ),
        );
        i += 1;
    }
    assert(statement_views(out@) =~= seq![kind_row(*m)] + m.kv@.map_values(
        |kv: KvInsert| kv_row(*m, kv),
    ));
    out
}

} // verus!
