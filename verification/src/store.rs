//! The drive-aware index: its rows, its statements, and the decisions around them.
use vstd::prelude::*;

use crate::meta::opt_view;
use crate::paths::{join, joined_path};
use crate::sql::{bind_views, BindView, Statement};
use crate::text::{
    chars_of, concat2, cut_to_bytes, has_prefix, index_or_len, join_all, joined,
    law_ascii_texts_are_cut_by_characters, lemma_views_push,
    only, text_between, text_eq, text_lt, trim_char, trimmed_of, trimmed_start, views,
    within_bytes,
};
use crate::textmap::{
    in_order, law_members_are_listed, law_members_have_every_place, members, place_total,
};

verus! {

/// The tag that marks favorites.
pub const FAVORITE_TAG: &'static str = "favorite";

/// One tag of a file: its group, key and value.
#[derive(Clone, Debug, PartialEq, Eq)]
pub struct MetaTag {
    pub group: String,
    pub key: String,
    pub value: String,
}

/// What a tag holds.
#[verifier::ext_equal]
pub struct TagView {
    pub group: Seq<char>,
    pub key: Seq<char>,
    pub value: Seq<char>,
}

impl View for MetaTag {
    type V = TagView;

    open spec fn view(&self) -> TagView {
        TagView { group: self.group@, key: self.key@, value: self.value@ }
    }
}

pub open spec fn tag_views(v: Seq<MetaTag>) -> Seq<TagView> {
    v.map_values(|t: MetaTag| t@)
}

/// All that was read from a file, once for each content.
#[derive(Clone, Debug)]
pub struct ContentMeta {
    pub size: u64,
    pub file_type: Option<String>,
    pub ext: Option<String>,
    pub extractor_version: i64,
    pub has_thumb: bool,
    pub tags: Vec<MetaTag>,
}

/// A registered drive.
#[derive(Clone, Debug, PartialEq, Eq)]
pub struct DriveRow {
    pub drive_id: String,
    pub label: String,
    pub last_root: String,
    pub first_seen: String,
    pub last_seen: String,
    pub online: bool,
    pub detached: bool,
    /// The number of files on the drive.
    pub files: i64,
}

/// What to look for in the index.
#[derive(Clone, Debug)]
pub struct QueryFilter {
    pub file_type: Option<String>,
    pub ext: Option<String>,
    pub hash_prefix: Option<String>,
    pub drive_id: Option<String>,
    /// Only content without a copy on a drive that is there.
    pub offline_only: bool,
    pub key: Option<String>,
    pub value: Option<String>,
    /// Only content with this tag.
    pub tag: Option<String>,
    /// Only favorites.
    pub favorite: bool,
    pub limit: i64,
    pub offset: i64,
}

impl Default for QueryFilter {
    fn default() -> (r: Self)
        ensures
            r.file_type is None,
            r.ext is None,
            r.hash_prefix is None,
            r.drive_id is None,
            !r.offline_only,
            r.key is None,
            r.value is None,
            r.tag is None,
            !r.favorite,
            r.limit == 0,
            r.offset == 0,
    {
        QueryFilter {
            file_type: None,
            ext: None,
            hash_prefix: None,
            drive_id: None,
            offline_only: false,
            key: None,
            value: None,
            tag: None,
            favorite: false,
            limit: 0,
            offset: 0,
        }
    }
}

/// A content that matches, and where it is.
#[derive(Clone, Debug, PartialEq, Eq)]
pub struct QueryRow {
    pub algo: String,
    pub hash: String,
    pub file_type: Option<String>,
    pub ext: Option<String>,
    pub size: i64,
    /// The number of copies.
    pub locations: i64,
    /// A copy is on a drive that is there.
    pub online: bool,
    pub has_thumb: bool,
    /// The drives with a copy, separated by commas.
    pub drives: String,
    /// The path of one copy.
    pub sample_path: String,
    /// The tags, separated by commas.
    pub tags: String,
    pub link_group: Option<String>,
}

/// An entry of a directory: a file or a directory.
#[derive(Clone, Debug, PartialEq, Eq)]
pub struct DirEntry {
    pub name: String,
    /// `file` or `dir`.
    pub kind: String,
    pub algo: Option<String>,
    pub hash: Option<String>,
    pub size: Option<i64>,
    pub file_type: Option<String>,
    pub ext: Option<String>,
    pub has_thumb: Option<bool>,
    /// For a directory the number of files below it.
    pub file_count: Option<i64>,
}

impl DirEntry {
    /// A directory with a number of files below it.
    pub fn dir(name: String, file_count: i64) -> (r: DirEntry)
        ensures
            r.name@ == name@,
            r.kind@ == "dir"@,
            r.algo is None,
            r.hash is None,
            r.size is None,
            r.file_type is None,
            r.ext is None,
            r.has_thumb is None,
            r.file_count == Some(file_count),
    {
        DirEntry {
            name,
            kind: "dir".to_owned(),
            algo: None,
            hash: None,
            size: None,
            file_type: None,
            ext: None,
            has_thumb: None,
            file_count: Some(file_count),
        }
    }
}

/// A copy of a content, with what its path starts from.
#[derive(Clone, Debug, PartialEq, Eq)]
pub struct ResolvedLoc {
    pub drive_id: String,
    pub path: String,
    pub last_root: String,
    pub online: bool,
}

/// A copy of a content.
#[derive(Clone, Debug, PartialEq, Eq)]
pub struct LocationRow {
    pub drive_id: String,
    pub path: String,
    pub online: bool,
}

/// All that is known of a content.
#[derive(Clone, Debug)]
pub struct ContentDetail {
    pub algo: String,
    pub hash: String,
    pub size: i64,
    pub file_type: Option<String>,
    pub ext: Option<String>,
    pub extracted_at: String,
    pub has_thumb: bool,
    pub metadata: Vec<MetaTag>,
    pub locations: Vec<LocationRow>,
    pub tags: Vec<String>,
    /// The other contents that this one is linked to.
    pub links: Vec<String>,
}

// ---- paths -----------------------------------------------------------------

/// The index directory: the one of the environment, else `.hashit` in the home
/// directory; none without either.
pub open spec fn home_of(env: Option<Seq<char>>, home: Option<Seq<char>>) -> Option<Seq<char>> {
    match (env, home) {
        (Some(p), _) => Some(p),
        (None, Some(h)) => Some(joined_path(h, ".hashit"@)),
        (None, None) => None,
    }
}

/// The index directory.
pub fn home_dir(env: Option<String>, home: Option<String>) -> (r: Option<String>)
    ensures
        opt_view(r) == home_of(opt_view(env), opt_view(home)),
{
    if let Some(p) = env {
        return Some(p);
    }
    match home {
        Some(h) => Some(join(h.as_str(), ".hashit")),
        None => None,
    }
}

/// Where the thumbnail of a content is.
pub open spec fn thumb_path_of(cache: Seq<char>, algo: Seq<char>, hash: Seq<char>) -> Seq<char> {
    joined_path(
        joined_path(joined_path(cache, algo), within_bytes(hash, 2)),
        hash + ".jpg"@,
    )
}

/// Where the thumbnail of a content is: in a directory named after the algorithm and
/// the first two bytes of the hash.
pub fn thumb_path(cache_dir: &str, algo: &str, hash: &str) -> (r: String)
    ensures
        r@ == thumb_path_of(cache_dir@, algo@, hash@),
{
    let hh: String = cut_to_bytes(hash, 2);
    let name: String = concat2(hash, ".jpg");
    let a: String = join(cache_dir, algo);
    let b: String = join(a.as_str(), hh.as_str());
    join(b.as_str(), name.as_str())
}

/// The prefix with its last character replaced by the next one.
pub open spec fn upper_of(prefix: Seq<char>) -> Seq<char> {
    if prefix.len() == 0 {
        prefix
    } else {
        prefix.drop_last().push((prefix.last() as int + 1) as char)
    }
}

/// The first text after all that start with a prefix, for a prefix that ends in an
/// ASCII character.
pub fn prefix_upper(prefix: &str) -> (r: String)
    requires
        prefix@.len() > 0 ==> (prefix@.last() as int) < 0x7f,
    ensures
        r@ == upper_of(prefix@),
{
    let c: Vec<char> = chars_of(prefix);
    let n: usize = c.len();
    if n == 0 {
        return prefix.to_owned();
    }
    let last: char = c[n - 1];
    proof {
        lemma_char_code(last);
        assert(prefix@.last() == last);
    }
    let next: u8 = (last as u32 + 1) as u8;
    let mut out: String = text_between(&c, 0, n - 1);
    assert(out@ =~= prefix@.drop_last());
    out.push(next as char);
    out
}

proof fn lemma_char_code(c: char)
    ensures
        0 <= c as int,
{
}

/// The texts between a prefix and its upper bound are those that start with the
/// prefix: a scan of that range gives a directory and all below it, and nothing
/// else.
pub proof fn law_range_is_the_subtree(prefix: Seq<char>, path: Seq<char>)
    requires
        prefix.len() > 0,
        (prefix.last() as int) < 0x7f,
    ensures
        has_prefix(path, prefix) <==> !text_lt(path, prefix) && text_lt(path, upper_of(prefix)),
    decreases prefix.len(),
{
    let upper = upper_of(prefix);
    if prefix.len() == 1 {
        let c = prefix[0];
        lemma_char_code(c);
        assert(upper[0] as int == c as int + 1);
        if path.len() > 0 {
            assert(has_prefix(path, prefix) <==> path[0] == c) by {
                assert(path.subrange(0, 1)[0] == path[0]);
                if path[0] == c {
                    assert(path.subrange(0, 1) =~= prefix);
                }
            }
            assert(prefix.skip(1).len() == 0);
            assert(upper.skip(1).len() == 0);
            assert(!text_lt(path.skip(1), prefix.skip(1)));
            assert(!text_lt(path.skip(1), upper.skip(1)));
        }
    } else if path.len() > 0 {
        let (p, q) = (prefix.skip(1), path.skip(1));
        law_range_is_the_subtree(p, q);
        assert(upper.skip(1) =~= upper_of(p));
        assert(upper[0] == prefix[0]);
        if has_prefix(path, prefix) {
            assert(path.subrange(0, prefix.len() as int)[0] == prefix[0]);
            assert(q.subrange(0, p.len() as int) =~= path.subrange(0, prefix.len() as int).skip(1));
            assert(path.subrange(0, prefix.len() as int).skip(1) =~= p);
        }
        if path[0] == prefix[0] && has_prefix(q, p) {
            assert(path.subrange(0, prefix.len() as int) =~= prefix) by {
                assert forall|i: int| 0 <= i < prefix.len() implies path.subrange(
                    0,
                    prefix.len() as int,
                )[i] == prefix[i] by {
                    if i > 0 {
                        assert(q.subrange(0, p.len() as int)[i - 1] == p[i - 1]);
                    }
                }
            }
        }
    }
}

// ---- the query -------------------------------------------------------------

/// The tag to look for: the one given, or that of favorites.
pub open spec fn wanted_tag(f: &QueryFilter) -> Option<Seq<char>> {
    match f.tag {
        Some(t) => Some(t@),
        None => if f.favorite {
            Some("favorite"@)
        } else {
            None
        },
    }
}

/// A condition, where it is asked for.
pub open spec fn cond_if(on: bool, sql: Seq<char>) -> Seq<Seq<char>> {
    if on {
        seq![sql]
    } else {
        Seq::empty()
    }
}

/// A value, where it is asked for.
pub open spec fn bind_if(v: Option<Seq<char>>) -> Seq<BindView> {
    match v {
        Some(t) => seq![BindView::Text(t)],
        None => Seq::empty(),
    }
}

/// The text that matches what starts with a prefix.
pub open spec fn prefix_pattern(p: Seq<char>) -> Seq<char> {
    p + "%"@
}

/// The condition on a metadata key.
pub open spec fn key_cond(valued: bool) -> Seq<char> {
    if valued {
        "EXISTS (SELECT 1 FROM metadata m WHERE m.algo=c.algo AND m.hash=c.hash AND m.key=? AND m.value=?)"@
    } else {
        "EXISTS (SELECT 1 FROM metadata m WHERE m.algo=c.algo AND m.hash=c.hash AND m.key=?)"@
    }
}

/// The conditions of a filter, in order.
pub open spec fn filter_conds(f: &QueryFilter) -> Seq<Seq<char>> {
    cond_if(f.file_type is Some, "c.file_type = ?"@) + cond_if(f.ext is Some, "c.ext = ?"@)
        + cond_if(f.hash_prefix is Some, "c.hash LIKE ?"@) + cond_if(
        f.key is Some,
        key_cond(f.value is Some),
    ) + cond_if(
        f.drive_id is Some,
        "EXISTS (SELECT 1 FROM locations l WHERE l.algo=c.algo AND l.hash=c.hash AND l.drive_id=?)"@,
    ) + cond_if(
        wanted_tag(f) is Some,
        "EXISTS (SELECT 1 FROM tags t WHERE t.algo=c.algo AND t.hash=c.hash AND t.tag=?)"@,
    ) + cond_if(
        f.offline_only,
        "NOT EXISTS (SELECT 1 FROM locations l JOIN drives dr ON dr.drive_id=l.drive_id WHERE l.algo=c.algo AND l.hash=c.hash AND dr.online=1 AND dr.detached=0)"@,
    )
}

/// The values of a filter, in order.
pub open spec fn filter_binds(f: &QueryFilter) -> Seq<BindView> {
    bind_if(opt_view(f.file_type)) + bind_if(opt_view(f.ext)) + bind_if(
        match f.hash_prefix {
            Some(h) => Some(prefix_pattern(h@)),
            None => None,
        },
    ) + (match f.key {
        Some(k) => bind_if(Some(k@)) + bind_if(opt_view(f.value)),
        None => Seq::empty(),
    }) + bind_if(opt_view(f.drive_id)) + bind_if(wanted_tag(f))
}

/// What a query selects.
pub open spec fn select_rows() -> Seq<char> {
    "SELECT c.algo, c.hash, c.file_type, c.ext, c.size, c.has_thumb, (SELECT COUNT(*) FROM locations l WHERE l.algo=c.algo AND l.hash=c.hash), (SELECT MIN(l.path) FROM locations l WHERE l.algo=c.algo AND l.hash=c.hash), (SELECT IFNULL(GROUP_CONCAT(DISTINCT l.drive_id),'') FROM locations l WHERE l.algo=c.algo AND l.hash=c.hash), EXISTS (SELECT 1 FROM locations l JOIN drives dr ON dr.drive_id=l.drive_id WHERE l.algo=c.algo AND l.hash=c.hash AND dr.online=1 AND dr.detached=0), (SELECT IFNULL(GROUP_CONCAT(t.tag),'') FROM tags t WHERE t.algo=c.algo AND t.hash=c.hash), (SELECT lm.group_id FROM link_members lm WHERE lm.algo=c.algo AND lm.hash=c.hash) FROM content c "@
}

/// The conditions as a clause; nothing where there are none.
pub open spec fn where_clause(conds: Seq<Seq<char>>) -> Seq<char> {
    if conds.len() == 0 {
        Seq::empty()
    } else {
        "WHERE "@ + joined(conds, " AND "@)
    }
}

/// Conditions and the values of their `?`, as they are collected.
struct Conds {
    list: Vec<String>,
    stmt: Statement,
}

impl Conds {
    /// Adds a condition and its value, where there is one.
    fn add_if(&mut self, v: Option<&str>, cond: &str)
        ensures
            views(final(self).list@) == views(old(self).list@) + cond_if(v is Some, cond@),
            bind_views(final(self).stmt.binds@) == bind_views(old(self).stmt.binds@) + bind_if(
                match v {
                    Some(t) => Some(t@),
                    None => None,
                },
            ),
            final(self).stmt.sql@ == old(self).stmt.sql@,
    {
        match v {
            Some(t) => {
                let c: String = cond.to_owned();
                proof {
                    lemma_views_push(self.list@, c);
                }
                self.list.push(c);
                self.stmt.bind_text(t);
                assert(views(self.list@) =~= views(old(self).list@) + cond_if(true, cond@));
                assert(bind_views(self.stmt.binds@) =~= bind_views(old(self).stmt.binds@)
                    + bind_if(Some(t@)));
            },
            None => {
                assert(views(self.list@) =~= views(old(self).list@) + cond_if(false, cond@));
                assert(bind_views(self.stmt.binds@) =~= bind_views(old(self).stmt.binds@)
                    + bind_if(None));
            },
        }
    }

    /// Adds a condition without a value.
    fn add_flag(&mut self, on: bool, cond: &str)
        ensures
            views(final(self).list@) == views(old(self).list@) + cond_if(on, cond@),
            bind_views(final(self).stmt.binds@) == bind_views(old(self).stmt.binds@),
            final(self).stmt.sql@ == old(self).stmt.sql@,
    {
        if on {
            let c: String = cond.to_owned();
            proof {
                lemma_views_push(self.list@, c);
            }
            self.list.push(c);
        }
        assert(views(self.list@) =~= views(old(self).list@) + cond_if(on, cond@));
    }
}

/// A text of an option.
fn as_text(s: &Option<String>) -> (r: Option<&str>)
    ensures
        r is Some == s is Some,
        r matches Some(t) ==> t@ == s->0@,
{
    match s {
        Some(t) => Some(t.as_str()),
        None => None,
    }
}

/// The conditions on the content itself.
spec fn content_conds(f: &QueryFilter) -> Seq<Seq<char>> {
    cond_if(f.file_type is Some, "c.file_type = ?"@) + cond_if(f.ext is Some, "c.ext = ?"@)
        + cond_if(f.hash_prefix is Some, "c.hash LIKE ?"@)
}

/// The values of the conditions on the content itself.
spec fn content_binds(f: &QueryFilter) -> Seq<BindView> {
    bind_if(opt_view(f.file_type)) + bind_if(opt_view(f.ext)) + bind_if(
        match f.hash_prefix {
            Some(h) => Some(prefix_pattern(h@)),
            None => None,
        },
    )
}

fn content_part(f: &QueryFilter) -> (c: Conds)
    ensures
        views(c.list@) == content_conds(f),
        bind_views(c.stmt.binds@) == content_binds(f),
        c.stmt.sql@ == Seq::<char>::empty(),
{
    proof {
        reveal_strlit("");
    }
    let mut c: Conds = Conds { list: Vec::new(), stmt: Statement::part("") };
    assert(c.stmt.sql@ =~= Seq::<char>::empty());
    assert(views(c.list@) =~= Seq::<Seq<char>>::empty());
    c.add_if(as_text(&f.file_type), "c.file_type = ?");
    assert(views(c.list@) =~= cond_if(f.file_type is Some, "c.file_type = ?"@));
    assert(bind_views(c.stmt.binds@) =~= bind_if(opt_view(f.file_type)));
    c.add_if(as_text(&f.ext), "c.ext = ?");
    match &f.hash_prefix {
        Some(h) => {
            let pattern: String = concat2(h.as_str(), "%");
            c.add_if(Some(pattern.as_str()), "c.hash LIKE ?");
        },
        None => c.add_if(None, "c.hash LIKE ?"),
    }
    c
}

/// Adds the condition on a metadata key.
fn add_key(c: &mut Conds, f: &QueryFilter)
    ensures
        views(final(c).list@) == views(old(c).list@) + cond_if(
            f.key is Some,
            key_cond(f.value is Some),
        ),
        bind_views(final(c).stmt.binds@) == bind_views(old(c).stmt.binds@) + (match f.key {
            Some(k) => bind_if(Some(k@)) + bind_if(opt_view(f.value)),
            None => Seq::empty(),
        }),
        final(c).stmt.sql@ == old(c).stmt.sql@,
{
    match &f.key {
        Some(k) => match &f.value {
            Some(v) => {
                c.add_if(
                    Some(k.as_str()),
                    "EXISTS (SELECT 1 FROM metadata m WHERE m.algo=c.algo AND m.hash=c.hash AND m.key=? AND m.value=?)",
                );
                c.stmt.bind_text(v.as_str());
                assert(bind_views(c.stmt.binds@) =~= bind_views(old(c).stmt.binds@) + (bind_if(
                    Some(k@),
                ) + bind_if(Some(v@))));
            },
            None => {
                c.add_if(
                    Some(k.as_str()),
                    "EXISTS (SELECT 1 FROM metadata m WHERE m.algo=c.algo AND m.hash=c.hash AND m.key=?)",
                );
                assert(bind_views(c.stmt.binds@) =~= bind_views(old(c).stmt.binds@) + (bind_if(
                    Some(k@),
                ) + bind_if(None)));
            },
        },
        None => {
            assert(views(c.list@) =~= views(old(c).list@) + Seq::<Seq<char>>::empty());
            assert(bind_views(c.stmt.binds@) =~= bind_views(old(c).stmt.binds@)
                + Seq::<BindView>::empty());
        },
    }
}

fn all_conds(f: &QueryFilter) -> (c: Conds)
    ensures
        views(c.list@) == filter_conds(f),
        bind_views(c.stmt.binds@) == filter_binds(f),
        c.stmt.sql@ == Seq::<char>::empty(),
{
    let mut c: Conds = content_part(f);
    add_key(&mut c, f);
    c.add_if(
        as_text(&f.drive_id),
        "EXISTS (SELECT 1 FROM locations l WHERE l.algo=c.algo AND l.hash=c.hash AND l.drive_id=?)",
    );
    let tag: Option<&str> = match &f.tag {
        Some(t) => Some(t.as_str()),
        None => if f.favorite {
            Some(FAVORITE_TAG)
        } else {
            None
        },
    };
    c.add_if(
        tag,
        "EXISTS (SELECT 1 FROM tags t WHERE t.algo=c.algo AND t.hash=c.hash AND t.tag=?)",
    );
    c.add_flag(
        f.offline_only,
        "NOT EXISTS (SELECT 1 FROM locations l JOIN drives dr ON dr.drive_id=l.drive_id WHERE l.algo=c.algo AND l.hash=c.hash AND dr.online=1 AND dr.detached=0)",
    );
    c
}

/// The statement of a page of contents that meet some conditions.
fn page_of(c: Conds, limit: i64, offset: i64) -> (r: Statement)
    requires
        c.stmt.sql@ == Seq::<char>::empty(),
    ensures
        r.sql@ == select_rows() + where_clause(views(c.list@))
            + " ORDER BY c.hash LIMIT ? OFFSET ?"@,
        bind_views(r.binds@) == bind_views(c.stmt.binds@) + seq![
            BindView::Int(limit),
            BindView::Int(offset),
        ],
{
    let Conds { list, stmt } = c;
    let ghost binds = bind_views(stmt.binds@);
    let mut out: Statement = Statement::part(
        "SELECT c.algo, c.hash, c.file_type, c.ext, c.size, c.has_thumb, (SELECT COUNT(*) FROM locations l WHERE l.algo=c.algo AND l.hash=c.hash), (SELECT MIN(l.path) FROM locations l WHERE l.algo=c.algo AND l.hash=c.hash), (SELECT IFNULL(GROUP_CONCAT(DISTINCT l.drive_id),'') FROM locations l WHERE l.algo=c.algo AND l.hash=c.hash), EXISTS (SELECT 1 FROM locations l JOIN drives dr ON dr.drive_id=l.drive_id WHERE l.algo=c.algo AND l.hash=c.hash AND dr.online=1 AND dr.detached=0), (SELECT IFNULL(GROUP_CONCAT(t.tag),'') FROM tags t WHERE t.algo=c.algo AND t.hash=c.hash), (SELECT lm.group_id FROM link_members lm WHERE lm.algo=c.algo AND lm.hash=c.hash) FROM content c ",
    );
    out.add(stmt);
    assert(out.sql@ =~= select_rows());
    assert(bind_views(out.binds@) =~= binds);
    assert(views(list@).len() == list@.len());
    if list.len() > 0 {
        let all: String = join_all(&list, " AND ");
        out.add_sql("WHERE ");
        out.add_sql(all.as_str());
    }
    assert(out.sql@ =~= select_rows() + where_clause(views(list@)));
    out.add_sql(" ORDER BY c.hash LIMIT ? OFFSET ?");
    out.bind_int(limit);
    out.bind_int(offset);
    assert(bind_views(out.binds@) =~= binds + seq![BindView::Int(limit), BindView::Int(offset)]);
    out
}

/// The statement of a page of contents that match a filter, by hash.
pub fn query(f: &QueryFilter) -> (r: Statement)
    ensures
        r.sql@ == select_rows() + where_clause(filter_conds(f))
            + " ORDER BY c.hash LIMIT ? OFFSET ?"@,
        bind_views(r.binds@) == filter_binds(f) + seq![
            BindView::Int(f.limit),
            BindView::Int(f.offset),
        ],
{
    page_of(all_conds(f), f.limit, f.offset)
}

// ---- directories -----------------------------------------------------------

/// A path without the slashes at its ends.
pub open spec fn bare_path(path: Seq<char>) -> Seq<char> {
    trimmed_of(path, '/')
}

/// What the paths below a directory start with; nothing for the root of a drive.
pub open spec fn dir_prefix(path: Seq<char>) -> Seq<char> {
    if bare_path(path).len() == 0 {
        Seq::empty()
    } else {
        bare_path(path) + "/"@
    }
}

/// The condition that a path lies below a directory; none for the root.
pub open spec fn below_cond(prefix: Seq<char>) -> Seq<char> {
    if prefix.len() == 0 {
        Seq::empty()
    } else {
        "AND l.path >= ?2 AND l.path < ?3"@
    }
}

/// A length as it is bound, cut to what a column can hold.
pub open spec fn bound_len(n: nat) -> i64 {
    if n <= i64::MAX {
        n as i64
    } else {
        i64::MAX
    }
}

/// The values of the statements of a listing: the drive, the bounds of the paths,
/// and the length of what they start with.
pub open spec fn listing_binds(drive: Seq<char>, path: Seq<char>) -> Seq<BindView> {
    let prefix = dir_prefix(path);
    seq![
        BindView::Text(drive),
        BindView::Text(prefix),
        BindView::Text(upper_of(prefix)),
        BindView::Int(bound_len(prefix.len())),
    ]
}

/// The statement for the files directly in a directory.
pub open spec fn files_sql(prefix: Seq<char>) -> Seq<char> {
    "SELECT substr(l.path, ?4 + 1) AS name, l.algo, l.hash, c.size, c.file_type, c.ext, c.has_thumb FROM locations l JOIN content c ON c.algo = l.algo AND c.hash = l.hash WHERE l.drive_id = ?1 "@
        + below_cond(prefix) + " AND instr(substr(l.path, ?4 + 1), '/') = 0 ORDER BY name"@
}

/// The statement for the directories directly in a directory, each with the number
/// of files below it.
pub open spec fn dirs_sql(prefix: Seq<char>) -> Seq<char> {
    "SELECT child, COUNT(*) AS n FROM (SELECT substr(rest, 1, instr(rest, '/') - 1) AS child FROM (SELECT substr(l.path, ?4 + 1) AS rest FROM locations l WHERE l.drive_id = ?1 "@
        + below_cond(prefix)
        + ") WHERE instr(rest, '/') > 0) GROUP BY child ORDER BY child"@
}

/// The statements of a listing.
#[derive(Clone, Debug)]
pub struct Listing {
    pub files: Statement,
    pub dirs: Statement,
}

/// What the paths below a directory start with, with its upper bound.
fn bounds(path: &str) -> (r: (String, String))
    ensures
        r.0@ == dir_prefix(path@),
        r.1@ == upper_of(dir_prefix(path@)),
{
    let bare: String = trim_char(path, '/');
    proof {
        reveal_strlit("/");
    }
    let prefix: String = if bare.as_str().is_empty() {
        let none: String = String::new();
        assert(none@ =~= Seq::<char>::empty());
        none
    } else {
        concat2(bare.as_str(), "/")
    };
    let upper: String = prefix_upper(prefix.as_str());
    (prefix, upper)
}

fn add_listing_binds(s: &mut Statement, drive: &str, path: &str)
    ensures
        final(s).sql@ == old(s).sql@,
        bind_views(final(s).binds@) == bind_views(old(s).binds@) + listing_binds(drive@, path@),
{
    let (prefix, upper): (String, String) = bounds(path);
    let c: Vec<char> = chars_of(prefix.as_str());
    s.bind_text(drive);
    s.bind_text(prefix.as_str());
    s.bind_text(upper.as_str());
    let n: u64 = c.len() as u64;
    s.bind_int(
        if n <= i64::MAX as u64 {
            n as i64
        } else {
            i64::MAX
        },
    );
    assert(bind_views(s.binds@) =~= bind_views(old(s).binds@) + listing_binds(drive@, path@));
}

/// The statements for what is directly in a directory of a drive, the root for an
/// empty path.
pub fn list_dir(drive: &str, path: &str) -> (r: Listing)
    ensures
        r.files.sql@ == files_sql(dir_prefix(path@)),
        r.dirs.sql@ == dirs_sql(dir_prefix(path@)),
        bind_views(r.files.binds@) == listing_binds(drive@, path@),
        bind_views(r.dirs.binds@) == listing_binds(drive@, path@),
{
    let (prefix, _): (String, String) = bounds(path);
    let cond: &str = if prefix.as_str().is_empty() {
        ""
    } else {
        "AND l.path >= ?2 AND l.path < ?3"
    };
    proof {
        reveal_strlit("");
        assert(cond@ =~= below_cond(prefix@));
    }
    let mut files: Statement = Statement::part(
        "SELECT substr(l.path, ?4 + 1) AS name, l.algo, l.hash, c.size, c.file_type, c.ext, c.has_thumb FROM locations l JOIN content c ON c.algo = l.algo AND c.hash = l.hash WHERE l.drive_id = ?1 ",
    );
    files.add_sql(cond);
    files.add_sql(" AND instr(substr(l.path, ?4 + 1), '/') = 0 ORDER BY name");
    add_listing_binds(&mut files, drive, path);
    assert(bind_views(files.binds@) =~= listing_binds(drive@, path@));
    let mut dirs: Statement = Statement::part(
        "SELECT child, COUNT(*) AS n FROM (SELECT substr(rest, 1, instr(rest, '/') - 1) AS child FROM (SELECT substr(l.path, ?4 + 1) AS rest FROM locations l WHERE l.drive_id = ?1 ",
    );
    dirs.add_sql(cond);
    dirs.add_sql(") WHERE instr(rest, '/') > 0) GROUP BY child ORDER BY child");
    add_listing_binds(&mut dirs, drive, path);
    assert(bind_views(dirs.binds@) =~= listing_binds(drive@, path@));
    Listing { files, dirs }
}

/// Slashes at either end of a path make no difference to what is listed or described.
pub proof fn law_slashes_at_the_ends_do_not_matter(drive: Seq<char>, path: Seq<char>)
    ensures
        bare_path(seq!['/'] + path) == bare_path(path),
        bare_path(path.push('/')) == bare_path(path),
        dir_prefix(seq!['/'] + path) == dir_prefix(path),
        dir_prefix(path.push('/')) == dir_prefix(path),
        listing_binds(drive, seq!['/'] + path) == listing_binds(drive, path),
        listing_binds(drive, path.push('/')) == listing_binds(drive, path),
{
    assert((seq!['/'] + path).skip(1) =~= path);
    lemma_slash_behind(path);
}

proof fn lemma_slash_behind(path: Seq<char>)
    ensures
        bare_path(path.push('/')) == bare_path(path),
    decreases path.len(),
{
    let more = path.push('/');
    if path.len() > 0 && path[0] == '/' {
        lemma_slash_behind(path.skip(1));
        assert(more.skip(1) =~= path.skip(1).push('/'));
    } else if path.len() == 0 {
        assert(more.skip(1) =~= path);
        assert(trimmed_start(more, only('/')) == trimmed_start(path, only('/')));
    } else {
        assert(more[0] == path[0]);
        assert(more.drop_last() =~= path);
    }
}

/// What some paths hold behind a prefix, for those that start with it.
pub open spec fn rests(paths: Seq<Seq<char>>, prefix: Seq<char>) -> Seq<Seq<char>>
    decreases paths.len(),
{
    if paths.len() == 0 {
        Seq::empty()
    } else {
        let before = rests(paths.drop_last(), prefix);
        if has_prefix(paths.last(), prefix) {
            before.push(paths.last().skip(prefix.len() as int))
        } else {
            before
        }
    }
}

/// The names of the files among them: those without a slash.
pub open spec fn direct_names(rests: Seq<Seq<char>>) -> Seq<Seq<char>>
    decreases rests.len(),
{
    if rests.len() == 0 {
        Seq::empty()
    } else {
        let before = direct_names(rests.drop_last());
        if rests.last().contains('/') {
            before
        } else {
            before.push(rests.last())
        }
    }
}

/// The first segments of the others, one for each file further down.
pub open spec fn first_segments(rests: Seq<Seq<char>>) -> Seq<Seq<char>>
    decreases rests.len(),
{
    if rests.len() == 0 {
        Seq::empty()
    } else {
        let before = first_segments(rests.drop_last());
        if rests.last().contains('/') {
            before.push(rests.last().take(index_or_len(rests.last(), '/')))
        } else {
            before
        }
    }
}

/// How many of some paths are not before a text and before another.
pub open spec fn count_in_range(paths: Seq<Seq<char>>, lo: Seq<char>, hi: Seq<char>) -> nat
    decreases paths.len(),
{
    if paths.len() == 0 {
        0
    } else {
        count_in_range(paths.drop_last(), lo, hi) + if !text_lt(paths.last(), lo) && text_lt(
            paths.last(),
            hi,
        ) {
            1nat
        } else {
            0
        }
    }
}

/// What is listed of a directory adds up: the files directly in it and, for each next
/// segment once and in order, the files below that, are together all files below the
/// directory.
pub proof fn law_listing_adds_up(paths: Seq<Seq<char>>, prefix: Seq<char>)
    ensures
        ({
            let below = rests(paths, prefix);
            let segments = first_segments(below);
            let dirs = members::<String>(segments);
            &&& in_order::<String>(dirs)
            &&& forall|d: Seq<char>| #[trigger] dirs.contains(d) <==> segments.contains(d)
            &&& direct_names(below).len() + place_total(segments, dirs) == below.len()
        }),
{
    let below = rests(paths, prefix);
    let segments = first_segments(below);
    let dirs = members::<String>(segments);
    law_members_are_listed::<String>(segments);
    assert forall|i: int| 0 <= i < segments.len() implies dirs.contains(#[trigger] segments[i]) by {
        assert(segments.contains(segments[i]));
    }
    law_members_have_every_place::<String>(segments, dirs);
    lemma_direct_or_deeper(below);
}

proof fn lemma_direct_or_deeper(rests: Seq<Seq<char>>)
    ensures
        direct_names(rests).len() + first_segments(rests).len() == rests.len(),
    decreases rests.len(),
{
    if rests.len() > 0 {
        lemma_direct_or_deeper(rests.drop_last());
    }
}

/// The files below a directory are as many as its description counts: those between the
/// two bounds, or all files for the root of the drive.
pub proof fn law_description_counts_what_is_below(paths: Seq<Seq<char>>, path: Seq<char>)
    ensures
        rests(paths, dir_prefix(path)).len() == (if bare_path(path).len() == 0 {
            paths.len()
        } else {
            count_in_range(paths, dir_prefix(path), upper_of(dir_prefix(path)))
        }),
    decreases paths.len(),
{
    let prefix = dir_prefix(path);
    if paths.len() > 0 {
        law_description_counts_what_is_below(paths.drop_last(), path);
        let last = paths.last();
        reveal_strlit("/");
        if bare_path(path).len() == 0 {
            assert(last.subrange(0, 0) =~= prefix);
        } else {
            assert(prefix.last() == '/');
            assert(('/' as int) < 0x7f);
            law_range_is_the_subtree(prefix, last);
        }
    }
}

/// How to describe a path.
#[derive(Clone, Debug)]
pub enum StatPlan {
    /// It is the root of the drive: count all files.
    Root,
    /// Look for a file with the path, else count the files between two bounds.
    Lookup { name: String, path: String, lo: String, hi: String },
}

/// The last part of a path.
pub open spec fn last_part(path: Seq<char>) -> Seq<char>
    decreases path.len(),
{
    if path.len() == 0 || path.last() == '/' {
        Seq::empty()
    } else {
        last_part(path.drop_last()).push(path.last())
    }
}

fn last_part_of(path: &str) -> (r: String)
    ensures
        r@ == last_part(path@),
{
    let c: Vec<char> = chars_of(path);
    let n: usize = c.len();
    let mut k: usize = n;
    assert(c@.take(n as int) =~= path@);
    assert(c@.subrange(n as int, n as int) =~= Seq::<char>::empty());
    assert(last_part(c@.take(k as int)) + c@.subrange(k as int, n as int) =~= last_part(path@));
    while k > 0 && c[k - 1] != '/'
        invariant
            k <= n,
            n == c@.len(),
            last_part(c@.take(k as int)) + c@.subrange(k as int, n as int) == last_part(path@),
        decreases k,
    {
        let ghost t = c@.take(k as int);
        proof {
            assert(t.drop_last() =~= c@.take(k - 1));
            assert(t.last() == c@[k - 1]);
            assert(last_part(c@.take(k - 1)) + c@.subrange(k - 1, n as int) =~= last_part(t)
                + c@.subrange(k as int, n as int));
        }
        k -= 1;
    }
    proof {
        let t = c@.take(k as int);
        assert(k > 0 ==> t.last() == c@[k - 1]);
        assert(last_part(t) =~= Seq::<char>::empty());
        assert(last_part(t) + c@.subrange(k as int, n as int) =~= c@.subrange(k as int, n as int));
    }
    text_between(&c, k, n)
}

/// Decides how to describe a path of a drive.
pub fn stat(path: &str) -> (r: StatPlan)
    ensures
        if bare_path(path@).len() == 0 {
            r is Root
        } else {
            r matches StatPlan::Lookup { name, path: p, lo, hi } && name@ == last_part(
                bare_path(path@),
            ) && p@ == bare_path(path@) && lo@ == dir_prefix(path@) && hi@ == upper_of(
                dir_prefix(path@),
            )
        },
{
    let bare: String = trim_char(path, '/');
    if bare.as_str().is_empty() {
        return StatPlan::Root;
    }
    let (lo, hi): (String, String) = bounds(path);
    StatPlan::Lookup { name: last_part_of(bare.as_str()), path: bare, lo, hi }
}

/// What a path is: the file that was found, else a directory where there are files
/// below it.
pub fn stat_entry(name: String, file: Option<DirEntry>, below: i64) -> (r: Option<DirEntry>)
    ensures
        match file {
            Some(f) => r == Some(f),
            None => if below > 0 {
                r matches Some(d) && d.name@ == name@ && d.kind@ == "dir"@ && d.file_count == Some(
                    below,
                ) && d.algo is None && d.hash is None && d.size is None && d.file_type is None
                    && d.ext is None && d.has_thumb is None
            } else {
                r is None
            },
        },
{
    match file {
        Some(f) => Some(f),
        None => if below > 0 {
            Some(DirEntry::dir(name, below))
        } else {
            None
        },
    }
}

// ---- hashes and links ------------------------------------------------------

/// Why a hash does not name one content.
#[derive(Clone, Debug, PartialEq, Eq)]
pub enum HashError {
    /// No content has it.
    Unknown(String),
    /// Several contents have it.
    Ambiguous(String),
}

impl HashError {
    /// What to tell the user.
    pub fn message(&self) -> (r: String)
        ensures
            r@ == match *self {
                HashError::Unknown(p) => "no indexed content matching hash "@ + p@,
                HashError::Ambiguous(p) => "hash prefix "@ + p@ + " is ambiguous"@,
            },
    {
        match self {
            HashError::Unknown(p) => concat2("no indexed content matching hash ", p.as_str()),
            HashError::Ambiguous(p) => {
                let mut out: String = concat2("hash prefix ", p.as_str());
                out.append(" is ambiguous");
                out
            },
        }
    }
}

/// The one content among those that were found for a hash or its beginning.
pub fn resolve_hash(prefix: &str, found: Vec<(String, String)>) -> (r: Result<
    (String, String),
    HashError,
>)
    ensures
        if found@.len() == 0 {
            r matches Err(HashError::Unknown(p)) && p@ == prefix@
        } else if found@.len() == 1 {
            r == Ok::<(String, String), HashError>(found@[0])
        } else {
            r matches Err(HashError::Ambiguous(p)) && p@ == prefix@
        },
{
    let mut rows: Vec<(String, String)> = found;
    if rows.len() == 0 {
        return Err(HashError::Unknown(prefix.to_owned()));
    }
    if rows.len() > 1 {
        return Err(HashError::Ambiguous(prefix.to_owned()));
    }
    Ok(rows.pop().unwrap())
}

/// The text that matches the hashes that start with a prefix.
pub fn hash_pattern(prefix: &str) -> (r: String)
    ensures
        r@ == prefix_pattern(prefix@),
{
    concat2(prefix, "%")
}

/// The groups that some contents are in, each once, in order.
pub open spec fn groups_of(found: Seq<Option<String>>) -> Seq<Seq<char>>
    decreases found.len(),
{
    if found.len() == 0 {
        Seq::empty()
    } else {
        let before = groups_of(found.drop_last());
        match found.last() {
            Some(g) => if before.contains(g@) {
                before
            } else {
                before.push(g@)
            },
            None => before,
        }
    }
}

/// How to link contents: the group that they are all in afterwards, and the groups
/// that become part of it.
#[derive(Clone, Debug)]
pub struct LinkPlan {
    pub target: String,
    pub merged: Vec<String>,
}

/// The groups of some contents, each once, in order.
fn distinct_groups(found: &Vec<Option<String>>) -> (r: Vec<String>)
    ensures
        views(r@) == groups_of(found@),
{
    let mut groups: Vec<String> = Vec::new();
    let mut i: usize = 0;
    assert(views(groups@) =~= groups_of(found@.take(0)));
    while i < found.len()
        invariant
            i <= found@.len(),
            views(groups@) == groups_of(found@.take(i as int)),
        decreases found@.len() - i,
    {
        proof {
            assert(found@.take(i + 1).drop_last() =~= found@.take(i as int));
            assert(found@.take(i + 1).last() == found@[i as int]);
        }
        if let Some(g) = &found[i] {
            if !list_has(&groups, g.as_str()) {
                let copy: String = g.clone();
                proof {
                    lemma_views_push(groups@, copy);
                }
                groups.push(copy);
            }
        }
        i += 1;
    }
    assert(found@.take(i as int) =~= found@);
    groups
}

/// Whether a list holds a text.
fn list_has(list: &Vec<String>, s: &str) -> (r: bool)
    ensures
        r == views(list@).contains(s@),
{
    let mut i: usize = 0;
    while i < list.len()
        invariant
            i <= list@.len(),
            forall|k: int| 0 <= k < i ==> #[trigger] views(list@)[k] != s@,
        decreases list@.len() - i,
    {
        assert(views(list@)[i as int] == list@[i as int]@);
        if text_eq(list[i].as_str(), s) {
            assert(views(list@).contains(s@));
            return true;
        }
        i += 1;
    }
    false
}

/// Plans the linking of contents, given the group that each is in, if any, and a
/// fresh group: all go to the first group that one of them is in, and the other
/// groups become part of it; without any they go to the fresh one.
pub fn link_hashes(found: &Vec<Option<String>>, fresh: String) -> (r: LinkPlan)
    ensures
        ({
            let groups = groups_of(found@);
            &&& r.target@ == link_target(found@, fresh@)
            &&& views(r.merged@) == (if groups.len() == 0 {
                groups
            } else {
                groups.skip(1)
            })
        }),
{
    let mut groups: Vec<String> = distinct_groups(found);
    let ghost gv = views(groups@);
    if groups.len() == 0 {
        assert(gv =~= groups_of(found@));
        return LinkPlan { target: fresh, merged: groups };
    }
    assert(gv[0] == groups@[0]@);
    let ghost all = groups@;
    let target: String = groups.remove(0);
    assert(views(groups@) =~= gv.skip(1));
    LinkPlan { target, merged: groups }
}

/// Whether a group is dissolved: a link needs at least two contents.
pub fn dissolves(remaining: i64) -> (r: bool)
    ensures
        r == (remaining < 2),
{
    remaining < 2
}

/// The hashes of a group without one of them, in order.
pub open spec fn others(members: Seq<(String, String)>, hash: Seq<char>) -> Seq<Seq<char>>
    decreases members.len(),
{
    if members.len() == 0 {
        Seq::empty()
    } else {
        let before = others(members.drop_last(), hash);
        if members.last().1@ == hash {
            before
        } else {
            before.push(members.last().1@)
        }
    }
}

/// The hashes that a content is linked to.
pub fn linked_to(members: &Vec<(String, String)>, hash: &str) -> (r: Vec<String>)
    ensures
        views(r@) == others(members@, hash@),
{
    let mut out: Vec<String> = Vec::new();
    let mut i: usize = 0;
    assert(views(out@) =~= others(members@.take(0), hash@));
    while i < members.len()
        invariant
            i <= members@.len(),
            views(out@) == others(members@.take(i as int), hash@),
        decreases members@.len() - i,
    {
        proof {
            assert(members@.take(i + 1).drop_last() =~= members@.take(i as int));
            assert(members@.take(i + 1).last() == members@[i as int]);
        }
        if !text_eq(members[i].1.as_str(), hash) {
            let copy: String = members[i].1.clone();
            proof {
                lemma_views_push(out@, copy);
            }
            out.push(copy);
        }
        i += 1;
    }
    assert(members@.take(i as int) =~= members@);
    out
}

/// What is known of a content in one row.
#[derive(Clone, Debug)]
pub struct Summary {
    pub size: i64,
    pub file_type: Option<String>,
    pub ext: Option<String>,
    pub extracted_at: String,
    pub has_thumb: bool,
}

/// Puts together all that is known of a content.
pub fn content_detail(
    id: (String, String),
    summary: Summary,
    metadata: Vec<MetaTag>,
    locations: Vec<LocationRow>,
    tags: Vec<String>,
    group: &Vec<(String, String)>,
) -> (r: ContentDetail)
    ensures
        r.algo == id.0,
        r.hash == id.1,
        r.size == summary.size,
        r.file_type == summary.file_type,
        r.ext == summary.ext,
        r.extracted_at == summary.extracted_at,
        r.has_thumb == summary.has_thumb,
        r.metadata == metadata,
        r.locations == locations,
        r.tags == tags,
        views(r.links@) == others(group@, id.1@),
{
    let links: Vec<String> = linked_to(group, id.1.as_str());
    let (algo, hash): (String, String) = id;
    ContentDetail {
        algo,
        hash,
        size: summary.size,
        file_type: summary.file_type,
        ext: summary.ext,
        extracted_at: summary.extracted_at,
        has_thumb: summary.has_thumb,
        metadata,
        locations,
        tags,
        links,
    }
}

/// The absolute path of a copy.
pub fn copy_path(last_root: &str, path: &str) -> (r: String)
    ensures
        r@ == joined_path(last_root@, path@),
{
    join(last_root, path)
}

/// A content is not linked to itself.
pub proof fn law_no_link_to_itself(members: Seq<(String, String)>, hash: Seq<char>)
    ensures
        !others(members, hash).contains(hash),
    decreases members.len(),
{
    if members.len() > 0 {
        law_no_link_to_itself(members.drop_last(), hash);
        let before = others(members.drop_last(), hash);
        let all = others(members, hash);
        if all.contains(hash) {
            let i = choose|i: int| 0 <= i < all.len() && all[i] == hash;
            if i < before.len() {
                assert(before[i] == hash);
            }
        }
    }
}

/// The group that contents are linked in: the first that one of them is in, else the
/// fresh one.
pub open spec fn link_target(found: Seq<Option<String>>, fresh: Seq<char>) -> Seq<char> {
    let groups = groups_of(found);
    if groups.len() == 0 {
        fresh
    } else {
        groups[0]
    }
}

/// The group of a content after others were linked, or itself with them.
pub open spec fn group_after(
    group: Option<Seq<char>>,
    is_member: bool,
    found: Seq<Option<String>>,
    fresh: Seq<char>,
) -> Option<Seq<char>> {
    match group {
        Some(g) if !is_member && !groups_of(found).contains(g) => Some(g),
        None if !is_member => None,
        _ => Some(link_target(found, fresh)),
    }
}

/// Linking takes no link apart: two contents of one group are in one group afterwards,
/// whether they are linked now or not. `found` has the groups of the contents that are
/// linked now.
pub proof fn law_linking_keeps_links(
    group: Seq<char>,
    a_is_member: bool,
    b_is_member: bool,
    found: Seq<Option<String>>,
    fresh: Seq<char>,
)
    requires
        a_is_member || b_is_member ==> exists|i: int|
            0 <= i < found.len() && opt_view(#[trigger] found[i]) == Some(group),
    ensures
        group_after(Some(group), a_is_member, found, fresh) == group_after(
            Some(group),
            b_is_member,
            found,
            fresh,
        ),
{
    if a_is_member || b_is_member {
        let i = choose|i: int|
            0 <= i < found.len() && opt_view(#[trigger] found[i]) == Some(group);
        lemma_group_is_listed(found, i);
    }
}

proof fn lemma_group_is_listed(found: Seq<Option<String>>, i: int)
    requires
        0 <= i < found.len(),
        found[i] is Some,
    ensures
        groups_of(found).contains(found[i]->0@),
    decreases found.len(),
{
    let init = found.drop_last();
    let before = groups_of(init);
    let all = groups_of(found);
    if i < init.len() {
        lemma_group_is_listed(init, i);
        let k = choose|k: int| 0 <= k < before.len() && before[k] == found[i]->0@;
        assert(all[k] == before[k]);
    } else if !before.contains(found[i]->0@) {
        assert(all[all.len() - 1] == found[i]->0@);
    }
}

/// The groups of some contents are those that one of them is in, each once.
pub proof fn law_groups_are_those_of_the_contents(found: Seq<Option<String>>, g: Seq<char>)
    ensures
        groups_of(found).contains(g) <==> exists|i: int|
            0 <= i < found.len() && (#[trigger] found[i]) is Some && found[i]->0@ == g,
        forall|i: int, j: int|
            0 <= i < j < groups_of(found).len() ==> #[trigger] groups_of(found)[i]
                != #[trigger] groups_of(found)[j],
    decreases found.len(),
{
    if found.len() > 0 {
        let init = found.drop_last();
        let n = init.len() as int;
        let (before, all) = (groups_of(init), groups_of(found));
        law_groups_are_those_of_the_contents(init, g);
        assert(found[n] == found.last());
        if all.contains(g) {
            let x = choose|x: int| 0 <= x < all.len() && all[x] == g;
            if x < before.len() {
                assert(before[x] == g);
                let i = choose|i: int|
                    0 <= i < init.len() && (#[trigger] init[i]) is Some && init[i]->0@ == g;
                assert(found[i] == init[i]);
            }
        }
        if exists|i: int| 0 <= i < found.len() && (#[trigger] found[i]) is Some && found[i]->0@ == g {
            let i = choose|i: int|
                0 <= i < found.len() && (#[trigger] found[i]) is Some && found[i]->0@ == g;
            if i < n {
                assert(init[i] == found[i]);
                let x = choose|x: int| 0 <= x < before.len() && before[x] == g;
                assert(all[x] == g);
            } else if !before.contains(g) {
                assert(all[before.len() as int] == g);
            } else {
                let x = choose|x: int| 0 <= x < before.len() && before[x] == g;
                assert(all[x] == g);
            }
        }
        assert forall|i: int, j: int| 0 <= i < j < all.len() implies #[trigger] all[i]
            != #[trigger] all[j] by {
            if j < before.len() {
                assert(before[i] != before[j]);
            } else {
                assert(before[i] == all[i]);
                assert(before.contains(before[i]));
            }
        }
    }
}

/// A content is linked to every other content of its group.
pub proof fn law_linked_to_every_other(
    members: Seq<(String, String)>,
    hash: Seq<char>,
    other: Seq<char>,
)
    requires
        other != hash,
    ensures
        others(members, hash).contains(other) <==> exists|i: int|
            0 <= i < members.len() && (#[trigger] members[i]).1@ == other,
    decreases members.len(),
{
    if members.len() > 0 {
        let init = members.drop_last();
        let n = init.len() as int;
        let (before, all) = (others(init, hash), others(members, hash));
        law_linked_to_every_other(init, hash, other);
        assert(members[n] == members.last());
        if all.contains(other) {
            let x = choose|x: int| 0 <= x < all.len() && all[x] == other;
            if x < before.len() {
                assert(before[x] == other);
                let i = choose|i: int| 0 <= i < init.len() && (#[trigger] init[i]).1@ == other;
                assert(members[i] == init[i]);
            }
        }
        if exists|i: int| 0 <= i < members.len() && (#[trigger] members[i]).1@ == other {
            let i = choose|i: int| 0 <= i < members.len() && (#[trigger] members[i]).1@ == other;
            if i < n {
                assert(init[i] == members[i]);
                let x = choose|x: int| 0 <= x < before.len() && before[x] == other;
                assert(all[x] == other);
            } else {
                assert(all[before.len() as int] == other);
            }
        }
    }
}

/// The index lies in the directory that the environment names, else in `.hashit` of the
/// home directory.
pub proof fn law_where_the_catalog_lies(env: Option<Seq<char>>, home: Option<Seq<char>>)
    ensures
        env is Some ==> home_of(env, home) == env,
        env is None && home is Some ==> home_of(env, home) == Some(
            joined_path(home->0, ".hashit"@),
        ),
        env is None && home is None ==> home_of(env, home) is None,
{
}

/// The thumbnail of a content lies under its algorithm and the first two characters of
/// its hash.
pub proof fn law_where_thumbnails_lie(cache: Seq<char>, algo: Seq<char>, hash: Seq<char>)
    requires
        forall|i: int| 0 <= i < hash.len() ==> ((#[trigger] hash[i]) as int) < 0x80,
        hash.len() >= 2,
    ensures
        thumb_path_of(cache, algo, hash) == joined_path(
            joined_path(joined_path(cache, algo), hash.subrange(0, 2)),
            hash + ".jpg"@,
        ),
{
    law_ascii_texts_are_cut_by_characters(hash, 2);
    assert(hash.take(2) =~= hash.subrange(0, 2));
    if hash.len() == 2 {
        assert(hash =~= hash.subrange(0, 2));
    }
}

/// The last part of a path is what stands behind its last slash.
pub proof fn law_last_part_stands_behind_the_last_slash(dir: Seq<char>, name: Seq<char>)
    requires
        !name.contains('/'),
    ensures
        last_part(name) == name,
        last_part(dir + seq!['/'] + name) == name,
    decreases name.len(),
{
    let path = dir + seq!['/'] + name;
    if name.len() == 0 {
        assert(path.last() == '/');
        assert(last_part(name) =~= name);
        assert(last_part(path) =~= name);
    } else {
        let less = name.drop_last();
        assert(name.contains(name[name.len() - 1]));
        assert(!less.contains('/')) by {
            if less.contains('/') {
                let k = choose|k: int| 0 <= k < less.len() && less[k] == '/';
                assert(name[k] == '/');
            }
        }
        law_last_part_stands_behind_the_last_slash(dir, less);
        assert(path.drop_last() =~= dir + seq!['/'] + less);
        assert(path.last() == name.last());
        assert(less.push(name.last()) =~= name);
    }
}

/// What a path of a drive is: the root where nothing is left of it without the slashes
/// at its ends; else a file where there is one, else a directory with as many files as
/// lie below it, else nothing.
pub proof fn law_what_a_path_is(
    path: &str,
    plan: StatPlan,
    name: String,
    file: Option<DirEntry>,
    below: i64,
    r: Option<DirEntry>,
)
    requires
        call_ensures(stat, (path,), plan),
        call_ensures(stat_entry, (name, file, below), r),
    ensures
        plan is Root <==> bare_path(path@).len() == 0,
        plan is Lookup ==> plan->path@ == bare_path(path@) && plan->lo@ == bare_path(path@) + "/"@
            && plan->name@ == last_part(bare_path(path@)),
        plan is Lookup ==> plan->hi@ == upper_of(plan->lo@),
        file is Some ==> r == file,
        file is None && below > 0 ==> r is Some && r->0.kind@ == "dir"@ && r->0.name@ == name@
            && r->0.file_count == Some(below),
        file is None && below <= 0 ==> r is None,
{
}

/// A hash or its beginning names a content exactly where it is the only one that was
/// found; none or several are told apart.
pub proof fn law_hash_names_the_only_match(
    prefix: &str,
    found: Vec<(String, String)>,
    r: Result<(String, String), HashError>,
)
    requires
        call_ensures(resolve_hash, (prefix, found), r),
    ensures
        r is Ok <==> found@.len() == 1,
        r is Ok ==> r->Ok_0 == found@[0],
        found@.len() == 0 ==> r->Err_0 is Unknown && r->Err_0->Unknown_0@ == prefix@,
        found@.len() > 1 ==> r->Err_0 is Ambiguous && r->Err_0->Ambiguous_0@ == prefix@,
{
}

/// A group is dissolved once fewer than two contents are left in it.
pub proof fn law_links_need_two(remaining: i64, r: bool)
    requires
        call_ensures(dissolves, (remaining,), r),
    ensures
        r <==> remaining <= 1,
{
}

/// Linking puts everything into the group that the first linked content was in, into
/// the fresh one where none was in any, and merges the other groups into it.
pub proof fn law_links_go_to_the_first_group(
    found: &Vec<Option<String>>,
    fresh: String,
    r: LinkPlan,
)
    requires
        call_ensures(link_hashes, (found, fresh), r),
    ensures
        (forall|i: int| 0 <= i < found@.len() ==> (#[trigger] found@[i]) is None) ==> r.target@
            == fresh@ && r.merged@.len() == 0,
        groups_of(found@).len() > 0 ==> r.target@ == groups_of(found@)[0],
        forall|g: Seq<char>|
            #[trigger] views(r.merged@).contains(g) ==> groups_of(found@).contains(g) && g
                != r.target@,
        forall|g: Seq<char>|
            #[trigger] groups_of(found@).contains(g) ==> g == r.target@ || views(
                r.merged@,
            ).contains(g),
{
    let all = groups_of(found@);
    let merged = views(r.merged@);
    assert(merged.len() == r.merged@.len());
    if all.len() > 0 {
        law_groups_are_those_of_the_contents(found@, all[0]);
        assert(all.contains(all[0]));
        assert forall|g: Seq<char>| #[trigger] merged.contains(g) implies all.contains(g) && g
            != r.target@ by {
            let x = choose|x: int| 0 <= x < merged.len() && merged[x] == g;
            assert(all[x + 1] == g);
            assert(all[0] != all[x + 1]);
        }
        assert forall|g: Seq<char>| #[trigger] all.contains(g) implies g == r.target@
            || merged.contains(g) by {
            let x = choose|x: int| 0 <= x < all.len() && all[x] == g;
            if x > 0 {
                assert(merged[x - 1] == g);
            }
        }
    }
}

/// A page of contents is as long as asked for and starts where asked for: these are the
/// last two values, behind those of the conditions.
pub proof fn law_page_of_contents(f: &QueryFilter, r: Statement)
    requires
        call_ensures(query, (f,), r),
    ensures
        ({
            let all = bind_views(r.binds@);
            let n = all.len();
            &&& n >= 2
            &&& all[n - 2] == BindView::Int(f.limit)
            &&& all[n - 1] == BindView::Int(f.offset)
            &&& all.take(n - 2) == filter_binds(f)
        }),
{
    let all = bind_views(r.binds@);
    assert(all.take(all.len() - 2) =~= filter_binds(f));
}

/// What the paths below a directory start with is its path and a slash; below the root
/// of a drive they start with anything.
pub proof fn law_paths_below_start_with_the_directory(path: Seq<char>, slashes: Seq<char>)
    requires
        path.len() > 0,
        path[0] != '/',
        path.last() != '/',
        forall|i: int| 0 <= i < slashes.len() ==> (#[trigger] slashes[i]) == '/',
    ensures
        dir_prefix(path) == path + seq!['/'],
        dir_prefix(slashes).len() == 0,
{
    reveal_strlit("/");
    crate::text::law_trimming_takes_off_a_character(slashes, '/');
    let t = crate::text::trimmed_of(slashes, '/');
    if t.len() > 0 {
        let (a, b) = choose|a: Seq<char>, b: Seq<char>|
            #![trigger a + t + b]
            slashes == a + t + b && (forall|i: int|
                0 <= i < a.len() ==> (#[trigger] a[i]) == '/') && (forall|i: int|
                0 <= i < b.len() ==> (#[trigger] b[i]) == '/');
        assert(slashes[a.len() as int] == t[0]);
    }
}

/// The condition that a row of the table is of the content that is shown.
pub open spec fn of_the_content(table: Seq<char>) -> Seq<char> {
    " WHERE "@ + table + ".algo=c.algo AND "@ + table + ".hash=c.hash"@
}

/// A row of a query shows the content, how many copies it has, the least of their paths,
/// their drives, whether one of them is on a drive that is there, its tags and its group.
#[verifier::spinoff_prover]
#[verifier::rlimit(60)]
pub proof fn law_rows_show_what_belongs_to_the_content()
    ensures
        select_rows() == "SELECT c.algo, c.hash, c.file_type, c.ext, c.size, c.has_thumb, "@
            + "(SELECT COUNT(*) FROM locations l"@ + of_the_content("l"@) + "), "@
            + "(SELECT MIN(l.path) FROM locations l"@ + of_the_content("l"@) + "), "@
            + "(SELECT IFNULL(GROUP_CONCAT(DISTINCT l.drive_id),'') FROM locations l"@
            + of_the_content("l"@) + "), "@
            + "EXISTS (SELECT 1 FROM locations l JOIN drives dr ON dr.drive_id=l.drive_id"@
            + of_the_content("l"@) + " AND dr.online=1 AND dr.detached=0), "@
            + "(SELECT IFNULL(GROUP_CONCAT(t.tag),'') FROM tags t"@ + of_the_content("t"@)
            + "), "@ + "(SELECT lm.group_id FROM link_members lm"@ + of_the_content("lm"@)
            + ")"@ + " FROM content c "@,
{
    reveal_strlit("SELECT c.algo, c.hash, c.file_type, c.ext, c.size, c.has_thumb, ");
    reveal_strlit("(SELECT COUNT(*) FROM locations l");
    reveal_strlit("), ");
    reveal_strlit("(SELECT MIN(l.path) FROM locations l");
    reveal_strlit("(SELECT IFNULL(GROUP_CONCAT(DISTINCT l.drive_id),'') FROM locations l");
    reveal_strlit("EXISTS (SELECT 1 FROM locations l JOIN drives dr ON dr.drive_id=l.drive_id");
    reveal_strlit(" AND dr.online=1 AND dr.detached=0), ");
    reveal_strlit("(SELECT IFNULL(GROUP_CONCAT(t.tag),'') FROM tags t");
    reveal_strlit("(SELECT lm.group_id FROM link_members lm");
    reveal_strlit(")");
    reveal_strlit(" FROM content c ");
    reveal_strlit(" WHERE ");
    reveal_strlit(".algo=c.algo AND ");
    reveal_strlit(".hash=c.hash");
    reveal_strlit("l");
    reveal_strlit("t");
    reveal_strlit("lm");
    reveal_strlit(
        "SELECT c.algo, c.hash, c.file_type, c.ext, c.size, c.has_thumb, (SELECT COUNT(*) FROM locations l WHERE l.algo=c.algo AND l.hash=c.hash), (SELECT MIN(l.path) FROM locations l WHERE l.algo=c.algo AND l.hash=c.hash), (SELECT IFNULL(GROUP_CONCAT(DISTINCT l.drive_id),'') FROM locations l WHERE l.algo=c.algo AND l.hash=c.hash), EXISTS (SELECT 1 FROM locations l JOIN drives dr ON dr.drive_id=l.drive_id WHERE l.algo=c.algo AND l.hash=c.hash AND dr.online=1 AND dr.detached=0), (SELECT IFNULL(GROUP_CONCAT(t.tag),'') FROM tags t WHERE t.algo=c.algo AND t.hash=c.hash), (SELECT lm.group_id FROM link_members lm WHERE lm.algo=c.algo AND lm.hash=c.hash) FROM content c ",
    );
}

/// Linking leaves alone what it does not link: a content that is not linked now stays in
/// no group, or in one that none of those that are linked was in; those that are linked
/// are all in one group afterwards.
pub proof fn law_linking_leaves_others_alone(
    group: Option<Seq<char>>,
    other: Option<Seq<char>>,
    found: Seq<Option<String>>,
    fresh: Seq<char>,
)
    ensures
        group is None ==> group_after(group, false, found, fresh) is None,
        group is Some && !groups_of(found).contains(group->0) ==> group_after(
            group,
            false,
            found,
            fresh,
        ) == group,
        group_after(group, true, found, fresh) is Some,
        group_after(group, true, found, fresh) == group_after(other, true, found, fresh),
{
}

} // verus!
