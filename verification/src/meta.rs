//! Per-content metadata, kept as plain files that are found by content hash.
//!
//! Each hash has up to three artifacts in one folder, in directories named after
//! the first two and the next two characters of the hash:
//! `<folder>/1a/fa/1afaef.meta.json`, `.thumbnail.jpg` and `.preview.jpg`.
use vstd::prelude::*;

use crate::paths::{join, joined_path};
use crate::text::{
    byte_len, byte_prefix, bytes_up_to, chars_in_bytes, chars_of, concat3,
    law_ascii_texts_are_cut_by_characters, lemma_byte_prefix, text_between,
};
use crate::textmap::TextMap;

verus! {

pub const META_SUFFIX: &'static str = "meta.json";

pub const THUMBNAIL_SUFFIX: &'static str = "thumbnail.jpg";

pub const PREVIEW_SUFFIX: &'static str = "preview.jpg";

/// The folder to use: the one given, else the one of the environment, else
/// `.hashit-meta` in the home directory, or in the current one without a home.
pub open spec fn meta_folder_of(
    given: Option<Seq<char>>,
    env: Option<Seq<char>>,
    home: Option<Seq<char>>,
) -> Seq<char> {
    match (given, env, home) {
        (Some(p), _, _) => p,
        (None, Some(p), _) => p,
        (None, None, Some(h)) => joined_path(h, ".hashit-meta"@),
        (None, None, None) => ".hashit-meta"@,
    }
}

/// The view of an optional text.
pub open spec fn opt_view(s: Option<String>) -> Option<Seq<char>> {
    match s {
        Some(t) => Some(t@),
        None => None,
    }
}

/// Resolves the metadata folder from the override, `$HASHIT_META` and `$HOME`.
pub fn resolve_meta_folder(given: Option<String>, env: Option<String>, home: Option<String>) -> (r:
    String)
    ensures
        r@ == meta_folder_of(opt_view(given), opt_view(env), opt_view(home)),
{
    if let Some(p) = given {
        return p;
    }
    if let Some(p) = env {
        return p;
    }
    if let Some(h) = home {
        return join(h.as_str(), ".hashit-meta");
    }
    ".hashit-meta".to_owned()
}

/// The bytes from 0 to 2 and from 2 to 4 of a hash can be told apart from the rest:
/// characters end there. So it is with every hexadecimal hash.
pub open spec fn shardable(hash: Seq<char>) -> bool {
    &&& byte_len(hash) >= 2 ==> byte_prefix(hash, 2) is Some
    &&& byte_len(hash) >= 4 ==> byte_prefix(hash, 4) is Some
}

/// The first two bytes of a hash.
pub open spec fn first_shard(hash: Seq<char>) -> Seq<char> {
    if byte_len(hash) < 2 {
        hash
    } else {
        byte_prefix(hash, 2)->0
    }
}

/// The next two bytes of a hash; none where it is shorter.
pub open spec fn second_shard(hash: Seq<char>) -> Seq<char> {
    if byte_len(hash) < 4 {
        Seq::empty()
    } else {
        byte_prefix(hash, 4)->0.skip(first_shard(hash).len() as int)
    }
}

/// Whether a hash can be split into shards.
pub fn can_shard(hash: &str) -> (r: bool)
    ensures
        r == shardable(hash@),
{
    let c: Vec<char> = chars_of(hash);
    let n: usize = bytes_up_to(&c, 4);
    (n < 2 || chars_in_bytes(&c, 2).is_some()) && (n < 4 || chars_in_bytes(&c, 4).is_some())
}

/// The two directory names of a hash.
pub fn shard(hash: &str) -> (r: (String, String))
    requires
        shardable(hash@),
    ensures
        r.0@ == first_shard(hash@),
        r.1@ == second_shard(hash@),
{
    let c: Vec<char> = chars_of(hash);
    let n: usize = bytes_up_to(&c, 4);
    if n < 2 {
        let none: String = String::new();
        assert(none@ =~= Seq::<char>::empty());
        return (hash.to_owned(), none);
    }
    let i: usize = chars_in_bytes(&c, 2).unwrap();
    let a: String = text_between(&c, 0, i);
    assert(a@ =~= c@.take(i as int));
    if n < 4 {
        let none: String = String::new();
        assert(none@ =~= Seq::<char>::empty());
        return (a, none);
    }
    let j: usize = chars_in_bytes(&c, 4).unwrap();
    proof {
        if j < i {
            assert(c@.take(i as int).take(j as int) =~= c@.take(j as int));
            lemma_byte_prefix(c@.take(i as int), j as int, 4);
        }
    }
    let b: String = text_between(&c, i, j);
    assert(b@ =~= c@.take(j as int).skip(i as int));
    (a, b)
}

/// The path of one artifact of a hash.
pub open spec fn artifact_path_of(folder: Seq<char>, hash: Seq<char>, suffix: Seq<char>) -> Seq<
    char,
> {
    joined_path(
        joined_path(joined_path(folder, first_shard(hash)), second_shard(hash)),
        hash + "."@ + suffix,
    )
}

/// The path of one artifact of a hash.
pub fn artifact_path(meta_folder: &str, hash: &str, suffix: &str) -> (r: String)
    requires
        shardable(hash@),
    ensures
        r@ == artifact_path_of(meta_folder@, hash@, suffix@),
{
    let (a, b): (String, String) = shard(hash);
    let name: String = concat3(hash, ".", suffix);
    let d: String = join(meta_folder, a.as_str());
    let e: String = join(d.as_str(), b.as_str());
    join(e.as_str(), name.as_str())
}

pub fn meta_path(meta_folder: &str, hash: &str) -> (r: String)
    requires
        shardable(hash@),
    ensures
        r@ == artifact_path_of(meta_folder@, hash@, META_SUFFIX@),
{
    artifact_path(meta_folder, hash, META_SUFFIX)
}

pub fn thumbnail_path(meta_folder: &str, hash: &str) -> (r: String)
    requires
        shardable(hash@),
    ensures
        r@ == artifact_path_of(meta_folder@, hash@, THUMBNAIL_SUFFIX@),
{
    artifact_path(meta_folder, hash, THUMBNAIL_SUFFIX)
}

pub fn preview_path(meta_folder: &str, hash: &str) -> (r: String)
    requires
        shardable(hash@),
    ensures
        r@ == artifact_path_of(meta_folder@, hash@, PREVIEW_SUFFIX@),
{
    artifact_path(meta_folder, hash, PREVIEW_SUFFIX)
}

/// The metadata of one content: tags read from the file, and properties that a
/// user set.
#[derive(Debug)]
pub struct MetaFile {
    pub hash: String,
    pub algo: String,
    pub size: u64,
    pub file_type: Option<String>,
    pub ext: Option<String>,
    pub extractor_version: i64,
    /// Tags, by `group:key`.
    pub tags: TextMap<String>,
    /// Properties that a user set.
    pub properties: TextMap<String>,
    pub updated_at: String,
}

/// What a [`MetaFile`] holds.
#[verifier::ext_equal]
pub struct MetaFileView {
    pub hash: Seq<char>,
    pub algo: Seq<char>,
    pub size: u64,
    pub file_type: Option<Seq<char>>,
    pub ext: Option<Seq<char>>,
    pub extractor_version: i64,
    pub tags: Map<Seq<char>, Seq<char>>,
    pub properties: Map<Seq<char>, Seq<char>>,
    pub updated_at: Seq<char>,
}

impl View for MetaFile {
    type V = MetaFileView;

    open spec fn view(&self) -> MetaFileView {
        MetaFileView {
            hash: self.hash@,
            algo: self.algo@,
            size: self.size,
            file_type: opt_view(self.file_type),
            ext: opt_view(self.ext),
            extractor_version: self.extractor_version,
            tags: self.tags@,
            properties: self.properties@,
            updated_at: self.updated_at@,
        }
    }
}

/// The metadata of content of which nothing is known but its hash.
pub open spec fn blank_meta(hash: Seq<char>, algo: Seq<char>, size: u64) -> MetaFileView {
    MetaFileView {
        hash,
        algo,
        size,
        file_type: None,
        ext: None,
        extractor_version: 0,
        tags: Map::empty(),
        properties: Map::empty(),
        updated_at: Seq::empty(),
    }
}

impl MetaFile {
    /// The metadata of content of which nothing is known but its hash.
    pub fn blank(hash: String, algo: String, size: u64) -> (r: MetaFile)
        ensures
            r@ == blank_meta(hash@, algo@, size),
    {
        let updated_at: String = String::new();
        assert(updated_at@ =~= Seq::<char>::empty());
        MetaFile {
            hash,
            algo,
            size,
            file_type: None,
            ext: None,
            extractor_version: 0,
            tags: TextMap::new(),
            properties: TextMap::new(),
            updated_at,
        }
    }
}

/// Artifacts of different contents have different paths. A hash is a plain name, and
/// so is a suffix.
pub proof fn law_artifacts_do_not_collide(
    folder: Seq<char>,
    a: Seq<char>,
    b: Seq<char>,
    suffix: Seq<char>,
)
    requires
        !a.contains('/'),
        !b.contains('/'),
        !suffix.contains('/'),
        artifact_path_of(folder, a, suffix) == artifact_path_of(folder, b, suffix),
    ensures
        a == b,
{
    reveal_strlit(".");
    reveal_strlit("/");
    let (ta, tb) = (a + "."@ + suffix, b + "."@ + suffix);
    let da = joined_path(joined_path(folder, first_shard(a)), second_shard(a));
    let db = joined_path(joined_path(folder, first_shard(b)), second_shard(b));
    lemma_plain(a, suffix);
    lemma_plain(b, suffix);
    lemma_same_tail(joined_path(da, ta), da, ta, db, tb);
    assert(ta.take(ta.len() - suffix.len() - 1) =~= a);
    assert(tb.take(tb.len() - suffix.len() - 1) =~= b);
}

proof fn lemma_plain(hash: Seq<char>, suffix: Seq<char>)
    requires
        !hash.contains('/'),
        !suffix.contains('/'),
    ensures
        !(hash + "."@ + suffix).contains('/'),
{
    reveal_strlit(".");
    let t = hash + "."@ + suffix;
    if t.contains('/') {
        let i = choose|i: int| 0 <= i < t.len() && t[i] == '/';
        if i < hash.len() {
            assert(hash[i] == '/');
        } else if i > hash.len() {
            assert(suffix[i - hash.len() - 1] == '/');
        }
    }
}

/// What follows the last slash of a path is the same whichever way the path is cut.
proof fn lemma_same_tail(p: Seq<char>, da: Seq<char>, ta: Seq<char>, db: Seq<char>, tb: Seq<char>)
    requires
        !ta.contains('/'),
        !tb.contains('/'),
        ta.len() > 0,
        tb.len() > 0,
        p == joined_path(da, ta),
        p == joined_path(db, tb),
    ensures
        ta == tb,
{
    reveal_strlit("/");
    assert(ta[0] != '/' && tb[0] != '/') by {
        if ta[0] == '/' {
            assert(ta.contains('/'));
        }
        if tb[0] == '/' {
            assert(tb.contains('/'));
        }
    }
    let (na, nb) = (p.len() - ta.len(), p.len() - tb.len());
    assert(p.skip(na) =~= ta);
    assert(p.skip(nb) =~= tb);
    assert(na == 0 || p[na - 1] == '/');
    assert(nb == 0 || p[nb - 1] == '/');
    if na < nb {
        assert(ta[nb - 1 - na] == '/');
    }
    if nb < na {
        assert(tb[na - 1 - nb] == '/');
    }
}

/// Where metadata lies: in the folder that is given, else in that of the environment,
/// else in `.hashit-meta` of the home directory, else in `.hashit-meta` here.
pub proof fn law_where_metadata_lies(
    given: Option<Seq<char>>,
    env: Option<Seq<char>>,
    home: Option<Seq<char>>,
)
    ensures
        given is Some ==> meta_folder_of(given, env, home) == given->0,
        given is None && env is Some ==> meta_folder_of(given, env, home) == env->0,
        given is None && env is None && home is Some ==> meta_folder_of(given, env, home)
            == joined_path(home->0, ".hashit-meta"@),
        given is None && env is None && home is None ==> meta_folder_of(given, env, home)
            == ".hashit-meta"@,
{
}

/// What is made of a content lies two directories down, named after the first two and
/// the next two characters of its hash, under the hash and what it is. A short hash has
/// the part that it has.
pub proof fn law_artifacts_lie_by_the_start_of_the_hash(
    folder: Seq<char>,
    hash: Seq<char>,
    suffix: Seq<char>,
)
    requires
        forall|i: int| 0 <= i < hash.len() ==> ((#[trigger] hash[i]) as int) < 0x80,
    ensures
        shardable(hash),
        hash.len() >= 4 ==> artifact_path_of(folder, hash, suffix) == joined_path(
            joined_path(joined_path(folder, hash.subrange(0, 2)), hash.subrange(2, 4)),
            hash + "."@ + suffix,
        ),
        2 <= hash.len() < 4 ==> artifact_path_of(folder, hash, suffix) == joined_path(
            joined_path(joined_path(folder, hash.subrange(0, 2)), Seq::empty()),
            hash + "."@ + suffix,
        ),
        hash.len() < 2 ==> artifact_path_of(folder, hash, suffix) == joined_path(
            joined_path(joined_path(folder, hash), Seq::empty()),
            hash + "."@ + suffix,
        ),
{
    law_ascii_texts_are_cut_by_characters(hash, 2);
    law_ascii_texts_are_cut_by_characters(hash, 4);
    if hash.len() >= 2 {
        assert(hash.take(2) =~= hash.subrange(0, 2));
    }
    if hash.len() >= 4 {
        assert(hash.take(4).skip(2) =~= hash.subrange(2, 4));
    }
}

/// The three files of a content lie beside each other and have their own endings.
pub proof fn law_files_of_a_content(
    folder: &str,
    hash: &str,
    meta: String,
    thumbnail: String,
    preview: String,
)
    requires
        shardable(hash@),
        call_ensures(meta_path, (folder, hash), meta),
        call_ensures(thumbnail_path, (folder, hash), thumbnail),
        call_ensures(preview_path, (folder, hash), preview),
    ensures
        meta@ == artifact_path_of(folder@, hash@, "meta.json"@),
        thumbnail@ == artifact_path_of(folder@, hash@, "thumbnail.jpg"@),
        preview@ == artifact_path_of(folder@, hash@, "preview.jpg"@),
{
}

/// New metadata says what content it is of, and nothing else.
pub proof fn law_new_metadata_is_blank(hash: Seq<char>, algo: Seq<char>, size: u64)
    ensures
        blank_meta(hash, algo, size).hash == hash,
        blank_meta(hash, algo, size).algo == algo,
        blank_meta(hash, algo, size).size == size,
        blank_meta(hash, algo, size).file_type is None,
        blank_meta(hash, algo, size).ext is None,
        blank_meta(hash, algo, size).extractor_version == 0,
        blank_meta(hash, algo, size).tags.dom() == Set::<Seq<char>>::empty(),
        blank_meta(hash, algo, size).properties.dom() == Set::<Seq<char>>::empty(),
        blank_meta(hash, algo, size).updated_at.len() == 0,
{
    assert(Map::<Seq<char>, Seq<char>>::empty().dom() =~= Set::<Seq<char>>::empty());
}

} // verus!
