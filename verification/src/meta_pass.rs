//! Making the metadata artifacts of contents, each once and only where missing.
use vstd::prelude::*;

use crate::extract::Extracted;
use crate::index_store::copy_opt;
use crate::meta::{blank_meta, opt_view, MetaFile, MetaFileView};
use crate::number::{decimal, usize_text};
use crate::store::{tag_views, MetaTag, TagView};
use crate::text::concat3;
use crate::textmap::{
    group_places, grouped, key_values, lemma_places, places_of, OrdMap, Places, TextMap,
};
use crate::walk::{walk_views, WalkEntry, WalkView};

verus! {

/// Which artifacts to make, and where they are.
#[derive(Clone, Debug)]
pub struct MetaOptions {
    pub folder: String,
    pub thumbnail: bool,
    pub preview: bool,
    pub tags: bool,
}

/// What a pass made.
#[derive(Clone, Copy, Debug, PartialEq, Eq, Structural)]
pub struct MetaStats {
    pub hashes: usize,
    pub thumbnails: usize,
    pub previews: usize,
    pub tags: usize,
}

impl MetaStats {
    /// The summary line.
    pub fn to_text(&self) -> (r: String)
        ensures
            r@ == decimal(self.hashes as nat) + " hashes, "@ + decimal(self.thumbnails as nat)
                + " thumbnails, "@ + decimal(self.previews as nat) + " previews, "@ + decimal(
                self.tags as nat,
            ) + " tag sets"@,
    {
        let mut out: String = usize_text(self.hashes);
        out.append(" hashes, ");
        out.append(usize_text(self.thumbnails).as_str());
        out.append(" thumbnails, ");
        out.append(usize_text(self.previews).as_str());
        out.append(" previews, ");
        out.append(usize_text(self.tags).as_str());
        out.append(" tag sets");
        out
    }
}

/// A copy of a content on disk.
#[derive(Clone, Debug)]
pub struct Rep {
    pub path: String,
    pub size: u64,
    pub algo: String,
}

/// What a copy holds.
#[verifier::ext_equal]
pub struct RepView {
    pub path: Seq<char>,
    pub size: u64,
    pub algo: Seq<char>,
}

impl View for Rep {
    type V = RepView;

    open spec fn view(&self) -> RepView {
        RepView { path: self.path@, size: self.size, algo: self.algo@ }
    }
}

/// The hashes of some entries.
pub open spec fn entry_hashes(entries: Seq<WalkView>) -> Seq<Seq<char>> {
    entries.map_values(|w: WalkView| w.entry.hash)
}

/// The copy of an entry.
pub open spec fn rep_of(w: WalkView) -> RepView {
    RepView { path: w.path, size: w.entry.size, algo: w.entry.algo }
}

/// The first copy of each content.
pub open spec fn first_copies(entries: Seq<WalkView>) -> Map<Seq<char>, RepView> {
    Map::new(
        |h: Seq<char>| entry_hashes(entries).contains(h),
        |h: Seq<char>| rep_of(entries[places_of(entry_hashes(entries), h)[0] as int]),
    )
}

/// The first copy of each content among the entries of all roots.
pub fn representatives(entries: &Vec<WalkEntry>) -> (r: TextMap<Rep>)
    ensures
        r@ == first_copies(walk_views(entries@)),
{
    let n_entries: usize = entries.len();
    let ghost ev = walk_views(entries@);
    let ghost hashes = entry_hashes(ev);
    let mut keys: Vec<String> = Vec::new();
    let mut i: usize = 0;
    while i < entries.len()
        invariant
            i <= entries@.len(),
            keys@.len() == i,
            forall|k: int| 0 <= k < i ==> (#[trigger] keys@[k])@ == entries@[k].entry.hash@,
        decreases entries@.len() - i,
    {
        keys.push(entries[i].entry.hash.clone());
        i += 1;
    }
    assert(key_values(keys@) =~= hashes);
    let groups: OrdMap<String, Places> = group_places(keys);
    let n: usize = groups.len();
    let ghost gk = groups.keys();
    let mut out: TextMap<Rep> = TextMap::new();
    let mut j: usize = 0;
    while j < n
        invariant
            n == gk.len(),
            j <= n,
            gk == groups.keys(),
            ev == walk_views(entries@),
            ev.len() == n_entries,
            hashes == entry_hashes(ev),
            groups@ == grouped(hashes),
            forall|h: Seq<char>| #[trigger]
                out@.dom().contains(h) ==> hashes.contains(h) && out@[h] == first_copies(ev)[h],
            forall|k: int| 0 <= k < j ==> out@.dom().contains(#[trigger] gk[k]),
        decreases n - j,
    {
        let hash: String = groups.key_at(j).clone();
        let places: &Places = groups.value_at(j);
        proof {
            lemma_places(hashes, hash@);
        }
        let p: usize = places.at(0);
        let e: &WalkEntry = &entries[p];
        assert(ev[p as int] == e@);
        let rep: Rep = Rep {
            path: e.path.clone(),
            size: e.entry.size,
            algo: e.entry.algo.clone(),
        };
        out.insert(hash, rep);
        j += 1;
    }
    assert(out@ =~= first_copies(ev)) by {
        assert forall|h: Seq<char>| hashes.contains(h) implies out@.dom().contains(h) by {
            assert(groups@.dom().contains(h));
            assert(gk.contains(h));
            let x = choose|x: int| 0 <= x < gk.len() && gk[x] == h;
            assert(out@.dom().contains(gk[x]));
        }
    }
    out
}

/// The key of a tag: `group:key`, or the key alone without a group.
pub open spec fn flat_key(group: Seq<char>, key: Seq<char>) -> Seq<char> {
    if group.len() == 0 {
        key
    } else {
        group + ":"@ + key
    }
}

/// The key of a tag.
pub fn flatten_key(group: &str, key: &str) -> (r: String)
    ensures
        r@ == flat_key(group@, key@),
{
    if group.is_empty() {
        key.to_owned()
    } else {
        concat3(group, ":", key)
    }
}

/// The tags by key, the later over the earlier.
pub open spec fn tag_map(tags: Seq<TagView>) -> Map<Seq<char>, Seq<char>>
    decreases tags.len(),
{
    if tags.len() == 0 {
        Map::empty()
    } else {
        let t = tags.last();
        tag_map(tags.drop_last()).insert(flat_key(t.group, t.key), t.value)
    }
}

fn collect_tags(tags: &Vec<MetaTag>) -> (r: TextMap<String>)
    ensures
        r@ == tag_map(tag_views(tags@)),
{
    let ghost tv = tag_views(tags@);
    let mut out: TextMap<String> = TextMap::new();
    let mut i: usize = 0;
    assert(tv.take(0) =~= Seq::<TagView>::empty());
    while i < tags.len()
        invariant
            i <= tags@.len(),
            tv == tag_views(tags@),
            out@ == tag_map(tv.take(i as int)),
        decreases tags@.len() - i,
    {
        let t: &MetaTag = &tags[i];
        proof {
            assert(tv.take(i + 1).drop_last() =~= tv.take(i as int));
            assert(tv.take(i + 1).last() == t@);
        }
        out.insert(flatten_key(t.group.as_str(), t.key.as_str()), t.value.clone());
        i += 1;
    }
    assert(tv.take(tv.len() as int) =~= tv);
    out
}

/// What to make of one content.
#[derive(Clone, Copy, Debug, PartialEq, Eq, Structural)]
pub struct Wanted {
    pub thumbnail: bool,
    pub preview: bool,
    pub tags: bool,
}

/// What is there of a content.
#[derive(Clone, Copy, Debug, PartialEq, Eq, Structural)]
pub struct Artifacts {
    pub thumbnail: bool,
    pub preview: bool,
    /// The version of the extraction that its metadata comes from, if it has any.
    pub extracted: Option<i64>,
}

/// What to make of a content: what is asked for and missing. Tags are missing where
/// there is no metadata, or where it was never extracted.
pub open spec fn wanted_of(opts: &MetaOptions, there: Artifacts) -> Wanted {
    Wanted {
        thumbnail: opts.thumbnail && !there.thumbnail,
        preview: opts.preview && !there.preview,
        tags: opts.tags && (there.extracted is None || there.extracted == Some(0i64)),
    }
}

/// Decides what to make of a content.
pub fn ensure(opts: &MetaOptions, there: Artifacts) -> (r: Wanted)
    ensures
        r == wanted_of(opts, there),
{
    let needs: bool = match there.extracted {
        Some(v) => v == 0,
        None => true,
    };
    Wanted {
        thumbnail: opts.thumbnail && !there.thumbnail,
        preview: opts.preview && !there.preview,
        tags: opts.tags && needs,
    }
}

/// The metadata of a content once its file was read: what was read, over what was
/// there. Properties that a user set stay.
pub open spec fn extracted_meta(
    before: MetaFileView,
    hash: Seq<char>,
    rep: RepView,
    ex: &Extracted,
) -> MetaFileView {
    MetaFileView {
        hash,
        algo: rep.algo,
        size: rep.size,
        file_type: opt_view(ex.file_type),
        ext: opt_view(ex.ext),
        extractor_version: ex.extractor_version,
        tags: tag_map(tag_views(ex.tags@)),
        properties: before.properties,
        updated_at: before.updated_at,
    }
}

/// The metadata that was there, or none.
pub open spec fn meta_or_blank(m: Option<MetaFile>) -> MetaFileView {
    match m {
        Some(x) => x@,
        None => blank_meta(Seq::empty(), Seq::empty(), 0),
    }
}

/// The metadata that was there, or none.
pub fn or_blank(m: Option<MetaFile>) -> (r: MetaFile)
    ensures
        r@ == meta_or_blank(m),
{
    match m {
        Some(x) => x,
        None => {
            let a: String = String::new();
            let b: String = String::new();
            assert(a@ =~= Seq::<char>::empty());
            assert(b@ =~= Seq::<char>::empty());
            MetaFile::blank(a, b, 0)
        },
    }
}

/// Puts what was read from a file over the metadata of its content.
pub fn with_extracted(existing: Option<MetaFile>, hash: &str, rep: &Rep, ex: &Extracted) -> (r:
    MetaFile)
    ensures
        r@ == extracted_meta(meta_or_blank(existing), hash@, rep@, ex),
{
    let base: MetaFile = or_blank(existing);
    let MetaFile { properties, updated_at, .. } = base;
    MetaFile {
        hash: hash.to_owned(),
        algo: rep.algo.clone(),
        size: rep.size,
        file_type: copy_opt(&ex.file_type),
        ext: copy_opt(&ex.ext),
        extractor_version: ex.extractor_version,
        tags: collect_tags(&ex.tags),
        properties,
        updated_at,
    }
}

/// How often each artifact was made.
pub open spec fn made(results: Seq<Wanted>) -> (nat, nat, nat)
    decreases results.len(),
{
    if results.len() == 0 {
        (0, 0, 0)
    } else {
        let before = made(results.drop_last());
        let r = results.last();
        (
            before.0 + if r.thumbnail {
                1nat
            } else {
                0
            },
            before.1 + if r.preview {
                1nat
            } else {
                0
            },
            before.2 + if r.tags {
                1nat
            } else {
                0
            },
        )
    }
}

/// The counts of a pass over some contents, each with what was made of it.
pub fn run(results: &Vec<Wanted>) -> (r: MetaStats)
    ensures
        r.hashes == results@.len(),
        r.thumbnails == made(results@).0,
        r.previews == made(results@).1,
        r.tags == made(results@).2,
{
    let n: usize = results.len();
    let mut s: MetaStats = MetaStats { hashes: n, thumbnails: 0, previews: 0, tags: 0 };
    let mut i: usize = 0;
    assert(results@.take(0) =~= Seq::<Wanted>::empty());
    while i < n
        invariant
            n == results@.len(),
            i <= n,
            s.hashes == n,
            s.thumbnails == made(results@.take(i as int)).0,
            s.previews == made(results@.take(i as int)).1,
            s.tags == made(results@.take(i as int)).2,
            s.thumbnails <= i,
            s.previews <= i,
            s.tags <= i,
        decreases n - i,
    {
        assert(results@.take(i + 1).drop_last() =~= results@.take(i as int));
        assert(results@.take(i + 1).last() == results@[i as int]);
        if results[i].thumbnail {
            s.thumbnails = s.thumbnails + 1;
        }
        if results[i].preview {
            s.previews = s.previews + 1;
        }
        if results[i].tags {
            s.tags = s.tags + 1;
        }
        i += 1;
    }
    assert(results@.take(n as int) =~= results@);
    s
}

/// Making artifacts again makes nothing: once all that was asked for is there, and
/// the tags come from an extraction, there is nothing left to do.
pub proof fn law_second_pass_makes_nothing(opts: &MetaOptions, there: Artifacts)
    requires
        opts.thumbnail ==> there.thumbnail,
        opts.preview ==> there.preview,
        opts.tags ==> there.extracted is Some && there.extracted != Some(0i64),
    ensures
        wanted_of(opts, there) == (Wanted { thumbnail: false, preview: false, tags: false }),
{
}

/// Reading a file again keeps the properties that a user set.
pub proof fn law_properties_survive_extraction(
    before: MetaFileView,
    hash: Seq<char>,
    rep: RepView,
    ex: &Extracted,
)
    ensures
        extracted_meta(before, hash, rep, ex).properties == before.properties,
{
}

/// A content is read from the first of its copies that the walk met.
pub proof fn law_first_copy_is_read(entries: Seq<WalkView>, i: int)
    requires
        entries.len() <= usize::MAX,
        0 <= i < entries.len(),
        forall|j: int| 0 <= j < i ==> (#[trigger] entries[j]).entry.hash != entries[i].entry.hash,
    ensures
        first_copies(entries).dom().contains(entries[i].entry.hash),
        first_copies(entries)[entries[i].entry.hash].path == entries[i].path,
        first_copies(entries)[entries[i].entry.hash].size == entries[i].entry.size,
        first_copies(entries)[entries[i].entry.hash].algo == entries[i].entry.algo,
{
    let all = entry_hashes(entries);
    let h = entries[i].entry.hash;
    let at = places_of(all, h);
    lemma_places(all, h);
    assert(all[i] == h);
    assert(at.contains(i as usize));
    let x = choose|x: int| 0 <= x < at.len() && at[x] == i as usize;
    let p = at[0] as int;
    assert(all[p] == h);
    assert(entries[p].entry.hash == h);
    if x > 0 {
        assert(at[0] < at[x]);
    }
}

/// What is made of a content is what is asked for and is not there: nothing that is not
/// asked for, nothing that is there, and everything else.
pub proof fn law_only_what_is_missing_is_made(opts: &MetaOptions, there: Artifacts)
    ensures
        wanted_of(opts, there).thumbnail <==> opts.thumbnail && !there.thumbnail,
        wanted_of(opts, there).preview <==> opts.preview && !there.preview,
        wanted_of(opts, there).tags ==> opts.tags,
        opts.tags && there.extracted is None ==> wanted_of(opts, there).tags,
        opts.tags && there.extracted is Some && there.extracted->0 == 0 ==> wanted_of(
            opts,
            there,
        ).tags,
        there.extracted is Some && there.extracted->0 != 0 ==> !wanted_of(opts, there).tags,
{
}

/// A tag is kept under its group and its key with a colon between them, under its key
/// alone without a group; of tags with one name the last is kept.
pub proof fn law_tags_are_kept_by_name(tags: Seq<TagView>, i: int)
    requires
        0 <= i < tags.len(),
        forall|j: int|
            i < j < tags.len() ==> flat_key((#[trigger] tags[j]).group, tags[j].key) != flat_key(
                tags[i].group,
                tags[i].key,
            ),
    ensures
        tags[i].group.len() == 0 ==> tag_map(tags).dom().contains(tags[i].key) && tag_map(
            tags,
        )[tags[i].key] == tags[i].value,
        tags[i].group.len() > 0 ==> tag_map(tags).dom().contains(
            tags[i].group + ":"@ + tags[i].key,
        ) && tag_map(tags)[tags[i].group + ":"@ + tags[i].key] == tags[i].value,
    decreases tags.len(),
{
    let init = tags.drop_last();
    if i < init.len() {
        assert forall|j: int| i < j < init.len() implies flat_key(
            (#[trigger] init[j]).group,
            init[j].key,
        ) != flat_key(init[i].group, init[i].key) by {
            assert(init[j] == tags[j]);
        }
        law_tags_are_kept_by_name(init, i);
        let last = tags[tags.len() - 1];
        assert(flat_key(last.group, last.key) != flat_key(tags[i].group, tags[i].key));
    }
}

/// Extracted metadata is of the content and its copy, with what was read of it; what a
/// user set and when stay.
pub proof fn law_extracted_metadata(
    existing: Option<MetaFile>,
    hash: &str,
    rep: &Rep,
    ex: &Extracted,
    r: MetaFile,
)
    requires
        call_ensures(with_extracted, (existing, hash, rep, ex), r),
    ensures
        r@.hash == hash@,
        r@.algo == rep@.algo,
        r@.size == rep@.size,
        r@.file_type == opt_view(ex.file_type),
        r@.ext == opt_view(ex.ext),
        r@.extractor_version == ex.extractor_version,
        r@.tags == tag_map(tag_views(ex.tags@)),
        existing is Some ==> r@.properties == existing->0@.properties && r@.updated_at
            == existing->0@.updated_at,
        existing is None ==> r@.properties == Map::<Seq<char>, Seq<char>>::empty(),
{
}

/// What passes make adds up, and each content adds what was made of it.
pub proof fn law_what_is_made_adds_up(a: Seq<Wanted>, b: Seq<Wanted>, w: Wanted)
    ensures
        made(a + b).0 == made(a).0 + made(b).0,
        made(a + b).1 == made(a).1 + made(b).1,
        made(a + b).2 == made(a).2 + made(b).2,
        made(seq![w]).0 == 1 <==> w.thumbnail,
        made(seq![w]).1 == 1 <==> w.preview,
        made(seq![w]).2 == 1 <==> w.tags,
        made(seq![w]).0 <= 1 && made(seq![w]).1 <= 1 && made(seq![w]).2 <= 1,
    decreases b.len(),
{
    assert(seq![w].drop_last() =~= Seq::<Wanted>::empty());
    reveal_with_fuel(made, 2);
    if b.len() == 0 {
        assert(a + b =~= a);
    } else {
        law_what_is_made_adds_up(a, b.drop_last(), w);
        assert((a + b).drop_last() =~= a + b.drop_last());
        assert((a + b).last() == b.last());
    }
}

/// Metadata that was there is taken as it is; where none was, nothing is known of the
/// content.
pub proof fn law_missing_metadata_is_blank(m: Option<MetaFile>, r: MetaFile)
    requires
        call_ensures(or_blank, (m,), r),
    ensures
        m is Some ==> r@ == m->0@,
        m is None ==> r@.hash.len() == 0 && r@.algo.len() == 0 && r@.size == 0 && r@.file_type
            is None && r@.ext is None && r@.extractor_version == 0 && r@.updated_at.len() == 0,
        m is None ==> forall|k: Seq<char>|
            !(#[trigger] r@.tags.dom().contains(k)) && !r@.properties.dom().contains(k),
{
}

} // verus!
