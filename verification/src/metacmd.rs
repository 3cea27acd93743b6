//! Reading and editing the metadata of files by their content.
use vstd::prelude::*;

use crate::manifest::FileEntry;
use crate::meta::{
    artifact_path_of, opt_view, preview_path, shardable, thumbnail_path, MetaFile, MetaFileView,
    PREVIEW_SUFFIX, THUMBNAIL_SUFFIX,
};
use crate::meta_pass::{meta_or_blank, or_blank};
use crate::text::{concat2, lemma_index_or_len, split_first, split_once, views};
use crate::textmap::{TextMap, TextSet};

verus! {

/// What is known of one path; `error` says why nothing is.
#[derive(Debug)]
pub struct MetaView {
    pub path: String,
    pub error: Option<String>,
    pub hash: Option<String>,
    pub algo: Option<String>,
    pub size: Option<u64>,
    pub file_type: Option<String>,
    pub ext: Option<String>,
    pub tags: TextMap<String>,
    pub properties: TextMap<String>,
    pub thumbnail: Option<String>,
    pub preview: Option<String>,
}

/// Why a path has no metadata: no manifest lists it.
pub open spec fn no_entry_text(path: Seq<char>) -> Seq<char> {
    path + ": no .hashit entry found; run `hashit scan` on its directory first"@
}

/// The hash, algorithm and size of a file, from the record of its directory.
pub fn entry_for(path: &str, entry: &Option<FileEntry>) -> (r: Result<(String, String, u64), String>)
    ensures
        match *entry {
            Some(e) => r matches Ok(t) && t.0@ == e.hash@ && t.1@ == e.algo@ && t.2 == e.size,
            None => r matches Err(m) && m@ == no_entry_text(path@),
        },
{
    match entry {
        Some(e) => Ok((e.hash.clone(), e.algo.clone(), e.size)),
        None => Err(
            concat2(path, ": no .hashit entry found; run `hashit scan` on its directory first"),
        ),
    }
}

/// The view of a path that no manifest lists.
pub fn missing_view(path: &str) -> (r: MetaView)
    ensures
        r.path@ == path@,
        r.error matches Some(m) && m@ == no_entry_text(path@),
        r.hash is None,
        r.algo is None,
        r.size is None,
        r.file_type is None,
        r.ext is None,
        r.tags@ == Map::<Seq<char>, Seq<char>>::empty(),
        r.properties@ == Map::<Seq<char>, Seq<char>>::empty(),
        r.thumbnail is None,
        r.preview is None,
{
    MetaView {
        path: path.to_owned(),
        error: Some(
            concat2(path, ": no .hashit entry found; run `hashit scan` on its directory first"),
        ),
        hash: None,
        algo: None,
        size: None,
        file_type: None,
        ext: None,
        tags: TextMap::new(),
        properties: TextMap::new(),
        thumbnail: None,
        preview: None,
    }
}

/// The view of a path that a manifest lists, with the metadata of its content and
/// the paths of the artifacts that are there.
pub fn gather(
    path: &str,
    id: (String, String, u64),
    meta: Option<MetaFile>,
    meta_folder: &str,
    thumb_there: bool,
    preview_there: bool,
) -> (r: MetaView)
    requires
        shardable(id.0@),
    ensures
        r.path@ == path@,
        r.error is None,
        r.hash == Some(id.0),
        r.algo == Some(id.1),
        r.size == Some(id.2),
        ({
            let m = meta_or_blank(meta);
            &&& opt_view(r.file_type) == m.file_type
            &&& opt_view(r.ext) == m.ext
            &&& r.tags@ == m.tags
            &&& r.properties@ == m.properties
        }),
        opt_view(r.thumbnail) == (if thumb_there {
            Some(artifact_path_of(meta_folder@, id.0@, THUMBNAIL_SUFFIX@))
        } else {
            None
        }),
        opt_view(r.preview) == (if preview_there {
            Some(artifact_path_of(meta_folder@, id.0@, PREVIEW_SUFFIX@))
        } else {
            None
        }),
{
    let m: MetaFile = or_blank(meta);
    let thumbnail: Option<String> = if thumb_there {
        Some(thumbnail_path(meta_folder, id.0.as_str()))
    } else {
        None
    };
    let preview: Option<String> = if preview_there {
        Some(preview_path(meta_folder, id.0.as_str()))
    } else {
        None
    };
    let MetaFile { file_type, ext, tags, properties, .. } = m;
    let (hash, algo, size): (String, String, u64) = id;
    MetaView {
        path: path.to_owned(),
        error: None,
        hash: Some(hash),
        algo: Some(algo),
        size: Some(size),
        file_type,
        ext,
        tags,
        properties,
        thumbnail,
        preview,
    }
}

/// A text is `KEY=VALUE` with a key.
pub open spec fn set_of(s: Seq<char>) -> Option<(Seq<char>, Seq<char>)> {
    match split_first(s, '=') {
        Some((k, v)) if k.len() > 0 => Some((k, v)),
        _ => None,
    }
}

/// The first of some texts that is no `KEY=VALUE`.
pub open spec fn first_malformed(sets: Seq<Seq<char>>) -> Option<Seq<char>>
    decreases sets.len(),
{
    if sets.len() == 0 {
        None
    } else if set_of(sets[0]) is None {
        Some(sets[0])
    } else {
        first_malformed(sets.skip(1))
    }
}

/// The views of some pairs.
pub open spec fn pair_views(v: Seq<(String, String)>) -> Seq<(Seq<char>, Seq<char>)> {
    v.map_values(|p: (String, String)| (p.0@, p.1@))
}

/// Parses `KEY=VALUE` texts: all of them, or the first that is none.
pub fn parse_sets(set: &Vec<String>) -> (r: Result<Vec<(String, String)>, String>)
    ensures
        match first_malformed(views(set@)) {
            Some(s) => r matches Err(m) && m@ == "invalid --set value (expected KEY=VALUE): "@ + s,
            None => r matches Ok(v) && pair_views(v@) == views(set@).map_values(
                |s: Seq<char>| set_of(s)->0,
            ),
        },
{
    let ghost sv = views(set@);
    let mut out: Vec<(String, String)> = Vec::new();
    let mut i: usize = 0;
    assert(sv.skip(0) =~= sv);
    while i < set.len()
        invariant
            i <= set@.len(),
            sv == views(set@),
            first_malformed(sv) == first_malformed(sv.skip(i as int)),
            out@.len() == i,
            forall|k: int|
                0 <= k < i ==> set_of(sv[k]) == Some(
                    ((#[trigger] out@[k]).0@, out@[k].1@),
                ),
        decreases set@.len() - i,
    {
        let kv: &String = &set[i];
        proof {
            assert(sv[i as int] == kv@);
            assert(sv.skip(i as int)[0] == kv@);
            assert(sv.skip(i as int).skip(1) =~= sv.skip(i + 1));
        }
        match split_once(kv.as_str(), '=') {
            Some((k, v)) => {
                if k.as_str().is_empty() {
                    return Err(
                        concat2("invalid --set value (expected KEY=VALUE): ", kv.as_str()),
                    );
                }
                out.push((k, v));
            },
            None => {
                return Err(concat2("invalid --set value (expected KEY=VALUE): ", kv.as_str()));
            },
        }
        i += 1;
    }
    assert(pair_views(out@) =~= sv.map_values(|s: Seq<char>| set_of(s)->0));
    Ok(out)
}

/// Properties with others set, the later over the earlier.
pub open spec fn with_sets(
    props: Map<Seq<char>, Seq<char>>,
    sets: Seq<(Seq<char>, Seq<char>)>,
) -> Map<Seq<char>, Seq<char>>
    decreases sets.len(),
{
    if sets.len() == 0 {
        props
    } else {
        with_sets(props, sets.drop_last()).insert(sets.last().0, sets.last().1)
    }
}

/// Properties without some keys.
pub open spec fn without_keys(
    props: Map<Seq<char>, Seq<char>>,
    keys: Seq<Seq<char>>,
) -> Map<Seq<char>, Seq<char>>
    decreases keys.len(),
{
    if keys.len() == 0 {
        props
    } else {
        without_keys(props, keys.drop_last()).remove(keys.last())
    }
}

/// The metadata of a content after an edit: properties set, then removed; what was
/// unknown of its algorithm and size is filled in.
pub open spec fn edited(
    before: MetaFileView,
    hash: Seq<char>,
    algo: Seq<char>,
    size: u64,
    sets: Seq<(Seq<char>, Seq<char>)>,
    removes: Seq<Seq<char>>,
) -> MetaFileView {
    MetaFileView {
        hash,
        algo: if before.algo.len() == 0 {
            algo
        } else {
            before.algo
        },
        size: if before.size == 0 {
            size
        } else {
            before.size
        },
        properties: without_keys(with_sets(before.properties, sets), removes),
        ..before
    }
}

/// Edits the properties of a content.
pub fn apply_put(
    existing: Option<MetaFile>,
    id: (String, String, u64),
    sets: &Vec<(String, String)>,
    removes: &Vec<String>,
) -> (r: MetaFile)
    ensures
        r@ == edited(
            meta_or_blank(existing),
            id.0@,
            id.1@,
            id.2,
            pair_views(sets@),
            views(removes@),
        ),
{
    let base: MetaFile = or_blank(existing);
    let ghost bv = base@;
    let (hash, algo, size): (String, String, u64) = id;
    let MetaFile {
        algo: old_algo,
        size: old_size,
        file_type,
        ext,
        extractor_version,
        tags,
        properties,
        updated_at,
        ..
    } = base;
    let mut props: TextMap<String> = properties;
    let ghost sv = pair_views(sets@);
    let ghost rv = views(removes@);
    let mut i: usize = 0;
    assert(sv.take(0) =~= Seq::<(Seq<char>, Seq<char>)>::empty());
    while i < sets.len()
        invariant
            i <= sets@.len(),
            sv == pair_views(sets@),
            props@ == with_sets(bv.properties, sv.take(i as int)),
        decreases sets@.len() - i,
    {
        proof {
            assert(sv.take(i + 1).drop_last() =~= sv.take(i as int));
            assert(sv.take(i + 1).last() == (sets@[i as int].0@, sets@[i as int].1@));
        }
        props.insert(sets[i].0.clone(), sets[i].1.clone());
        i += 1;
    }
    assert(sv.take(sv.len() as int) =~= sv);
    let ghost set_props = props@;
    let mut j: usize = 0;
    assert(rv.take(0) =~= Seq::<Seq<char>>::empty());
    while j < removes.len()
        invariant
            j <= removes@.len(),
            rv == views(removes@),
            props@ == without_keys(set_props, rv.take(j as int)),
        decreases removes@.len() - j,
    {
        proof {
            assert(rv.take(j + 1).drop_last() =~= rv.take(j as int));
            assert(rv.take(j + 1).last() == removes@[j as int]@);
        }
        let _ = props.remove(removes[j].as_str());
        j += 1;
    }
    assert(rv.take(rv.len() as int) =~= rv);
    let new_algo: String = if old_algo.as_str().is_empty() {
        algo
    } else {
        old_algo
    };
    let new_size: u64 = if old_size == 0 {
        size
    } else {
        old_size
    };
    MetaFile {
        hash,
        algo: new_algo,
        size: new_size,
        file_type,
        ext,
        extractor_version,
        tags,
        properties: props,
        updated_at,
    }
}

/// Whether a content is still to be edited: each once, though several paths have it.
pub fn first_time(done: &mut TextSet, hash: &str) -> (r: bool)
    ensures
        r == !old(done)@.contains(hash@),
        final(done)@ == old(done)@.insert(hash@),
{
    done.insert(hash.to_owned())
}

/// The hash, algorithm and size that a record gives of a file.
pub open spec fn id_of(e: FileEntry) -> (Seq<char>, Seq<char>, u64) {
    (e.hash@, e.algo@, e.size)
}

/// How many of the first files have a record, up to one that has none.
pub open spec fn listed_first(entries: Seq<Option<FileEntry>>) -> int
    decreases entries.len(),
{
    if entries.len() == 0 || entries[0] is None {
        0
    } else {
        1 + listed_first(entries.skip(1))
    }
}

/// How many of the first files have a record, up to one that has none.
pub fn count_listed(entries: &Vec<Option<FileEntry>>) -> (r: usize)
    ensures
        r == listed_first(entries@),
        r <= entries@.len(),
{
    let mut i: usize = 0;
    assert(entries@.skip(0) =~= entries@);
    while i < entries.len() && entries[i].is_some()
        invariant
            i <= entries@.len(),
            i + listed_first(entries@.skip(i as int)) == listed_first(entries@),
        decreases entries@.len() - i,
    {
        assert(entries@.skip(i as int).skip(1) =~= entries@.skip(i + 1));
        i += 1;
    }
    i
}

/// The content of the file at `i` is that of no file before it.
pub open spec fn is_new(entries: Seq<Option<FileEntry>>, i: int) -> bool {
    forall|k: int| 0 <= k < i ==> (#[trigger] entries[k])->0.hash@ != entries[i]->0.hash@
}

/// The places of the files whose content is that of no file before them, in order.
pub open spec fn first_places(entries: Seq<Option<FileEntry>>, n: int) -> Seq<int>
    decreases n,
{
    if n <= 0 {
        Seq::empty()
    } else if is_new(entries, n - 1) {
        first_places(entries, n - 1).push(n - 1)
    } else {
        first_places(entries, n - 1)
    }
}

/// The edits of some files: one for each content, with the first path that has it.
pub open spec fn puts_of(paths: Seq<Seq<char>>, entries: Seq<Option<FileEntry>>) -> Seq<
    (Seq<char>, (Seq<char>, Seq<char>, u64)),
> {
    first_places(entries, entries.len() as int).map_values(
        |i: int| (paths[i], id_of(entries[i]->0)),
    )
}

/// The views of some edits.
pub open spec fn put_views(v: Seq<(String, (String, String, u64))>) -> Seq<
    (Seq<char>, (Seq<char>, Seq<char>, u64)),
> {
    v.map_values(|p: (String, (String, String, u64))| (p.0@, (p.1.0@, p.1.1@, p.1.2)))
}

/// Plans the edit of some paths with the records of their directories: each content
/// once, in the order in which it comes up, with the first path that has it. A path
/// without a record makes the whole an error.
pub fn plan_puts(paths: &Vec<String>, entries: &Vec<Option<FileEntry>>) -> (r: Result<
    Vec<(String, (String, String, u64))>,
    String,
>)
    requires
        paths@.len() == entries@.len(),
    ensures
        ({
            let n = listed_first(entries@);
            if n < entries@.len() {
                r matches Err(m) && m@ == no_entry_text(paths@[n]@)
            } else {
                r matches Ok(v) && put_views(v@) == puts_of(views(paths@), entries@)
            }
        }),
{
    let ghost pv = views(paths@);
    let mut done: TextSet = TextSet::new();
    let mut out: Vec<(String, (String, String, u64))> = Vec::new();
    let mut i: usize = 0;
    assert(entries@.skip(0) =~= entries@);
    assert(put_views(out@) =~= first_places(entries@, 0).map_values(
        |k: int| (pv[k], id_of(entries@[k]->0)),
    ));
    while i < entries.len()
        invariant
            paths@.len() == entries@.len(),
            pv == views(paths@),
            i <= entries@.len(),
            i + listed_first(entries@.skip(i as int)) == listed_first(entries@),
            forall|h: Seq<char>| #[trigger]
                done@.contains(h) <==> exists|k: int|
                    0 <= k < i && (#[trigger] entries@[k])->0.hash@ == h,
            put_views(out@) == first_places(entries@, i as int).map_values(
                |k: int| (pv[k], id_of(entries@[k]->0)),
            ),
        decreases entries@.len() - i,
    {
        let ghost rest = entries@.skip(i as int);
        assert(rest[0] == entries@[i as int]);
        assert(rest.skip(1) =~= entries@.skip(i + 1));
        let path: &String = &paths[i];
        assert(pv[i as int] == path@);
        let id: (String, String, u64) = match entry_for(path.as_str(), &entries[i]) {
            Ok(id) => id,
            Err(m) => {
                return Err(m);
            },
        };
        let ghost before = done@;
        let ghost f = |k: int| (pv[k], id_of(entries@[k]->0));
        let fresh: bool = first_time(&mut done, id.0.as_str());
        proof {
            assert(fresh == is_new(entries@, i as int)) by {
                assert(fresh == !before.contains(entries@[i as int]->0.hash@));
            }
            assert forall|h: Seq<char>| #[trigger] done@.contains(h) <==> exists|k: int|
                0 <= k < i + 1 && (#[trigger] entries@[k])->0.hash@ == h by {
                if done@.contains(h) {
                    if before.contains(h) {
                        let k = choose|k: int|
                            0 <= k < i && (#[trigger] entries@[k])->0.hash@ == h;
                        assert(0 <= k < i + 1 && entries@[k]->0.hash@ == h);
                    } else {
                        assert(entries@[i as int]->0.hash@ == h);
                    }
                }
                if exists|k: int| 0 <= k < i + 1 && (#[trigger] entries@[k])->0.hash@ == h {
                    let k = choose|k: int|
                        0 <= k < i + 1 && (#[trigger] entries@[k])->0.hash@ == h;
                    if k < i {
                        assert(before.contains(h));
                    }
                }
            }
        }
        if fresh {
            let ghost old_out = out@;
            let edit: (String, (String, String, u64)) = (path.clone(), id);
            out.push(edit);
            proof {
                assert(put_views(out@) =~= put_views(old_out).push(f(i as int)));
                assert(first_places(entries@, i + 1).map_values(f) =~= first_places(
                    entries@,
                    i as int,
                ).map_values(f).push(f(i as int)));
            }
        }
        i += 1;
    }
    Ok(out)
}

proof fn lemma_first_places(entries: Seq<Option<FileEntry>>, n: int)
    requires
        0 <= n,
    ensures
        forall|i: int|
            #![trigger first_places(entries, n).contains(i)]
            first_places(entries, n).contains(i) <==> 0 <= i < n && is_new(entries, i),
        forall|j: int, k: int|
            0 <= j < k < first_places(entries, n).len() ==> #[trigger] first_places(entries, n)[j]
                < #[trigger] first_places(entries, n)[k],
    decreases n,
{
    if n > 0 {
        lemma_first_places(entries, n - 1);
        let before = first_places(entries, n - 1);
        let all = first_places(entries, n);
        if is_new(entries, n - 1) {
            assert forall|i: int| #[trigger] all.contains(i) <==> 0 <= i < n && is_new(
                entries,
                i,
            ) by {
                if all.contains(i) && i != n - 1 {
                    let j = choose|j: int| 0 <= j < all.len() && all[j] == i;
                    assert(before[j] == i);
                    assert(before.contains(i));
                }
                if 0 <= i < n && is_new(entries, i) {
                    if i == n - 1 {
                        assert(all[all.len() - 1] == i);
                    } else {
                        assert(before.contains(i));
                        let j = choose|j: int| 0 <= j < before.len() && before[j] == i;
                        assert(all[j] == i);
                    }
                }
            }
            assert forall|j: int, k: int| 0 <= j < k < all.len() implies #[trigger] all[j]
                < #[trigger] all[k] by {
                if k == all.len() - 1 {
                    assert(before.contains(before[j]));
                }
            }
        } else {
            assert forall|i: int| #[trigger] all.contains(i) <==> 0 <= i < n && is_new(
                entries,
                i,
            ) by {
                assert(before.contains(i) <==> 0 <= i < n - 1 && is_new(entries, i));
            }
        }
    }
}

/// An edit of several paths touches each of their contents exactly once, in the order
/// in which the contents come up, each with the first path that has it.
pub proof fn law_each_content_is_edited_once(
    paths: Seq<Seq<char>>,
    entries: Seq<Option<FileEntry>>,
)
    requires
        paths.len() == entries.len(),
        forall|i: int| 0 <= i < entries.len() ==> (#[trigger] entries[i]) is Some,
    ensures
        forall|j: int|
            0 <= j < puts_of(paths, entries).len() ==> exists|i: int|
                0 <= i < entries.len() && #[trigger] is_new(entries, i) && (
                #[trigger] puts_of(paths, entries)[j]) == (paths[i], id_of(entries[i]->0)),
        forall|j: int, k: int|
            0 <= j < k < puts_of(paths, entries).len() ==> (
            #[trigger] puts_of(paths, entries)[j]).1.0 != (#[trigger] puts_of(
                paths,
                entries,
            )[k]).1.0,
        forall|i: int|
            0 <= i < entries.len() ==> exists|j: int|
                0 <= j < puts_of(paths, entries).len() && (#[trigger] puts_of(
                    paths,
                    entries,
                )[j]).1.0 == (#[trigger] entries[i])->0.hash@,
        forall|j: int, k: int|
            0 <= j < k < first_places(entries, entries.len() as int).len() ==> (
            #[trigger] first_places(entries, entries.len() as int)[j]) < #[trigger] first_places(
                entries,
                entries.len() as int,
            )[k],
{
    let n = entries.len() as int;
    let places = first_places(entries, n);
    let puts = puts_of(paths, entries);
    lemma_first_places(entries, n);
    assert forall|j: int| 0 <= j < puts.len() implies exists|i: int|
        0 <= i < entries.len() && #[trigger] is_new(entries, i) && (#[trigger] puts[j]) == (
            paths[i],
            id_of(entries[i]->0),
        ) by {
        assert(places.contains(places[j]));
        assert(is_new(entries, places[j]));
    }
    assert forall|j: int, k: int| 0 <= j < k < puts.len() implies (#[trigger] puts[j]).1.0 != (
    #[trigger] puts[k]).1.0 by {
        assert(places.contains(places[j]) && places.contains(places[k]));
        assert(places[j] < places[k]);
        assert(entries[places[j]]->0.hash@ != entries[places[k]]->0.hash@);
    }
    assert forall|i: int| 0 <= i < entries.len() implies exists|j: int|
        0 <= j < puts.len() && (#[trigger] puts[j]).1.0 == (#[trigger] entries[i])->0.hash@ by {
        let f = lemma_first_with_hash(entries, i);
        assert(places.contains(f));
        let j = choose|j: int| 0 <= j < places.len() && places[j] == f;
        assert(puts[j].1.0 == entries[i]->0.hash@);
    }
}

proof fn lemma_first_with_hash(entries: Seq<Option<FileEntry>>, i: int) -> (f: int)
    requires
        0 <= i < entries.len(),
    ensures
        0 <= f <= i,
        is_new(entries, f),
        entries[f]->0.hash@ == entries[i]->0.hash@,
    decreases i,
{
    if is_new(entries, i) {
        i
    } else {
        let k = choose|k: int|
            0 <= k < i && (#[trigger] entries[k])->0.hash@ == entries[i]->0.hash@;
        lemma_first_with_hash(entries, k)
    }
}

/// A property that was set reads back, where it was not removed and not set again.
pub proof fn law_set_property_reads_back(
    before: MetaFileView,
    hash: Seq<char>,
    algo: Seq<char>,
    size: u64,
    sets: Seq<(Seq<char>, Seq<char>)>,
    removes: Seq<Seq<char>>,
    i: int,
)
    requires
        0 <= i < sets.len(),
        forall|j: int| i < j < sets.len() ==> (#[trigger] sets[j]).0 != sets[i].0,
        !removes.contains(sets[i].0),
    ensures
        ({
            let after = edited(before, hash, algo, size, sets, removes);
            after.properties.dom().contains(sets[i].0) && after.properties[sets[i].0] == sets[i].1
        }),
{
    lemma_set_stays(before.properties, sets, i);
    lemma_not_removed(with_sets(before.properties, sets), removes, sets[i].0);
}

/// A property that was removed is gone.
pub proof fn law_removed_property_is_gone(
    before: MetaFileView,
    hash: Seq<char>,
    algo: Seq<char>,
    size: u64,
    sets: Seq<(Seq<char>, Seq<char>)>,
    removes: Seq<Seq<char>>,
    key: Seq<char>,
)
    requires
        removes.contains(key),
    ensures
        !edited(before, hash, algo, size, sets, removes).properties.dom().contains(key),
{
    lemma_removed(with_sets(before.properties, sets), removes, key);
}

/// An edit leaves the tags and the type of a content as they were.
pub proof fn law_edit_keeps_tags(
    before: MetaFileView,
    hash: Seq<char>,
    algo: Seq<char>,
    size: u64,
    sets: Seq<(Seq<char>, Seq<char>)>,
    removes: Seq<Seq<char>>,
)
    ensures
        ({
            let after = edited(before, hash, algo, size, sets, removes);
            after.tags == before.tags && after.file_type == before.file_type && after.ext
                == before.ext && after.extractor_version == before.extractor_version
        }),
{
}

proof fn lemma_set_stays(
    props: Map<Seq<char>, Seq<char>>,
    sets: Seq<(Seq<char>, Seq<char>)>,
    i: int,
)
    requires
        0 <= i < sets.len(),
        forall|j: int| i < j < sets.len() ==> (#[trigger] sets[j]).0 != sets[i].0,
    ensures
        with_sets(props, sets).dom().contains(sets[i].0),
        with_sets(props, sets)[sets[i].0] == sets[i].1,
    decreases sets.len(),
{
    if i < sets.len() - 1 {
        let init = sets.drop_last();
        assert forall|j: int| i < j < init.len() implies (#[trigger] init[j]).0 != init[i].0 by {
            assert(sets[j].0 != sets[i].0);
        }
        lemma_set_stays(props, init, i);
        assert(sets[sets.len() - 1].0 != sets[i].0);
    }
}

proof fn lemma_not_removed(
    props: Map<Seq<char>, Seq<char>>,
    keys: Seq<Seq<char>>,
    key: Seq<char>,
)
    requires
        !keys.contains(key),
    ensures
        without_keys(props, keys).dom().contains(key) == props.dom().contains(key),
        props.dom().contains(key) ==> without_keys(props, keys)[key] == props[key],
    decreases keys.len(),
{
    if keys.len() > 0 {
        let init = keys.drop_last();
        assert(keys[keys.len() - 1] != key);
        assert(!init.contains(key)) by {
            if init.contains(key) {
                let x = choose|x: int| 0 <= x < init.len() && init[x] == key;
                assert(keys[x] == key);
            }
        }
        lemma_not_removed(props, init, key);
    }
}

proof fn lemma_removed(props: Map<Seq<char>, Seq<char>>, keys: Seq<Seq<char>>, key: Seq<char>)
    requires
        keys.contains(key),
    ensures
        !without_keys(props, keys).dom().contains(key),
    decreases keys.len(),
{
    let init = keys.drop_last();
    if keys.last() != key {
        let x = choose|x: int| 0 <= x < keys.len() && keys[x] == key;
        assert(init[x] == key);
        lemma_removed(props, init, key);
    }
}

/// What sets a property is a key, an equals sign and a value, of which the key is not
/// empty; the value may be anything.
pub proof fn law_sets_are_keys_and_values(key: Seq<char>, value: Seq<char>)
    requires
        !key.contains('='),
    ensures
        key.len() > 0 ==> set_of(key + seq!['='] + value) == Some((key, value)),
        key.len() == 0 ==> set_of(key + seq!['='] + value) is None,
        set_of(key) is None,
{
    let s = key + seq!['='] + value;
    let n = key.len() as int;
    assert forall|j: int| 0 <= j < n implies key[j] != '=' by {
        if key[j] == '=' {
            assert(key.contains('='));
        }
    }
    assert forall|j: int| 0 <= j < n implies s[j] != '=' by {
        assert(s[j] == key[j]);
    }
    assert(s[n] == '=');
    lemma_index_or_len(s, '=', n);
    lemma_index_or_len(key, '=', n);
    assert(s.take(n) =~= key);
    assert(s.skip(n + 1) =~= value);
}

/// A property that is neither set nor removed stays as it was.
pub proof fn law_other_properties_stay(
    before: MetaFileView,
    hash: Seq<char>,
    algo: Seq<char>,
    size: u64,
    sets: Seq<(Seq<char>, Seq<char>)>,
    removes: Seq<Seq<char>>,
    key: Seq<char>,
)
    requires
        forall|i: int| 0 <= i < sets.len() ==> (#[trigger] sets[i]).0 != key,
        !removes.contains(key),
    ensures
        ({
            let after = edited(before, hash, algo, size, sets, removes);
            &&& after.properties.dom().contains(key) == before.properties.dom().contains(key)
            &&& before.properties.dom().contains(key) ==> after.properties[key]
                == before.properties[key]
        }),
{
    lemma_unset_stays(before.properties, sets, key);
    lemma_unremoved_stays(with_sets(before.properties, sets), removes, key);
}

proof fn lemma_unset_stays(
    props: Map<Seq<char>, Seq<char>>,
    sets: Seq<(Seq<char>, Seq<char>)>,
    key: Seq<char>,
)
    requires
        forall|i: int| 0 <= i < sets.len() ==> (#[trigger] sets[i]).0 != key,
    ensures
        with_sets(props, sets).dom().contains(key) == props.dom().contains(key),
        props.dom().contains(key) ==> with_sets(props, sets)[key] == props[key],
    decreases sets.len(),
{
    if sets.len() > 0 {
        let init = sets.drop_last();
        assert forall|i: int| 0 <= i < init.len() implies (#[trigger] init[i]).0 != key by {
            assert(sets[i].0 != key);
        }
        lemma_unset_stays(props, init, key);
        assert(sets[sets.len() - 1].0 != key);
    }
}

proof fn lemma_unremoved_stays(
    props: Map<Seq<char>, Seq<char>>,
    keys: Seq<Seq<char>>,
    key: Seq<char>,
)
    requires
        !keys.contains(key),
    ensures
        without_keys(props, keys).dom().contains(key) == props.dom().contains(key),
        props.dom().contains(key) ==> without_keys(props, keys)[key] == props[key],
    decreases keys.len(),
{
    if keys.len() > 0 {
        let init = keys.drop_last();
        assert(keys.contains(keys[keys.len() - 1]));
        assert(!init.contains(key)) by {
            if init.contains(key) {
                let k = choose|k: int| 0 <= k < init.len() && init[k] == key;
                assert(keys[k] == key);
            }
        }
        lemma_unremoved_stays(props, init, key);
    }
}

/// An edit is of the content that it is made for, and fills in its algorithm and its
/// size where they are not known; what was extracted stays.
pub proof fn law_edit_is_of_its_content(
    before: MetaFileView,
    hash: Seq<char>,
    algo: Seq<char>,
    size: u64,
    sets: Seq<(Seq<char>, Seq<char>)>,
    removes: Seq<Seq<char>>,
)
    ensures
        ({
            let after = edited(before, hash, algo, size, sets, removes);
            &&& after.hash == hash
            &&& before.algo.len() > 0 ==> after.algo == before.algo
            &&& before.algo.len() == 0 ==> after.algo == algo
            &&& before.size != 0 ==> after.size == before.size
            &&& before.size == 0 ==> after.size == size
            &&& after.file_type == before.file_type
            &&& after.ext == before.ext
            &&& after.extractor_version == before.extractor_version
            &&& after.tags == before.tags
        }),
{
}

/// What is shown of a path is what is known of its content, and where its thumbnail and
/// its preview are, where they are.
pub proof fn law_shown_metadata_is_that_of_the_content(
    path: &str,
    id: (String, String, u64),
    meta: Option<MetaFile>,
    folder: &str,
    thumb_there: bool,
    preview_there: bool,
    r: MetaView,
)
    requires
        shardable(id.0@),
        call_ensures(gather, (path, id, meta, folder, thumb_there, preview_there), r),
    ensures
        r.path@ == path@,
        r.error is None,
        opt_view(r.hash) == Some(id.0@),
        opt_view(r.algo) == Some(id.1@),
        r.size == Some(id.2),
        r.thumbnail is Some <==> thumb_there,
        r.preview is Some <==> preview_there,
        thumb_there ==> r.thumbnail->0@ == artifact_path_of(folder@, id.0@, THUMBNAIL_SUFFIX@),
        preview_there ==> r.preview->0@ == artifact_path_of(folder@, id.0@, PREVIEW_SUFFIX@),
        meta is Some ==> {
            &&& r.tags@ == meta->0@.tags
            &&& r.properties@ == meta->0@.properties
            &&& opt_view(r.file_type) == meta->0@.file_type
            &&& opt_view(r.ext) == meta->0@.ext
        },
        meta is None ==> r.file_type is None && r.ext is None,
{
}

/// A file that no manifest lists has no metadata to show or to edit; one that a manifest
/// lists is known by its hash, its algorithm and its size.
pub proof fn law_only_listed_files_have_metadata(
    path: &str,
    entry: &Option<FileEntry>,
    r: Result<(String, String, u64), String>,
    v: MetaView,
)
    requires
        call_ensures(entry_for, (path, entry), r),
        call_ensures(missing_view, (path,), v),
    ensures
        r is Ok <==> *entry is Some,
        r is Ok ==> r->Ok_0.0@ == (*entry)->0.hash@ && r->Ok_0.1@ == (*entry)->0.algo@ && r->Ok_0.2
            == (*entry)->0.size,
        r is Err ==> v.error is Some && v.error->0@ == r->Err_0@,
        v.hash is None && v.algo is None && v.size is None,
        v.path@ == path@,
{
}

/// Sets are refused exactly where one is no key and value, and the first such is named;
/// else they are the keys and values that were written.
pub proof fn law_malformed_sets_are_refused(
    set: &Vec<String>,
    r: Result<Vec<(String, String)>, String>,
    i: int,
)
    requires
        call_ensures(parse_sets, (set,), r),
        0 <= i < set@.len(),
    ensures
        r is Ok ==> set_of(set@[i]@) is Some && r->Ok_0@.len() == set@.len() && set_of(set@[i]@)
            == Some((r->Ok_0@[i].0@, r->Ok_0@[i].1@)),
        set_of(set@[i]@) is None && (forall|j: int|
            0 <= j < i ==> set_of((#[trigger] set@[j])@) is Some) ==> r is Err && r->Err_0@
            == "invalid --set value (expected KEY=VALUE): "@ + set@[i]@,
{
    let texts = views(set@);
    assert(texts.len() == set@.len());
    assert forall|j: int| 0 <= j < texts.len() implies #[trigger] texts[j] == set@[j]@ by {}
    lemma_first_malformed(texts, i);
    if r is Ok {
        let pairs = pair_views(r->Ok_0@);
        assert(pairs.len() == r->Ok_0@.len());
        assert(pairs[i] == (r->Ok_0@[i].0@, r->Ok_0@[i].1@));
    }
}

proof fn lemma_first_malformed(sets: Seq<Seq<char>>, i: int)
    requires
        0 <= i < sets.len(),
    ensures
        first_malformed(sets) is None ==> set_of(sets[i]) is Some,
        set_of(sets[i]) is None && (forall|j: int|
            0 <= j < i ==> set_of(#[trigger] sets[j]) is Some) ==> first_malformed(sets) == Some(
            sets[i],
        ),
    decreases sets.len(),
{
    if i > 0 {
        let rest = sets.skip(1);
        assert(rest[i - 1] == sets[i]);
        if forall|j: int| 0 <= j < i ==> set_of(#[trigger] sets[j]) is Some {
            assert(set_of(sets[0]) is Some);
            assert forall|j: int| 0 <= j < i - 1 implies set_of(#[trigger] rest[j]) is Some by {
                assert(rest[j] == sets[j + 1]);
            }
        }
        lemma_first_malformed(rest, i - 1);
    }
}

/// Edits are refused where a file has no record, and the first such file is named.
pub proof fn law_edits_need_records(
    paths: &Vec<String>,
    entries: &Vec<Option<FileEntry>>,
    r: Result<Vec<(String, (String, String, u64))>, String>,
    i: int,
)
    requires
        paths@.len() == entries@.len(),
        call_ensures(plan_puts, (paths, entries), r),
        0 <= i < entries@.len(),
    ensures
        r is Ok ==> entries@[i] is Some,
        entries@[i] is None && (forall|j: int| 0 <= j < i ==> (#[trigger] entries@[j]) is Some)
            ==> r is Err && r->Err_0@ == paths@[i]@
            + ": no .hashit entry found; run `hashit scan` on its directory first"@,
{
    lemma_listed_first(entries@, i);
}

proof fn lemma_listed_first(entries: Seq<Option<FileEntry>>, i: int)
    requires
        0 <= i < entries.len(),
    ensures
        0 <= listed_first(entries) <= entries.len(),
        i < listed_first(entries) ==> entries[i] is Some,
        entries[i] is None && (forall|j: int| 0 <= j < i ==> (#[trigger] entries[j]) is Some)
            ==> listed_first(entries) == i,
    decreases entries.len(),
{
    let rest = entries.skip(1);
    if i > 0 {
        assert(rest[i - 1] == entries[i]);
        if forall|j: int| 0 <= j < i ==> (#[trigger] entries[j]) is Some {
            assert(entries[0] is Some);
            assert forall|j: int| 0 <= j < i - 1 implies (#[trigger] rest[j]) is Some by {
                assert(rest[j] == entries[j + 1]);
            }
        }
        lemma_listed_first(rest, i - 1);
    } else if rest.len() > 0 {
        lemma_listed_first(rest, 0);
    } else {
        assert(listed_first(rest) == 0);
    }
}

} // verus!
