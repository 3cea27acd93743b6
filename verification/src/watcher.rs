//! Which parts of the search index to bring up to date after something changed.
use vstd::prelude::*;

use crate::index_store::{hash_from_meta_filename, hash_in_name};
use crate::manifest::{copy_texts, MANIFEST_NAME};
use crate::pathmap::{path_id, with_path, PathId, PathSet};
use crate::paths::{file_name, file_name_of, is_under, parent, parent_of, path_eq, same_path, under};
use crate::text::{text_eq, views};
use crate::textmap::TextSet;
use crate::walk::{ignored, is_ignored};

verus! {

/// What to watch: the roots, and the metadata folder unless it is one of them.
pub open spec fn watch_targets(roots: Seq<Seq<char>>, meta_folder: Seq<char>) -> Seq<Seq<char>> {
    if exists|i: int| 0 <= i < roots.len() && same_path(#[trigger] roots[i], meta_folder) {
        roots
    } else {
        roots.push(meta_folder)
    }
}

/// What to watch.
pub fn targets(roots: &Vec<String>, meta_folder: &str) -> (r: Vec<String>)
    ensures
        views(r@) == watch_targets(views(roots@), meta_folder@),
{
    let ghost rv = views(roots@);
    let mut out: Vec<String> = copy_texts(roots);
    let mut i: usize = 0;
    while i < roots.len()
        invariant
            i <= roots@.len(),
            rv == views(roots@),
            views(out@) == rv,
            forall|k: int| 0 <= k < i ==> !same_path(#[trigger] rv[k], meta_folder@),
        decreases roots@.len() - i,
    {
        assert(rv[i as int] == roots@[i as int]@);
        if path_eq(roots[i].as_str(), meta_folder) {
            return out;
        }
        i += 1;
    }
    out.push(meta_folder.to_owned());
    assert(views(out@) =~= rv.push(meta_folder@));
    out
}

/// What a batch of changes asks for.
#[derive(Debug)]
pub struct Batch {
    /// The directories whose manifest changed.
    pub dirs: PathSet,
    /// The contents whose metadata changed.
    pub hashes: TextSet,
}

/// The name of a path, empty where it has none.
pub open spec fn name_or_empty(path: Seq<char>) -> Seq<char> {
    match file_name_of(path) {
        Some(n) => n,
        None => Seq::empty(),
    }
}

/// A directory is ignored below one of the roots that it lies under.
pub open spec fn ignored_dir(dir: Seq<char>, roots: Seq<Seq<char>>, ignores: Seq<Seq<char>>) -> bool {
    exists|i: int|
        0 <= i < roots.len() && is_under(dir, #[trigger] roots[i]) && ignored(
            dir,
            roots[i],
            ignores,
        )
}

/// A change of a manifest asks for its directory, unless that is ignored.
pub open spec fn dir_asked(
    path: Seq<char>,
    roots: Seq<Seq<char>>,
    ignores: Seq<Seq<char>>,
) -> Option<Seq<char>> {
    match parent_of(path) {
        Some(d) if name_or_empty(path) == MANIFEST_NAME@ && !ignored_dir(d, roots, ignores) => Some(
            d,
        ),
        _ => None,
    }
}

/// A change of a metadata file asks for its content.
pub open spec fn asks_for_hash(path: Seq<char>, hash: Seq<char>) -> bool {
    name_or_empty(path) != MANIFEST_NAME@ && hash_in_name(name_or_empty(path)) == Some(hash)
}

/// The directories that some changes ask for, each once.
pub open spec fn dirs_asked(
    paths: Seq<Seq<char>>,
    roots: Seq<Seq<char>>,
    ignores: Seq<Seq<char>>,
) -> Map<PathId, Seq<char>>
    decreases paths.len(),
{
    if paths.len() == 0 {
        Map::empty()
    } else {
        let before = dirs_asked(paths.drop_last(), roots, ignores);
        match dir_asked(paths.last(), roots, ignores) {
            Some(d) => with_path(before, d),
            None => before,
        }
    }
}

/// The contents that some changes ask for.
pub open spec fn hashes_asked(paths: Seq<Seq<char>>) -> Set<Seq<char>> {
    Set::new(
        |h: Seq<char>|
            exists|i: int| 0 <= i < paths.len() && asks_for_hash(#[trigger] paths[i], h),
    )
}

fn is_ignored_dir(dir: &str, roots: &Vec<String>, ignores: &Vec<String>) -> (r: bool)
    ensures
        r == ignored_dir(dir@, views(roots@), views(ignores@)),
{
    let ghost rv = views(roots@);
    let mut i: usize = 0;
    while i < roots.len()
        invariant
            i <= roots@.len(),
            rv == views(roots@),
            forall|k: int|
                0 <= k < i ==> !(is_under(dir@, #[trigger] rv[k]) && ignored(
                    dir@,
                    rv[k],
                    views(ignores@),
                )),
        decreases roots@.len() - i,
    {
        assert(rv[i as int] == roots@[i as int]@);
        if under(dir, roots[i].as_str()) && is_ignored(dir, roots[i].as_str(), ignores) {
            return true;
        }
        i += 1;
    }
    false
}

/// What some changes ask for: the directories of manifests, but for ignored ones,
/// and the contents of metadata files. Pictures and anything else ask for nothing.
pub fn batch(paths: &Vec<String>, roots: &Vec<String>, ignores: &Vec<String>) -> (r: Batch)
    ensures
        r.dirs@ == dirs_asked(views(paths@), views(roots@), views(ignores@)),
        r.hashes@ == hashes_asked(views(paths@)),
{
    let ghost pv = views(paths@);
    let ghost rv = views(roots@);
    let ghost iv = views(ignores@);
    let mut dirs: PathSet = PathSet::new();
    let mut hashes: TextSet = TextSet::new();
    let mut i: usize = 0;
    assert(pv.take(0) =~= Seq::<Seq<char>>::empty());
    assert(hashes@ =~= hashes_asked(pv.take(0)));
    while i < paths.len()
        invariant
            i <= paths@.len(),
            pv == views(paths@),
            rv == views(roots@),
            iv == views(ignores@),
            dirs@ == dirs_asked(pv.take(i as int), rv, iv),
            hashes@ == hashes_asked(pv.take(i as int)),
        decreases paths@.len() - i,
    {
        let path: &str = paths[i].as_str();
        assert(pv[i as int] == path@);
        let name: String = match file_name(path) {
            Some(n) => n,
            None => String::new(),
        };
        assert(name@ =~= name_or_empty(path@));
        if text_eq(name.as_str(), MANIFEST_NAME) {
            if let Some(dir) = parent(path) {
                if !is_ignored_dir(dir.as_str(), roots, ignores) {
                    dirs.insert(dir);
                }
            }
        } else if let Some(h) = hash_from_meta_filename(name.as_str()) {
            hashes.insert(h);
        }
        proof {
            assert(pv.take(i + 1).drop_last() =~= pv.take(i as int));
            assert(pv.take(i + 1).last() == path@);
            assert forall|h: Seq<char>| hashes@.contains(h) <==> hashes_asked(
                pv.take(i + 1),
            ).contains(h) by {
                lemma_hashes_step(pv, i as int, h);
            }
            assert(hashes@ =~= hashes_asked(pv.take(i + 1)));
        }
        i += 1;
    }
    assert(pv.take(pv.len() as int) =~= pv);
    Batch { dirs, hashes }
}

/// The directories asked for are those of the changed manifests that are not ignored,
/// and no others, however they are written.
pub proof fn law_asked_dirs_are_those_of_manifests(
    paths: Seq<Seq<char>>,
    roots: Seq<Seq<char>>,
    ignores: Seq<Seq<char>>,
    id: PathId,
)
    ensures
        dirs_asked(paths, roots, ignores).dom().contains(id) <==> exists|i: int|
            0 <= i < paths.len() && (#[trigger] dir_asked(paths[i], roots, ignores) matches Some(d)
                && path_id(d) == id),
    decreases paths.len(),
{
    if paths.len() > 0 {
        let init = paths.drop_last();
        law_asked_dirs_are_those_of_manifests(init, roots, ignores, id);
        let last = paths.len() - 1;
        assert(paths[last] == paths.last());
        if dirs_asked(init, roots, ignores).dom().contains(id) {
            let i = choose|i: int|
                0 <= i < init.len() && (#[trigger] dir_asked(init[i], roots, ignores) matches Some(
                    d,
                ) && path_id(d) == id);
            assert(dir_asked(paths[i], roots, ignores) is Some);
        }
        if exists|i: int|
            0 <= i < paths.len() && (#[trigger] dir_asked(paths[i], roots, ignores) matches Some(d)
                && path_id(d) == id) {
            let i = choose|i: int|
                0 <= i < paths.len() && (#[trigger] dir_asked(paths[i], roots, ignores) matches Some(
                    d,
                ) && path_id(d) == id);
            if i < init.len() {
                assert(dir_asked(init[i], roots, ignores) is Some);
            }
        }
    }
}

proof fn lemma_hashes_step(pv: Seq<Seq<char>>, i: int, h: Seq<char>)
    requires
        0 <= i < pv.len(),
    ensures
        hashes_asked(pv.take(i + 1)).contains(h) <==> hashes_asked(pv.take(i)).contains(h)
            || asks_for_hash(pv[i], h),
{
    let a = pv.take(i);
    let b = pv.take(i + 1);
    if hashes_asked(a).contains(h) {
        let k = choose|k: int| 0 <= k < a.len() && asks_for_hash(#[trigger] a[k], h);
        assert(b[k] == a[k]);
    }
    if hashes_asked(b).contains(h) {
        let k = choose|k: int| 0 <= k < b.len() && asks_for_hash(#[trigger] b[k], h);
        if k < i {
            assert(a[k] == b[k]);
        }
    }
    assert(b[i] == pv[i]);
}

/// Every root is watched, and the metadata folder: as one more target, unless it is one
/// of the roots.
pub proof fn law_roots_and_metadata_are_watched(roots: Seq<Seq<char>>, meta_folder: Seq<char>)
    ensures
        forall|i: int|
            0 <= i < roots.len() ==> #[trigger] watch_targets(roots, meta_folder)[i] == roots[i],
        exists|i: int|
            0 <= i < watch_targets(roots, meta_folder).len() && same_path(
                #[trigger] watch_targets(roots, meta_folder)[i],
                meta_folder,
            ),
        watch_targets(roots, meta_folder).len() <= roots.len() + 1,
        watch_targets(roots, meta_folder).len() == roots.len() + 1 ==> forall|i: int|
            0 <= i < roots.len() ==> !same_path(#[trigger] roots[i], meta_folder),
{
    let all = watch_targets(roots, meta_folder);
    if exists|i: int| 0 <= i < roots.len() && same_path(#[trigger] roots[i], meta_folder) {
        let i = choose|i: int| 0 <= i < roots.len() && same_path(#[trigger] roots[i], meta_folder);
        assert(same_path(all[i], meta_folder));
    } else {
        assert(same_path(all[roots.len() as int], meta_folder));
    }
}

/// A change of a manifest asks for its directory, unless a root that the directory lies
/// under ignores it there; no other change asks for a directory.
pub proof fn law_manifest_asks_for_its_directory(
    path: Seq<char>,
    roots: Seq<Seq<char>>,
    ignores: Seq<Seq<char>>,
)
    ensures
        dir_asked(path, roots, ignores) is Some <==> {
            &&& file_name_of(path) == Some(".hashit"@)
            &&& parent_of(path) is Some
            &&& forall|i: int|
                0 <= i < roots.len() && is_under(parent_of(path)->0, #[trigger] roots[i])
                    ==> !ignored(parent_of(path)->0, roots[i], ignores)
        },
        dir_asked(path, roots, ignores) is Some ==> dir_asked(path, roots, ignores) == parent_of(
            path,
        ),
{
    reveal_strlit(".hashit");
    assert(".hashit"@.len() > 0);
}

/// The contents that a change asks for are those whose metadata files changed.
pub proof fn law_metadata_file_asks_for_its_content(paths: Seq<Seq<char>>, hash: Seq<char>)
    ensures
        hashes_asked(paths).contains(hash) <==> exists|i: int|
            0 <= i < paths.len() && file_name_of(#[trigger] paths[i]) is Some && file_name_of(
                paths[i],
            ) != Some(".hashit"@) && hash_in_name(file_name_of(paths[i])->0) == Some(hash),
{
    reveal_strlit(".hashit");
    if hashes_asked(paths).contains(hash) {
        let i = choose|i: int| 0 <= i < paths.len() && asks_for_hash(#[trigger] paths[i], hash);
        if file_name_of(paths[i]) is None {
            lemma_no_hash_in_nothing();
        }
    }
    if exists|i: int|
        0 <= i < paths.len() && file_name_of(#[trigger] paths[i]) is Some && file_name_of(paths[i])
            != Some(".hashit"@) && hash_in_name(file_name_of(paths[i])->0) == Some(hash) {
        let i = choose|i: int|
            0 <= i < paths.len() && file_name_of(#[trigger] paths[i]) is Some && file_name_of(
                paths[i],
            ) != Some(".hashit"@) && hash_in_name(file_name_of(paths[i])->0) == Some(hash);
        assert(asks_for_hash(paths[i], hash));
    }
}

proof fn lemma_no_hash_in_nothing()
    ensures
        hash_in_name(Seq::empty()) is None,
{
}

} // verus!
