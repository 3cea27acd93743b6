//! Which directories to scan again after something changed.
use vstd::prelude::*;

use crate::dedup::{owner_among, owner_root};
use crate::manifest::{is_manifest_file, managed_name};
use crate::pathmap::{law_added_paths_are_there, path_id, with_paths, PathId, PathSet};
use crate::paths::{file_name, file_name_of, parent, parent_of};
use crate::scan::{apple_double, is_apple_double, ScanOptions};
use crate::text::{law_parts_are_what_stands_in_a_text, views};

verus! {

/// A path that something happened to.
#[derive(Clone, Debug, PartialEq, Eq)]
pub struct Changed {
    pub path: String,
    /// A directory is there now.
    pub is_dir: bool,
}

/// What a [`Changed`] holds.
#[verifier::ext_equal]
pub struct ChangedView {
    pub path: Seq<char>,
    pub is_dir: bool,
}

impl View for Changed {
    type V = ChangedView;

    open spec fn view(&self) -> ChangedView {
        ChangedView { path: self.path@, is_dir: self.is_dir }
    }
}

pub open spec fn changed_views(v: Seq<Changed>) -> Seq<ChangedView> {
    v.map_values(|c: Changed| c@)
}

/// A change that does not count: one of a file that the library keeps itself, or of
/// a sidecar file where those are left out.
pub open spec fn is_noise(path: Seq<char>, skip_apple_double: bool) -> bool {
    match file_name_of(path) {
        Some(n) => managed_name(n) || (skip_apple_double && apple_double(n)),
        None => false,
    }
}

/// Whether a change does not count.
pub fn is_own_noise(path: &str, skip_apple_double: bool) -> (r: bool)
    ensures
        r == is_noise(path@, skip_apple_double),
{
    match file_name(path) {
        Some(n) => is_manifest_file(n.as_str()) || (skip_apple_double && is_apple_double(
            n.as_str(),
        )),
        None => false,
    }
}

/// The directories that a change touches: its own, then the one that holds it.
pub open spec fn dirs_of(c: ChangedView, skip_apple_double: bool) -> Seq<Seq<char>> {
    if is_noise(c.path, skip_apple_double) {
        Seq::empty()
    } else {
        (if c.is_dir {
            seq![c.path]
        } else {
            Seq::empty()
        }) + (match parent_of(c.path) {
            Some(d) => seq![d],
            None => Seq::empty(),
        })
    }
}

/// The directories that some changes touch, one after another.
pub open spec fn dirs_of_all(changes: Seq<ChangedView>, skip_apple_double: bool) -> Seq<Seq<char>>
    decreases changes.len(),
{
    if changes.len() == 0 {
        Seq::empty()
    } else {
        dirs_of_all(changes.drop_last(), skip_apple_double) + dirs_of(
            changes.last(),
            skip_apple_double,
        )
    }
}

/// The directories that some changes touch, each once.
pub open spec fn touched_dirs(changes: Seq<ChangedView>, skip_apple_double: bool) -> Map<
    PathId,
    Seq<char>,
> {
    with_paths(Map::empty(), dirs_of_all(changes, skip_apple_double))
}

/// The directories to scan again after some changes.
pub fn affected_dirs(changes: &Vec<Changed>, opts: &ScanOptions) -> (r: PathSet)
    ensures
        r@ == touched_dirs(changed_views(changes@), opts.skip_apple_double),
{
    let ghost cv = changed_views(changes@);
    let ghost skip = opts.skip_apple_double;
    let mut dirs: PathSet = PathSet::new();
    let mut i: usize = 0;
    assert(cv.take(0) =~= Seq::<ChangedView>::empty());
    while i < changes.len()
        invariant
            i <= changes@.len(),
            cv == changed_views(changes@),
            skip == opts.skip_apple_double,
            dirs@ == touched_dirs(cv.take(i as int), skip),
        decreases changes@.len() - i,
    {
        let c: &Changed = &changes[i];
        let ghost all = dirs_of_all(cv.take(i as int), skip);
        proof {
            assert(cv[i as int] == c@);
            assert(cv.take(i + 1).drop_last() =~= cv.take(i as int));
            assert(cv.take(i + 1).last() == c@);
        }
        let ghost mut list = all;
        if !is_own_noise(c.path.as_str(), opts.skip_apple_double) {
            if c.is_dir {
                let ghost more = list.push(c.path@);
                assert(more.drop_last() =~= list);
                dirs.insert(c.path.clone());
                proof {
                    list = more;
                }
                assert(dirs@ == with_paths(Map::empty(), list));
            }
            if let Some(p) = parent(c.path.as_str()) {
                let ghost more = list.push(p@);
                assert(more.drop_last() =~= list);
                dirs.insert(p);
                proof {
                    list = more;
                }
                assert(dirs@ == with_paths(Map::empty(), list));
            }
        }
        assert(list =~= all + dirs_of(c@, skip));
        assert(list == dirs_of_all(cv.take(i + 1), skip));
        i += 1;
    }
    assert(cv.take(cv.len() as int) =~= cv);
    dirs
}

/// The directories to scan again are those that the changes touch and no others,
/// however they are written.
pub proof fn law_touched_dirs_are_those_of_the_changes(
    changes: Seq<ChangedView>,
    skip: bool,
    id: PathId,
)
    ensures
        touched_dirs(changes, skip).dom().contains(id) <==> exists|i: int, j: int|
            0 <= i < changes.len() && 0 <= j < dirs_of(changes[i], skip).len() && path_id(
                #[trigger] dirs_of(changes[i], skip)[j],
            ) == id,
{
    let all = dirs_of_all(changes, skip);
    law_added_paths_are_there(Map::empty(), all, id);
    lemma_touched(changes, skip, id);
}

proof fn lemma_touched(changes: Seq<ChangedView>, skip: bool, id: PathId)
    ensures
        (exists|k: int|
            0 <= k < dirs_of_all(changes, skip).len() && path_id(
                #[trigger] dirs_of_all(changes, skip)[k],
            ) == id) <==> exists|i: int, j: int|
            0 <= i < changes.len() && 0 <= j < dirs_of(changes[i], skip).len() && path_id(
                #[trigger] dirs_of(changes[i], skip)[j],
            ) == id,
    decreases changes.len(),
{
    if changes.len() > 0 {
        let init = changes.drop_last();
        let (before, last) = (dirs_of_all(init, skip), dirs_of(changes.last(), skip));
        let all = dirs_of_all(changes, skip);
        lemma_touched(init, skip, id);
        if exists|k: int| 0 <= k < all.len() && path_id(#[trigger] all[k]) == id {
            let k = choose|k: int| 0 <= k < all.len() && path_id(#[trigger] all[k]) == id;
            if k < before.len() {
                assert(path_id(before[k]) == id);
                let (i, j) = choose|i: int, j: int|
                    0 <= i < init.len() && 0 <= j < dirs_of(init[i], skip).len() && path_id(
                        #[trigger] dirs_of(init[i], skip)[j],
                    ) == id;
                assert(path_id(dirs_of(changes[i], skip)[j]) == id);
            } else {
                assert(path_id(dirs_of(changes[changes.len() - 1], skip)[k - before.len()]) == id);
            }
        }
        if exists|i: int, j: int|
            0 <= i < changes.len() && 0 <= j < dirs_of(changes[i], skip).len() && path_id(
                #[trigger] dirs_of(changes[i], skip)[j],
            ) == id {
            let (i, j) = choose|i: int, j: int|
                0 <= i < changes.len() && 0 <= j < dirs_of(changes[i], skip).len() && path_id(
                    #[trigger] dirs_of(changes[i], skip)[j],
                ) == id;
            if i < init.len() {
                assert(path_id(dirs_of(init[i], skip)[j]) == id);
                let k = choose|k: int| 0 <= k < before.len() && path_id(#[trigger] before[k]) == id;
                assert(path_id(all[k]) == id);
            } else {
                assert(path_id(all[before.len() + j]) == id);
            }
        }
    }
}

/// The root with which to scan a directory again: the one that it belongs to. There
/// is none where it lies under no root, or is no longer there.
pub fn watch(roots: &Vec<String>, dir: &str, is_dir: bool) -> (r: Option<usize>)
    ensures
        match r {
            Some(i) => is_dir && i < roots@.len() && owner_among(views(roots@), dir@) == Some(
                i as int,
            ),
            None => !is_dir || owner_among(views(roots@), dir@) is None,
        },
{
    if is_dir {
        owner_root(roots, dir)
    } else {
        None
    }
}

/// Writing a manifest, or one of the library's other files, makes no directory to
/// scan again: the watch does not feed on its own writes.
pub proof fn law_own_writes_touch_nothing(changes: Seq<ChangedView>, skip: bool)
    requires
        forall|i: int|
            0 <= i < changes.len() ==> file_name_of((#[trigger] changes[i]).path) is Some
                && managed_name(file_name_of(changes[i].path)->0),
    ensures
        touched_dirs(changes, skip) == Map::<PathId, Seq<char>>::empty(),
    decreases changes.len(),
{
    if changes.len() > 0 {
        let init = changes.drop_last();
        assert forall|i: int| 0 <= i < init.len() implies file_name_of(
            (#[trigger] init[i]).path,
        ) is Some && managed_name(file_name_of(init[i].path)->0) by {
            assert(init[i] == changes[i]);
        }
        law_own_writes_touch_nothing(init, skip);
        assert(is_noise(changes[changes.len() - 1].path, skip));
        assert(dirs_of_all(changes, skip) =~= dirs_of_all(init, skip));
    }
}

/// What is not looked at: manifests and the files of unfinished saves, drive markers,
/// and sidecars where they are left out. Everything else is.
pub proof fn law_what_is_not_looked_at(path: Seq<char>, skip: bool)
    ensures
        is_noise(path, skip) <==> {
            let name = file_name_of(path)->0;
            &&& file_name_of(path) is Some
            &&& {
                ||| name == ".hashit"@
                ||| name == ".hashit-drive"@
                ||| exists|rest: Seq<char>| name == ".hashit.tmp."@ + rest
                ||| skip && exists|rest: Seq<char>| name == "._"@ + rest
            }
        },
{
    if let Some(name) = file_name_of(path) {
        law_parts_are_what_stands_in_a_text(name, ".hashit.tmp."@);
        law_parts_are_what_stands_in_a_text(name, "._"@);
    }
}

/// A change of a file touches the directory it is in; a change of a directory touches
/// that and the directory itself; nothing else is touched.
pub proof fn law_change_touches_its_directory(c: ChangedView, skip: bool, dir: Seq<char>)
    requires
        !is_noise(c.path, skip),
    ensures
        dirs_of(c, skip).contains(dir) <==> parent_of(c.path) == Some(dir) || (c.is_dir && dir
            == c.path),
{
    let all = dirs_of(c, skip);
    if parent_of(c.path) == Some(dir) {
        assert(all[all.len() - 1] == dir);
    }
    if c.is_dir {
        assert(all[0] == c.path);
    }
}

/// A directory is scanned again with the root that it belongs to, and only while it is
/// there.
pub proof fn law_scanned_again_with_its_root(
    roots: &Vec<String>,
    dir: &str,
    is_dir: bool,
    r: Option<usize>,
)
    requires
        call_ensures(watch, (roots, dir, is_dir), r),
    ensures
        r is Some <==> is_dir && owner_among(views(roots@), dir@) is Some,
        r is Some ==> owner_among(views(roots@), dir@) == Some(r->0 as int),
{
}

} // verus!
