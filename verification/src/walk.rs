//! The files that the manifests under a root list, one record for each.
use vstd::prelude::*;

use crate::manifest::{EntryView, FileEntry};
use crate::paths::{
    are_names, comps, is_under, join, joined_path, law_joined_names_read_back,
    law_relative_path_has_the_rest, lemma_normal_comps_add, normal_comps, relative,
    relative_or_whole, relative_to_or_whole, slashed, strip_prefix, to_slash,
};
use crate::text::{contains, has_part, has_prefix, joined, lemma_joined_prefix, occurs_at, views};
use crate::textmap::TextMap;

verus! {

/// One file that some manifest under the walked root lists.
#[derive(Debug)]
pub struct WalkEntry {
    /// The path of the file, as the walk found it.
    pub path: String,
    /// The path below the root, with forward slashes.
    pub rel: String,
    /// The file's name.
    pub name: String,
    pub entry: FileEntry,
}

/// What a [`WalkEntry`] holds.
#[verifier::ext_equal]
pub struct WalkView {
    pub path: Seq<char>,
    pub rel: Seq<char>,
    pub name: Seq<char>,
    pub entry: EntryView,
}

impl View for WalkEntry {
    type V = WalkView;

    open spec fn view(&self) -> WalkView {
        WalkView { path: self.path@, rel: self.rel@, name: self.name@, entry: self.entry@ }
    }
}

/// The views of some entries.
pub open spec fn walk_views(v: Seq<WalkEntry>) -> Seq<WalkView> {
    v.map_values(|e: WalkEntry| e@)
}

/// The path below the root, with forward slashes, or the whole path where it does
/// not lie under the root.
pub open spec fn rel_text(path: Seq<char>, root: Seq<char>) -> Seq<char> {
    slashed(relative_or_whole(path, root))
}

/// One of the texts is part of the path below the root.
pub open spec fn ignored(path: Seq<char>, root: Seq<char>, ignores: Seq<Seq<char>>) -> bool {
    exists|i: int| 0 <= i < ignores.len() && has_part(rel_text(path, root), #[trigger] ignores[i])
}

/// Whether a path, taken below `root`, holds any of the texts to ignore. These are
/// plain parts of the path, not patterns; an empty list ignores nothing.
pub fn is_ignored(path: &str, root: &str, ignores: &Vec<String>) -> (r: bool)
    ensures
        r == ignored(path@, root@, views(ignores@)),
{
    if ignores.len() == 0 {
        return false;
    }
    let whole: String = relative_to_or_whole(path, root);
    let rel: String = to_slash(whole.as_str());
    let mut i: usize = 0;
    while i < ignores.len()
        invariant
            i <= ignores@.len(),
            rel@ == rel_text(path@, root@),
            forall|k: int| 0 <= k < i ==> !has_part(rel@, #[trigger] views(ignores@)[k]),
        decreases ignores@.len() - i,
    {
        assert(views(ignores@)[i as int] == ignores@[i as int]@);
        if contains(rel.as_str(), ignores[i].as_str()) {
            return true;
        }
        i += 1;
    }
    false
}

/// A manifest that a walk found.
#[derive(Debug)]
pub struct Found {
    /// The directory that holds it.
    pub dir: String,
    pub files: TextMap<FileEntry>,
}

/// The directory below the root; empty where it does not lie under it.
pub open spec fn rel_dir(dir: Seq<char>, root: Seq<char>) -> Seq<char> {
    match relative(dir, root) {
        Some(d) => d,
        None => Seq::empty(),
    }
}

/// The record of one name in a manifest.
pub open spec fn walk_entry(
    dir: Seq<char>,
    root: Seq<char>,
    name: Seq<char>,
    entry: EntryView,
) -> WalkView {
    WalkView {
        path: joined_path(dir, name),
        rel: slashed(joined_path(rel_dir(dir, root), name)),
        name,
        entry,
    }
}

/// The records of a manifest, in the order of the names.
pub open spec fn manifest_entries(
    dir: Seq<char>,
    root: Seq<char>,
    keys: Seq<Seq<char>>,
    files: Map<Seq<char>, EntryView>,
) -> Seq<WalkView> {
    keys.map_values(|k: Seq<char>| walk_entry(dir, root, k, files[k]))
}

/// The records of all manifests that are not in an ignored directory, in the order
/// of the walk.
pub open spec fn all_entries(
    root: Seq<char>,
    ignores: Seq<Seq<char>>,
    found: Seq<Found>,
) -> Seq<WalkView>
    decreases found.len(),
{
    if found.len() == 0 {
        Seq::empty()
    } else {
        let last = found.last();
        let before = all_entries(root, ignores, found.drop_last());
        if ignored(last.dir@, root, ignores) {
            before
        } else {
            before + manifest_entries(last.dir@, root, last.files.keys(), last.files@)
        }
    }
}

/// The records of one manifest.
pub fn entries_of(root: &str, found: &Found) -> (r: Vec<WalkEntry>)
    ensures
        walk_views(r@) == manifest_entries(found.dir@, root@, found.files.keys(), found.files@),
{
    let rel: String = match strip_prefix(found.dir.as_str(), root) {
        Some(d) => d,
        None => {
            let none: String = String::new();
            assert(none@ =~= Seq::<char>::empty());
            none
        },
    };
    let mut out: Vec<WalkEntry> = Vec::new();
    let n: usize = found.files.len();
    let ghost all = manifest_entries(found.dir@, root@, found.files.keys(), found.files@);
    let mut i: usize = 0;
    while i < n
        invariant
            n == found.files.keys().len(),
            i <= n,
            rel@ == rel_dir(found.dir@, root@),
            all == manifest_entries(found.dir@, root@, found.files.keys(), found.files@),
            out@.len() == i,
            forall|k: int| 0 <= k < i ==> (#[trigger] out@[k])@ == all[k],
        decreases n - i,
    {
        let name: String = found.files.key_at(i).clone();
        let entry: FileEntry = found.files.value_at(i).copy();
        let full: String = join(rel.as_str(), name.as_str());
        let e: WalkEntry = WalkEntry {
            path: join(found.dir.as_str(), name.as_str()),
            rel: to_slash(full.as_str()),
            name,
            entry,
        };
        assert(e@ == all[i as int]);
        out.push(e);
        i += 1;
    }
    assert(walk_views(out@) =~= all);
    out
}

/// The records of every manifest that a walk found.
pub fn for_each_entry(root: &str, found: &Vec<Found>) -> (r: Vec<WalkEntry>)
    ensures
        walk_views(r@) == all_entries(root@, Seq::empty(), found@),
{
    let none: Vec<String> = Vec::new();
    assert(views(none@) =~= Seq::<Seq<char>>::empty());
    for_each_entry_filtered(root, &none, found)
}

/// The records of every manifest that a walk found, but for those in ignored
/// directories.
pub fn for_each_entry_filtered(root: &str, ignores: &Vec<String>, found: &Vec<Found>) -> (r: Vec<
    WalkEntry,
>)
    ensures
        walk_views(r@) == all_entries(root@, views(ignores@), found@),
{
    let mut out: Vec<WalkEntry> = Vec::new();
    let mut i: usize = 0;
    assert(walk_views(out@) =~= Seq::<WalkView>::empty());
    assert(found@.take(0) =~= Seq::<Found>::empty());
    while i < found.len()
        invariant
            i <= found@.len(),
            walk_views(out@) == all_entries(root@, views(ignores@), found@.take(i as int)),
        decreases found@.len() - i,
    {
        proof {
            assert(found@.take(i + 1).drop_last() =~= found@.take(i as int));
            assert(found@.take(i + 1).last() == found@[i as int]);
        }
        if !is_ignored(found[i].dir.as_str(), root, ignores) {
            let mut more: Vec<WalkEntry> = entries_of(root, &found[i]);
            let ghost before = out@;
            let ghost add = more@;
            out.append(&mut more);
            assert(walk_views(out@) =~= walk_views(before) + walk_views(add));
        }
        i += 1;
    }
    assert(found@.take(found@.len() as int) =~= found@);
    out
}

/// What is ignored is ignored with everything under it, so that a walk need not go
/// into it.
pub proof fn law_ignored_with_everything_under_it(
    path: Seq<char>,
    dir: Seq<char>,
    root: Seq<char>,
    ignores: Seq<Seq<char>>,
)
    requires
        is_under(dir, root),
        is_under(path, dir),
        ignored(dir, root, ignores),
    ensures
        is_under(path, root),
        ignored(path, root, ignores),
{
    let n = comps(root).len() as int;
    let m = comps(dir).len() as int;
    assert(comps(path).take(n) =~= comps(path).take(m).take(n));
    let (a, b) = (comps(dir).skip(n), comps(path).skip(m));
    assert(comps(path).skip(n) =~= a + b) by {
        assert forall|i: int| 0 <= i < a.len() implies comps(path).skip(n)[i] == a[i] by {
            assert(comps(path).take(m)[i + n] == comps(path)[i + n]);
        }
    }
    law_relative_path_has_the_rest(dir, root);
    law_relative_path_has_the_rest(path, root);
    lemma_normal_comps_add(a, b, 0);
    lemma_joined_prefix(normal_comps(a, 0), normal_comps(b, 0), "/"@);
    let (rd, rp) = (rel_text(dir, root), rel_text(path, root));
    assert(has_prefix(rp, rd));
    let i = choose|i: int| 0 <= i < ignores.len() && has_part(rd, #[trigger] ignores[i]);
    let part = ignores[i];
    let at = choose|at: int| #[trigger] occurs_at(rd, part, at);
    assert(occurs_at(rp, part, at)) by {
        assert(rp.subrange(0, rd.len() as int) =~= rd);
        assert forall|k: int| 0 <= k < rd.len() implies rp[k] == rd[k] by {
            assert(rp.subrange(0, rd.len() as int)[k] == rp[k]);
        }
        assert(rp.subrange(at, at + part.len()) =~= rd.subrange(at, at + part.len()));
    }
    assert(has_part(rp, ignores[i]));
}

/// A path of names below a root is ignored exactly where one of the texts is part of
/// the names, written with slashes between them: what the root is called does not
/// matter.
pub proof fn law_ignored_by_the_names_below_the_root(
    root: Seq<char>,
    names: Seq<Seq<char>>,
    ignores: Seq<Seq<char>>,
)
    requires
        are_names(names),
    ensures
        ignored(joined_path(root, joined(names, "/"@)), root, ignores) <==> exists|i: int|
            0 <= i < ignores.len() && has_part(joined(names, "/"@), #[trigger] ignores[i]),
{
    law_joined_names_read_back(root, names);
}

/// Two lists of texts to ignore combine: what either ignores is ignored. No texts
/// ignore nothing.
pub proof fn law_ignores_combine(
    path: Seq<char>,
    root: Seq<char>,
    a: Seq<Seq<char>>,
    b: Seq<Seq<char>>,
)
    ensures
        ignored(path, root, a + b) == (ignored(path, root, a) || ignored(path, root, b)),
        !ignored(path, root, Seq::empty()),
{
    let rel = rel_text(path, root);
    if ignored(path, root, a) {
        let i = choose|i: int| 0 <= i < a.len() && has_part(rel, #[trigger] a[i]);
        assert(has_part(rel, (a + b)[i]));
    }
    if ignored(path, root, b) {
        let i = choose|i: int| 0 <= i < b.len() && has_part(rel, #[trigger] b[i]);
        assert(has_part(rel, (a + b)[a.len() + i]));
    }
    if ignored(path, root, a + b) {
        let i = choose|i: int| 0 <= i < (a + b).len() && has_part(rel, #[trigger] (a + b)[i]);
        if i < a.len() {
            assert(has_part(rel, a[i]));
        } else {
            assert(has_part(rel, b[i - a.len()]));
        }
    }
}

/// A walk lists each file of each manifest that it meets: where it is, its name, its
/// record, and its path below the root; and it lists nothing else. Of a directory that
/// is ignored it lists nothing.
pub proof fn law_walk_lists_the_files_of_manifests(
    root: Seq<char>,
    ignores: Seq<Seq<char>>,
    found: Seq<Found>,
    w: WalkView,
)
    ensures
        all_entries(root, ignores, found).contains(w) <==> exists|i: int, k: int|
            #![trigger found[i], found[i].files.keys()[k]]
            0 <= i < found.len() && 0 <= k < found[i].files.keys().len() && !ignored(
                found[i].dir@,
                root,
                ignores,
            ) && w == walk_entry(
                found[i].dir@,
                root,
                found[i].files.keys()[k],
                found[i].files@[found[i].files.keys()[k]],
            ),
    decreases found.len(),
{
    if found.len() > 0 {
        let init = found.drop_last();
        let n = init.len() as int;
        let last = found.last();
        let before = all_entries(root, ignores, init);
        let own = manifest_entries(last.dir@, root, last.files.keys(), last.files@);
        let all = all_entries(root, ignores, found);
        law_walk_lists_the_files_of_manifests(root, ignores, init, w);
        assert(found[n] == last);
        if all.contains(w) {
            let x = choose|x: int| 0 <= x < all.len() && all[x] == w;
            if x < before.len() {
                assert(before[x] == w);
                let (i, k) = choose|i: int, k: int|
                    #![trigger init[i], init[i].files.keys()[k]]
                    0 <= i < init.len() && 0 <= k < init[i].files.keys().len() && !ignored(
                        init[i].dir@,
                        root,
                        ignores,
                    ) && w == walk_entry(
                        init[i].dir@,
                        root,
                        init[i].files.keys()[k],
                        init[i].files@[init[i].files.keys()[k]],
                    );
                assert(found[i] == init[i]);
                assert(found[i].files.keys()[k] == init[i].files.keys()[k]);
            } else {
                let k = x - before.len();
                assert(own[k] == w);
                assert(found[n].files.keys()[k] == last.files.keys()[k]);
            }
        }
        if exists|i: int, k: int|
            #![trigger found[i], found[i].files.keys()[k]]
            0 <= i < found.len() && 0 <= k < found[i].files.keys().len() && !ignored(
                found[i].dir@,
                root,
                ignores,
            ) && w == walk_entry(
                found[i].dir@,
                root,
                found[i].files.keys()[k],
                found[i].files@[found[i].files.keys()[k]],
            ) {
            let (i, k) = choose|i: int, k: int|
                #![trigger found[i], found[i].files.keys()[k]]
                0 <= i < found.len() && 0 <= k < found[i].files.keys().len() && !ignored(
                    found[i].dir@,
                    root,
                    ignores,
                ) && w == walk_entry(
                    found[i].dir@,
                    root,
                    found[i].files.keys()[k],
                    found[i].files@[found[i].files.keys()[k]],
                );
            if i < n {
                assert(init[i] == found[i]);
                assert(init[i].files.keys()[k] == found[i].files.keys()[k]);
                let x = choose|x: int| 0 <= x < before.len() && before[x] == w;
                assert(all[x] == w);
            } else {
                assert(own[k] == w);
                assert(all[before.len() + k] == w);
            }
        }
    }
}

/// A listed file is at its name in its directory; below a root of names its path is the
/// names from the root to it, with slashes between them.
pub proof fn law_listed_file_is_in_its_directory(
    dir: Seq<char>,
    root: Seq<char>,
    name: Seq<char>,
    entry: EntryView,
)
    ensures
        walk_entry(dir, root, name, entry).path == joined_path(dir, name),
        walk_entry(dir, root, name, entry).name == name,
        walk_entry(dir, root, name, entry).entry == entry,
        relative(dir, root) is Some ==> walk_entry(dir, root, name, entry).rel == slashed(
            joined_path(relative(dir, root)->0, name),
        ),
{
}

/// A file of a directory outside the root is listed under its name alone.
pub proof fn law_files_outside_the_root_have_their_name(
    dir: Seq<char>,
    root: Seq<char>,
    name: Seq<char>,
    entry: EntryView,
)
    requires
        !is_under(dir, root),
        !crate::paths::is_nothing(root),
        !crate::paths::is_abs(name),
    ensures
        walk_entry(dir, root, name, entry).rel == slashed(name),
        walk_entry(dir, root, name, entry).path == joined_path(dir, name),
        walk_entry(dir, root, name, entry).name == name,
        walk_entry(dir, root, name, entry).entry == entry,
{
    assert(Seq::<char>::empty() + name =~= name);
}

} // verus!
