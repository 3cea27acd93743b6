//! What a client may ask of the index, apart from queries.
use vstd::prelude::*;

use crate::hash::{algo_name, HashAlgo};
use crate::pathmap::{path_id, PathId, PathKey, RootedKey};
use crate::paths::{join, joined_path, parent, parent_of};
use crate::scan::ScanOptions;
use crate::store::ResolvedLoc;
use crate::text::{concat3, text_eq, views};
use crate::textmap::{law_lists_in_order_are_sets, law_members_are_listed, members, OrdMap};

verus! {

/// What came of keeping one copy of a content.
#[derive(Clone, Debug, PartialEq, Eq)]
pub struct DedupOutcome {
    /// The copy that was kept, as `drive:path`.
    pub kept: String,
    /// The copies that were removed, as `drive:path`.
    pub removed: Vec<String>,
    /// The number of copies on drives that are not there.
    pub skipped_offline: usize,
}

/// Why a copy cannot be kept.
#[derive(Clone, Debug, PartialEq, Eq)]
pub enum KeepError {
    /// There is no such copy.
    NotFound { drive: String, path: String },
    /// Its drive is not there.
    Offline,
}

impl KeepError {
    /// What to tell the client.
    pub fn message(&self) -> (r: String)
        ensures
            r@ == match *self {
                KeepError::NotFound { drive, path } => "keep location "@ + drive@ + ":"@ + path@
                    + " not found"@,
                KeepError::Offline => "the drive holding the kept copy is offline"@,
            },
    {
        match self {
            KeepError::NotFound { drive, path } => {
                let mut out: String = concat3("keep location ", drive.as_str(), ":");
                out.append(path.as_str());
                out.append(" not found");
                out
            },
            KeepError::Offline => "the drive holding the kept copy is offline".to_owned(),
        }
    }
}

/// A copy to remove.
#[derive(Clone, Debug, PartialEq, Eq)]
pub struct RemovePlan {
    pub drive_id: String,
    pub path: String,
    pub root: String,
    pub abs: String,
    /// The directory whose manifest has to be reconciled.
    pub dir: Option<String>,
}

/// What a [`RemovePlan`] holds.
#[verifier::ext_equal]
pub struct RemoveView {
    pub drive_id: Seq<char>,
    pub path: Seq<char>,
    pub root: Seq<char>,
    pub abs: Seq<char>,
    pub dir: Option<Seq<char>>,
}

impl View for RemovePlan {
    type V = RemoveView;

    open spec fn view(&self) -> RemoveView {
        RemoveView {
            drive_id: self.drive_id@,
            path: self.path@,
            root: self.root@,
            abs: self.abs@,
            dir: match self.dir {
                Some(d) => Some(d@),
                None => None,
            },
        }
    }
}

pub open spec fn remove_views(v: Seq<RemovePlan>) -> Seq<RemoveView> {
    v.map_values(|p: RemovePlan| p@)
}

/// How to keep one copy of a content.
#[derive(Clone, Debug)]
pub struct KeepPlan {
    pub keep_abs: String,
    pub removals: Vec<RemovePlan>,
    pub skipped_offline: usize,
}

/// The copy is the one to keep.
pub open spec fn is_kept(l: ResolvedLoc, drive: Seq<char>, path: Seq<char>) -> bool {
    l.drive_id@ == drive && l.path@ == path
}

/// The first copy that is the one to keep.
pub open spec fn kept_at(locs: Seq<ResolvedLoc>, drive: Seq<char>, path: Seq<char>) -> Option<
    ResolvedLoc,
>
    decreases locs.len(),
{
    if locs.len() == 0 {
        None
    } else if is_kept(locs[0], drive, path) {
        Some(locs[0])
    } else {
        kept_at(locs.skip(1), drive, path)
    }
}

/// The removal of a copy.
pub open spec fn removal_of(l: ResolvedLoc) -> RemoveView {
    let abs = joined_path(l.last_root@, l.path@);
    RemoveView {
        drive_id: l.drive_id@,
        path: l.path@,
        root: l.last_root@,
        abs,
        dir: parent_of(abs),
    }
}

/// The copies to remove: all on drives that are there, but the one to keep.
pub open spec fn removals_of(locs: Seq<ResolvedLoc>, drive: Seq<char>, path: Seq<char>) -> Seq<
    RemoveView,
>
    decreases locs.len(),
{
    if locs.len() == 0 {
        Seq::empty()
    } else {
        let before = removals_of(locs.drop_last(), drive, path);
        let l = locs.last();
        if is_kept(l, drive, path) || !l.online {
            before
        } else {
            before.push(removal_of(l))
        }
    }
}

/// The number of other copies on drives that are not there.
pub open spec fn offline_others(locs: Seq<ResolvedLoc>, drive: Seq<char>, path: Seq<char>) -> nat
    decreases locs.len(),
{
    if locs.len() == 0 {
        0
    } else {
        let l = locs.last();
        offline_others(locs.drop_last(), drive, path) + if !is_kept(l, drive, path) && !l.online {
            1nat
        } else {
            0
        }
    }
}

fn is_the_kept(l: &ResolvedLoc, drive: &str, path: &str) -> (r: bool)
    ensures
        r == is_kept(*l, drive@, path@),
{
    text_eq(l.drive_id.as_str(), drive) && text_eq(l.path.as_str(), path)
}

/// Plans to keep one copy of a content and to remove the others that are there.
pub fn dedup_keep(locs: &Vec<ResolvedLoc>, keep_drive: &str, keep_path: &str) -> (r: Result<
    KeepPlan,
    KeepError,
>)
    ensures
        match kept_at(locs@, keep_drive@, keep_path@) {
            None => r matches Err(KeepError::NotFound { drive, path }) && drive@ == keep_drive@
                && path@ == keep_path@,
            Some(k) => if !k.online {
                r == Err::<KeepPlan, KeepError>(KeepError::Offline)
            } else {
                r matches Ok(p) && p.keep_abs@ == joined_path(k.last_root@, k.path@)
                    && remove_views(p.removals@) == removals_of(locs@, keep_drive@, keep_path@)
                    && p.skipped_offline == offline_others(locs@, keep_drive@, keep_path@)
            },
        },
{
    let n: usize = locs.len();
    let mut i: usize = 0;
    assert(locs@.skip(0) =~= locs@);
    while i < n && !is_the_kept(&locs[i], keep_drive, keep_path)
        invariant
            n == locs@.len(),
            i <= n,
            kept_at(locs@, keep_drive@, keep_path@) == kept_at(
                locs@.skip(i as int),
                keep_drive@,
                keep_path@,
            ),
        decreases n - i,
    {
        assert(locs@.skip(i as int)[0] == locs@[i as int]);
        assert(locs@.skip(i as int).skip(1) =~= locs@.skip(i + 1));
        i += 1;
    }
    if i == n {
        return Err(
            KeepError::NotFound { drive: keep_drive.to_owned(), path: keep_path.to_owned() },
        );
    }
    assert(locs@.skip(i as int)[0] == locs@[i as int]);
    if !locs[i].online {
        return Err(KeepError::Offline);
    }
    let keep_abs: String = join(locs[i].last_root.as_str(), locs[i].path.as_str());
    let mut removals: Vec<RemovePlan> = Vec::new();
    let mut skipped: usize = 0;
    let mut j: usize = 0;
    assert(remove_views(removals@) =~= removals_of(locs@.take(0), keep_drive@, keep_path@));
    while j < n
        invariant
            n == locs@.len(),
            j <= n,
            skipped <= j,
            remove_views(removals@) == removals_of(
                locs@.take(j as int),
                keep_drive@,
                keep_path@,
            ),
            skipped == offline_others(locs@.take(j as int), keep_drive@, keep_path@),
        decreases n - j,
    {
        let l: &ResolvedLoc = &locs[j];
        proof {
            assert(locs@.take(j + 1).drop_last() =~= locs@.take(j as int));
            assert(locs@.take(j + 1).last() == *l);
        }
        if !is_the_kept(l, keep_drive, keep_path) {
            if !l.online {
                skipped = skipped + 1;
            } else {
                let abs: String = join(l.last_root.as_str(), l.path.as_str());
                let dir: Option<String> = parent(abs.as_str());
                let plan: RemovePlan = RemovePlan {
                    drive_id: l.drive_id.clone(),
                    path: l.path.clone(),
                    root: l.last_root.clone(),
                    abs,
                    dir,
                };
                assert(plan@ == removal_of(*l));
                assert(remove_views(removals@.push(plan)) =~= remove_views(removals@).push(plan@));
                removals.push(plan);
            }
        }
        j += 1;
    }
    assert(locs@.take(n as int) =~= locs@);
    Ok(KeepPlan { keep_abs, removals, skipped_offline: skipped })
}

/// The directories of some removals, each with the root of its drive.
pub open spec fn dirs_with_roots(removals: Seq<RemoveView>) -> Seq<(Seq<char>, PathId)>
    decreases removals.len(),
{
    if removals.len() == 0 {
        Seq::empty()
    } else {
        let before = dirs_with_roots(removals.drop_last());
        match removals.last().dir {
            Some(d) => before.push((removals.last().root, path_id(d))),
            None => before,
        }
    }
}

/// How each of the directories is written first.
pub open spec fn dirs_written(removals: Seq<RemoveView>) -> Map<(Seq<char>, PathId), Seq<char>>
    decreases removals.len(),
{
    if removals.len() == 0 {
        Map::empty()
    } else {
        let before = dirs_written(removals.drop_last());
        match removals.last().dir {
            Some(d) if !before.dom().contains(
                (removals.last().root, path_id(d)),
            ) => before.insert((removals.last().root, path_id(d)), d),
            _ => before,
        }
    }
}

proof fn lemma_dirs_written(removals: Seq<RemoveView>, k: (Seq<char>, PathId))
    ensures
        dirs_written(removals).dom().contains(k) <==> dirs_with_roots(removals).contains(k),
    decreases removals.len(),
{
    let list = dirs_with_roots(removals);
    if removals.len() > 0 {
        let before = dirs_with_roots(removals.drop_last());
        lemma_dirs_written(removals.drop_last(), k);
        if let Some(d) = removals.last().dir {
            assert(list[list.len() - 1] == (removals.last().root, path_id(d)));
            if before.contains(k) {
                let i = choose|i: int| 0 <= i < before.len() && before[i] == k;
                assert(list[i] == k);
            }
            if list.contains(k) && k != list.last() {
                let i = choose|i: int| 0 <= i < list.len() && list[i] == k;
                assert(before[i] == k);
            }
        }
    }
}

/// The views of some pairs of a root and a directory.
pub open spec fn rooted_views(v: Seq<(String, String)>) -> Seq<(Seq<char>, Seq<char>)> {
    v.map_values(|p: (String, String)| (p.0@, p.1@))
}

/// The directories to reconcile once the copies are removed, each once, with the root of
/// its drive: by root, then by path.
pub fn dirs_to_reconcile(plan: &KeepPlan) -> (r: Vec<(String, String)>)
    ensures
        ({
            let removals = remove_views(plan.removals@);
            rooted_views(r@) == members::<RootedKey>(dirs_with_roots(removals)).map_values(
                |k: (Seq<char>, PathId)| (k.0, dirs_written(removals)[k]),
            )
        }),
{
    let ghost rv = remove_views(plan.removals@);
    let mut dirs: OrdMap<RootedKey, String> = OrdMap::new();
    let mut i: usize = 0;
    assert(rv.take(0) =~= Seq::<RemoveView>::empty());
    while i < plan.removals.len()
        invariant
            i <= plan.removals@.len(),
            rv == remove_views(plan.removals@),
            dirs@ == dirs_written(rv.take(i as int)),
        decreases plan.removals@.len() - i,
    {
        let p: &RemovePlan = &plan.removals[i];
        proof {
            assert(rv[i as int] == p@);
            assert(rv.take(i + 1).drop_last() =~= rv.take(i as int));
            assert(rv.take(i + 1).last() == p@);
        }
        if let Some(d) = &p.dir {
            let key: RootedKey = RootedKey { root: p.root.clone(), path: PathKey::of(d.as_str()) };
            if !dirs.contains(&key) {
                dirs.insert(key, d.clone());
            }
        }
        i += 1;
    }
    assert(rv.take(rv.len() as int) =~= rv);
    let n: usize = dirs.len();
    let ghost keys = dirs.keys();
    proof {
        let list = dirs_with_roots(rv);
        assert forall|k: (Seq<char>, PathId)| keys.contains(k) <==> members::<RootedKey>(
            list,
        ).contains(k) by {
            lemma_dirs_written(rv, k);
            law_members_are_listed::<RootedKey>(list);
            assert(dirs@.dom().contains(k) <==> keys.contains(k));
        }
        law_members_are_listed::<RootedKey>(list);
        law_lists_in_order_are_sets::<RootedKey>(keys, members::<RootedKey>(list));
    }
    let ghost all = keys.map_values(|k: (Seq<char>, PathId)| (k.0, dirs_written(rv)[k]));
    let mut out: Vec<(String, String)> = Vec::new();
    let mut j: usize = 0;
    while j < n
        invariant
            n == keys.len(),
            j <= n,
            keys == dirs.keys(),
            dirs@ == dirs_written(rv),
            all == keys.map_values(|k: (Seq<char>, PathId)| (k.0, dirs_written(rv)[k])),
            out@.len() == j,
            forall|k: int| 0 <= k < j ==> ((#[trigger] out@[k]).0@, out@[k].1@) == all[k],
        decreases n - j,
    {
        out.push((dirs.key_at(j).root.clone(), dirs.value_at(j).clone()));
        j += 1;
    }
    assert(rooted_views(out@) =~= all);
    out
}

/// `drive:path`.
pub open spec fn location_text(drive: Seq<char>, path: Seq<char>) -> Seq<char> {
    drive + ":"@ + path
}

/// What came of keeping one copy, once the others were removed.
pub fn dedup_outcome(keep_drive: &str, keep_path: &str, plan: &KeepPlan) -> (r: DedupOutcome)
    ensures
        r.kept@ == location_text(keep_drive@, keep_path@),
        views(r.removed@) == remove_views(plan.removals@).map_values(
            |p: RemoveView| location_text(p.drive_id, p.path),
        ),
        r.skipped_offline == plan.skipped_offline,
{
    let mut removed: Vec<String> = Vec::new();
    let mut i: usize = 0;
    while i < plan.removals.len()
        invariant
            i <= plan.removals@.len(),
            removed@.len() == i,
            forall|k: int|
                0 <= k < i ==> (#[trigger] removed@[k])@ == location_text(
                    plan.removals@[k].drive_id@,
                    plan.removals@[k].path@,
                ),
        decreases plan.removals@.len() - i,
    {
        let p: &RemovePlan = &plan.removals[i];
        removed.push(concat3(p.drive_id.as_str(), ":", p.path.as_str()));
        i += 1;
    }
    assert(views(removed@) =~= remove_views(plan.removals@).map_values(
        |p: RemoveView| location_text(p.drive_id, p.path),
    ));
    DedupOutcome {
        kept: concat3(keep_drive, ":", keep_path),
        removed,
        skipped_offline: plan.skipped_offline,
    }
}

/// The options of the scan that reconciles a directory after a removal. The
/// algorithm is that of the content, so that the other files keep their hashes.
pub fn dedup_scan_opts(algo: &str) -> (r: ScanOptions)
    ensures
        r.algo == (if algo@ == algo_name(HashAlgo::Sha256) {
            HashAlgo::Sha256
        } else {
            HashAlgo::Blake3
        }),
        !r.follow_symlinks,
        r.excludes@.len() == 0,
        r.ignores@.len() == 0,
        r.quiet,
        !r.verbose,
        !r.status,
        r.skip_apple_double,
        !r.dry_run,
{
    let algo: HashAlgo = if text_eq(algo, HashAlgo::Sha256.name()) {
        HashAlgo::Sha256
    } else {
        HashAlgo::Blake3
    };
    crate::options::fileop_scan_opts(algo, true, Vec::new())
}

/// Whether there are enough contents to link.
pub fn can_link(count: usize) -> (r: bool)
    ensures
        r == (count >= 2),
{
    count >= 2
}

/// Where a thumbnail comes from.
#[derive(Clone, Copy, Debug, PartialEq, Eq, Structural)]
pub enum ThumbSource {
    /// It is there.
    Ready,
    /// It has to be made.
    Make,
}

/// Where a thumbnail comes from: it is there only if the index says so and the file
/// is there too.
pub fn thumb(has_thumb: bool, file_there: bool) -> (r: ThumbSource)
    ensures
        r == (if has_thumb && file_there {
            ThumbSource::Ready
        } else {
            ThumbSource::Make
        }),
{
    if has_thumb && file_there {
        ThumbSource::Ready
    } else {
        ThumbSource::Make
    }
}

/// The copy to keep is never removed, and neither is one on a drive that is not
/// there: each removal is of another copy that is there.
pub proof fn law_kept_copy_is_not_removed(
    locs: Seq<ResolvedLoc>,
    drive: Seq<char>,
    path: Seq<char>,
    i: int,
)
    requires
        0 <= i < removals_of(locs, drive, path).len(),
    ensures
        ({
            let r = removals_of(locs, drive, path)[i];
            &&& !(r.drive_id == drive && r.path == path)
            &&& exists|j: int| 0 <= j < locs.len() && (#[trigger] locs[j]).online && removal_of(
                locs[j],
            ) == r
        }),
    decreases locs.len(),
{
    let init = locs.drop_last();
    let before = removals_of(init, drive, path);
    if i < before.len() {
        law_kept_copy_is_not_removed(init, drive, path, i);
        let j = choose|j: int|
            0 <= j < init.len() && (#[trigger] init[j]).online && removal_of(init[j]) == before[i];
        assert(locs[j] == init[j]);
    } else {
        assert(locs[locs.len() - 1].online);
    }
}

/// Every copy is kept, removed or counted as not there.
pub proof fn law_every_copy_is_accounted_for(
    locs: Seq<ResolvedLoc>,
    drive: Seq<char>,
    path: Seq<char>,
)
    ensures
        removals_of(locs, drive, path).len() + offline_others(locs, drive, path) + kept_count(
            locs,
            drive,
            path,
        ) == locs.len(),
    decreases locs.len(),
{
    if locs.len() > 0 {
        law_every_copy_is_accounted_for(locs.drop_last(), drive, path);
    }
}

/// The number of entries for the copy to keep.
pub open spec fn kept_count(locs: Seq<ResolvedLoc>, drive: Seq<char>, path: Seq<char>) -> nat
    decreases locs.len(),
{
    if locs.len() == 0 {
        0
    } else {
        kept_count(locs.drop_last(), drive, path) + if is_kept(locs.last(), drive, path) {
            1nat
        } else {
            0
        }
    }
}

/// Every other copy on a drive that is there is removed, by its drive and its path,
/// where the drive was last seen; its directory is looked at again.
pub proof fn law_online_copies_are_removed(
    locs: Seq<ResolvedLoc>,
    drive: Seq<char>,
    path: Seq<char>,
    i: int,
)
    requires
        0 <= i < locs.len(),
        locs[i].online,
        locs[i].drive_id@ != drive || locs[i].path@ != path,
    ensures
        exists|k: int|
            0 <= k < removals_of(locs, drive, path).len() && {
                let r = #[trigger] removals_of(locs, drive, path)[k];
                &&& r.drive_id == locs[i].drive_id@
                &&& r.path == locs[i].path@
                &&& r.root == locs[i].last_root@
                &&& r.abs == joined_path(locs[i].last_root@, locs[i].path@)
                &&& r.dir == parent_of(joined_path(locs[i].last_root@, locs[i].path@))
            },
    decreases locs.len(),
{
    let init = locs.drop_last();
    let (before, all) = (removals_of(init, drive, path), removals_of(locs, drive, path));
    if i < init.len() {
        assert(init[i] == locs[i]);
        law_online_copies_are_removed(init, drive, path, i);
        let k = choose|k: int|
            0 <= k < before.len() && {
                let r = #[trigger] before[k];
                &&& r.drive_id == init[i].drive_id@
                &&& r.path == init[i].path@
                &&& r.root == init[i].last_root@
                &&& r.abs == joined_path(init[i].last_root@, init[i].path@)
                &&& r.dir == parent_of(joined_path(init[i].last_root@, init[i].path@))
            };
        assert(all[k] == before[k]);
    } else {
        assert(all[before.len() as int] == removal_of(locs[i]));
    }
}

/// The copy to keep is one of the copies, at its drive and path: it is found exactly
/// where there is one.
pub proof fn law_kept_copy_is_found(locs: Seq<ResolvedLoc>, drive: Seq<char>, path: Seq<char>, i: int)
    requires
        0 <= i < locs.len(),
    ensures
        locs[i].drive_id@ == drive && locs[i].path@ == path ==> kept_at(locs, drive, path) is Some,
        kept_at(locs, drive, path) matches Some(k) ==> k.drive_id@ == drive && k.path@ == path
            && locs.contains(k),
        kept_at(Seq::empty(), drive, path) is None,
    decreases locs.len(),
{
    let rest = locs.skip(1);
    if i > 0 {
        assert(rest[i - 1] == locs[i]);
        law_kept_copy_is_found(rest, drive, path, i - 1);
    } else if rest.len() > 0 {
        law_kept_copy_is_found(rest, drive, path, 0);
    }
    if let Some(k) = kept_at(rest, drive, path) {
        if rest.len() > 0 {
            let x = choose|x: int| 0 <= x < rest.len() && rest[x] == k;
            assert(locs[x + 1] == k);
        }
    }
    assert(locs.contains(locs[0]));
}

/// Removing duplicates is refused exactly where the copy to keep is not known, or is on
/// a drive that is not there; it never removes the copy that is kept.
pub proof fn law_keeping_needs_the_copy(
    locs: &Vec<ResolvedLoc>,
    drive: &str,
    path: &str,
    r: Result<KeepPlan, KeepError>,
)
    requires
        call_ensures(dedup_keep, (locs, drive, path), r),
    ensures
        r is Ok <==> kept_at(locs@, drive@, path@) is Some && kept_at(locs@, drive@, path@)->0.online,
        r is Ok ==> r->Ok_0.keep_abs@ == joined_path(
            kept_at(locs@, drive@, path@)->0.last_root@,
            kept_at(locs@, drive@, path@)->0.path@,
        ),
        r is Ok ==> forall|k: int|
            0 <= k < r->Ok_0.removals@.len() ==> !((#[trigger] r->Ok_0.removals@[k]).drive_id@
                == drive@ && r->Ok_0.removals@[k].path@ == path@),
{
    if r is Ok {
        let all = remove_views(r->Ok_0.removals@);
        assert forall|k: int| 0 <= k < r->Ok_0.removals@.len() implies !((
        #[trigger] r->Ok_0.removals@[k]).drive_id@ == drive@ && r->Ok_0.removals@[k].path@
            == path@) by {
            assert(all[k] == r->Ok_0.removals@[k]@);
            law_kept_copy_is_not_removed(locs@, drive@, path@, k);
        }
    }
}

/// A directory that a copy was removed from is looked at again, with the root that the
/// copy was below; no other is.
pub proof fn law_directories_of_removals(
    removals: Seq<RemoveView>,
    root: Seq<char>,
    id: PathId,
)
    ensures
        dirs_with_roots(removals).contains((root, id)) <==> exists|i: int|
            0 <= i < removals.len() && (#[trigger] removals[i]).root == root && removals[i].dir
                is Some && path_id(removals[i].dir->0) == id,
    decreases removals.len(),
{
    if removals.len() > 0 {
        let init = removals.drop_last();
        let n = init.len() as int;
        let (before, all) = (dirs_with_roots(init), dirs_with_roots(removals));
        law_directories_of_removals(init, root, id);
        assert(removals[n] == removals.last());
        if all.contains((root, id)) {
            let x = choose|x: int| 0 <= x < all.len() && all[x] == (root, id);
            if x < before.len() {
                assert(before[x] == (root, id));
                let i = choose|i: int|
                    0 <= i < init.len() && (#[trigger] init[i]).root == root && init[i].dir is Some
                        && path_id(init[i].dir->0) == id;
                assert(removals[i] == init[i]);
            }
        }
        if exists|i: int|
            0 <= i < removals.len() && (#[trigger] removals[i]).root == root && removals[i].dir
                is Some && path_id(removals[i].dir->0) == id {
            let i = choose|i: int|
                0 <= i < removals.len() && (#[trigger] removals[i]).root == root && removals[i].dir
                    is Some && path_id(removals[i].dir->0) == id;
            if i < n {
                assert(init[i] == removals[i]);
                let x = choose|x: int| 0 <= x < before.len() && before[x] == (root, id);
                assert(all[x] == (root, id));
            } else {
                assert(all[before.len() as int] == (root, id));
            }
        }
    }
}

/// A thumbnail is served as it is where it was made and is still there; a link needs
/// two contents; a directory is reconciled with the algorithm of the removed content.
pub proof fn law_thumbs_links_and_algorithms(
    has_thumb: bool,
    file_there: bool,
    source: ThumbSource,
    count: usize,
    linked: bool,
    algo: &str,
    opts: ScanOptions,
)
    requires
        call_ensures(thumb, (has_thumb, file_there), source),
        call_ensures(can_link, (count,), linked),
        call_ensures(dedup_scan_opts, (algo,), opts),
    ensures
        source == ThumbSource::Ready <==> has_thumb && file_there,
        linked <==> count > 1,
        algo@ == "sha256"@ ==> opts.algo == HashAlgo::Sha256,
        algo@ != "sha256"@ ==> opts.algo == HashAlgo::Blake3,
        opts.quiet && opts.skip_apple_double && !opts.dry_run && !opts.follow_symlinks,
        opts.ignores@.len() == 0 && opts.excludes@.len() == 0,
{
}

/// What was done is told with the kept copy and each removed one, by drive and path, and
/// with how many could not be reached.
pub proof fn law_outcome_names_the_copies(
    drive: &str,
    path: &str,
    plan: &KeepPlan,
    r: DedupOutcome,
    i: int,
)
    requires
        call_ensures(dedup_outcome, (drive, path, plan), r),
    ensures
        r.kept@ == drive@ + ":"@ + path@,
        r.removed@.len() == plan.removals@.len(),
        0 <= i < plan.removals@.len() ==> r.removed@[i]@ == plan.removals@[i].drive_id@ + ":"@
            + plan.removals@[i].path@,
        r.skipped_offline == plan.skipped_offline,
{
    let (a, b) = (
        views(r.removed@),
        remove_views(plan.removals@).map_values(
            |p: RemoveView| location_text(p.drive_id, p.path),
        ),
    );
    assert(a.len() == r.removed@.len() && b.len() == plan.removals@.len());
    if 0 <= i < plan.removals@.len() {
        assert(a[i] == r.removed@[i]@);
        assert(b[i] == location_text(plan.removals@[i].drive_id@, plan.removals@[i].path@));
    }
}

/// The client is told which copy was not found, and when its drive is offline.
pub proof fn law_client_is_told_why(e: &KeepError, r: String)
    requires
        call_ensures(KeepError::message, (e,), r),
    ensures
        *e matches KeepError::NotFound { drive, path } ==> has_part(
            r@,
            drive@ + ":"@ + path@,
        ),
        *e is Offline ==> has_part(r@, "offline"@),
{
    match *e {
        KeepError::NotFound { drive, path } => {
            let a = "keep location "@;
            let part = drive@ + ":"@ + path@;
            assert(r@ =~= a + part + " not found"@);
            assert(r@.subrange(a.len() as int, (a.len() + part.len()) as int) =~= part);
        },
        KeepError::Offline => {
            reveal_strlit("the drive holding the kept copy is offline");
            reveal_strlit("offline");
            let n = r@.len() as int;
            assert(r@.subrange(n - 7, n) =~= "offline"@);
        },
    }
}

/// The text has the other in it.
pub open spec fn has_part(s: Seq<char>, part: Seq<char>) -> bool {
    exists|i: int, j: int| 0 <= i <= j <= s.len() && #[trigger] s.subrange(i, j) == part
}

} // verus!
