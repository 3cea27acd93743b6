//! Copying what one tree has and the other lacks.
use vstd::prelude::*;

use crate::diff::{only_in, to_groups, one_side_views, GroupOut, HashIndex, OneSide};
use crate::fileops::{carried, staged_for, with_staged, State};
use crate::manifest::{EntryView, FileEntry};
use crate::number::{decimal, law_decimal_reads_back, u64_text, usize_text};
use crate::pathmap::{path_id, with_path, PathId};
use crate::paths::{
    ext_of_name, file_name, file_name_of, is_under, join, joined_path, law_stem_and_extension,
    name_extension, name_stem,
    parent, parent_of, relative_or_whole, relative_to_or_whole, stem_of_name, under,
};
use crate::text::{concat2, text_eq, views};

verus! {

#[derive(Clone, Copy, Debug, PartialEq, Eq, Structural)]
pub enum Direction {
    /// From the first tree to the second.
    To,
    /// From the second tree to the first.
    From,
    /// Both ways.
    Both,
}

pub struct SyncOptions {
    pub direction: Direction,
    /// Scan both trees before comparing.
    pub scan_first: bool,
    pub dry_run: bool,
}

/// The name of the `n`-th try for a name: `_n` behind its stem.
pub open spec fn numbered_name(name: Seq<char>, n: nat) -> Seq<char> {
    let stem = stem_of_name(name) + "_"@ + decimal(n);
    match ext_of_name(name) {
        Some(e) => stem + "."@ + e,
        None => stem,
    }
}

/// The `n`-th try for the place of a file below a root: its own path first, then
/// numbered names in the same directory.
pub open spec fn dest_try(dst_root: Seq<char>, rel: Seq<char>, n: nat) -> Seq<char> {
    let initial = joined_path(dst_root, rel);
    if n == 0 {
        initial
    } else {
        let dir = match parent_of(initial) {
            Some(d) => d,
            None => dst_root,
        };
        let name = match file_name_of(initial) {
            Some(f) => f,
            None => Seq::empty(),
        };
        joined_path(dir, numbered_name(name, n))
    }
}

/// The `n`-th try for the place of a file below a root. The first that is not taken
/// is the place to copy to.
pub fn unique_dest(dst_root: &str, rel: &str, n: u64) -> (r: String)
    ensures
        r@ == dest_try(dst_root@, rel@, n as nat),
{
    let initial: String = join(dst_root, rel);
    if n == 0 {
        return initial;
    }
    let dir: String = match parent(initial.as_str()) {
        Some(d) => d,
        None => dst_root.to_owned(),
    };
    let name: String = match file_name(initial.as_str()) {
        Some(f) => f,
        None => {
            let none: String = String::new();
            assert(none@ =~= Seq::<char>::empty());
            none
        },
    };
    let mut numbered: String = name_stem(name.as_str());
    numbered.append("_");
    numbered.append(u64_text(n).as_str());
    if let Some(e) = name_extension(name.as_str()) {
        numbered.append(".");
        numbered.append(e.as_str());
    }
    assert(numbered@ == numbered_name(name@, n as nat));
    join(dir.as_str(), numbered.as_str())
}

/// What to do with a try for the place of a file.
#[derive(Clone, Debug, PartialEq, Eq)]
pub enum DestStep {
    /// Copy to this path.
    Take(String),
    /// Look at the try with this number.
    Next(u64),
    /// There are no more numbers.
    Exhausted,
}

/// What a [`DestStep`] holds.
pub enum DestStepView {
    Take(Seq<char>),
    Next(u64),
    Exhausted,
}

impl View for DestStep {
    type V = DestStepView;

    open spec fn view(&self) -> DestStepView {
        match *self {
            DestStep::Take(p) => DestStepView::Take(p@),
            DestStep::Next(n) => DestStepView::Next(n),
            DestStep::Exhausted => DestStepView::Exhausted,
        }
    }
}

/// A try that is free is taken; behind one that is not comes the next number.
pub open spec fn dest_step_of(
    dst_root: Seq<char>,
    rel: Seq<char>,
    n: u64,
    taken: bool,
) -> DestStepView {
    if !taken {
        DestStepView::Take(dest_try(dst_root, rel, n as nat))
    } else if n < u64::MAX {
        DestStepView::Next((n + 1) as u64)
    } else {
        DestStepView::Exhausted
    }
}

/// Decides on the `n`-th try for the place of a file, which something is at or not.
pub fn dest_step(dst_root: &str, rel: &str, n: u64, taken: bool) -> (r: DestStep)
    ensures
        r@ == dest_step_of(dst_root@, rel@, n, taken),
{
    if !taken {
        DestStep::Take(unique_dest(dst_root, rel, n))
    } else if n < u64::MAX {
        DestStep::Next(n + 1)
    } else {
        DestStep::Exhausted
    }
}

/// The path that the steps from the `n`-th try on end with, where something is at the
/// paths of `existing` and at no others.
pub open spec fn dest_found(
    dst_root: Seq<char>,
    rel: Seq<char>,
    existing: Set<Seq<char>>,
    n: u64,
) -> Option<Seq<char>>
    decreases u64::MAX - n,
{
    let taken = existing.contains(dest_try(dst_root, rel, n as nat));
    match dest_step_of(dst_root, rel, n, taken) {
        DestStepView::Take(p) => Some(p),
        DestStepView::Next(m) => if n < m {
            dest_found(dst_root, rel, existing, m)
        } else {
            None
        },
        DestStepView::Exhausted => None,
    }
}

/// The `n`-th try is free, and all before it are taken.
pub open spec fn is_first_free(
    dst_root: Seq<char>,
    rel: Seq<char>,
    existing: Set<Seq<char>>,
    n: nat,
) -> bool {
    &&& !existing.contains(dest_try(dst_root, rel, n))
    &&& forall|m: nat| m < n ==> existing.contains(#[trigger] dest_try(dst_root, rel, m))
}

/// The files of some contents, in order.
pub open spec fn files_of(groups: Seq<OneSide>) -> Seq<Seq<char>>
    decreases groups.len(),
{
    if groups.len() == 0 {
        Seq::empty()
    } else {
        files_of(groups.drop_last()) + groups.last().files
    }
}

/// The files of one side whose content the other side lacks, in order.
pub fn missing_files(src: &HashIndex, dst: &HashIndex) -> (r: Vec<String>)
    ensures
        views(r@) == files_of(only_in(src.keys(), src@, dst@)),
{
    let groups: Vec<GroupOut> = to_groups(src, dst);
    let ghost gv = one_side_views(groups@);
    let mut out: Vec<String> = Vec::new();
    let mut i: usize = 0;
    assert(views(out@) =~= files_of(gv.take(0)));
    while i < groups.len()
        invariant
            i <= groups@.len(),
            gv == one_side_views(groups@),
            views(out@) == files_of(gv.take(i as int)),
        decreases groups@.len() - i,
    {
        let mut more: Vec<String> = crate::manifest::copy_texts(&groups[i].files);
        let ghost before = out@;
        let ghost add = more@;
        proof {
            assert(gv.take(i + 1).drop_last() =~= gv.take(i as int));
            assert(gv.take(i + 1).last() == groups@[i as int]@);
        }
        out.append(&mut more);
        assert(views(out@) =~= views(before) + views(add));
        i += 1;
    }
    assert(gv.take(gv.len() as int) =~= gv);
    out
}

/// One way of a sync.
#[derive(Clone, Copy, Debug, PartialEq, Eq, Structural)]
pub enum Pass {
    FirstToSecond,
    SecondToFirst,
}

impl Pass {
    /// The heading of the pass.
    pub fn label(self) -> (r: &'static str)
        ensures
            r@ == match self {
                Pass::FirstToSecond => "path1 -> path2"@,
                Pass::SecondToFirst => "path2 -> path1"@,
            },
    {
        match self {
            Pass::FirstToSecond => "path1 -> path2",
            Pass::SecondToFirst => "path2 -> path1",
        }
    }
}

/// The passes of a direction, in order.
pub fn passes(direction: Direction) -> (r: Vec<Pass>)
    ensures
        r@ == match direction {
            Direction::To => seq![Pass::FirstToSecond],
            Direction::From => seq![Pass::SecondToFirst],
            Direction::Both => seq![Pass::FirstToSecond, Pass::SecondToFirst],
        },
{
    let mut out: Vec<Pass> = Vec::new();
    match direction {
        Direction::To => out.push(Pass::FirstToSecond),
        Direction::From => out.push(Pass::SecondToFirst),
        Direction::Both => {
            out.push(Pass::FirstToSecond);
            out.push(Pass::SecondToFirst);
        },
    }
    out
}

/// One file to copy.
#[derive(Debug)]
pub struct CopyPlan {
    pub src_abs: String,
    pub dest: String,
    /// The destination below the target root.
    pub dst_rel: String,
    /// The destination has another name than the source.
    pub renamed: bool,
}

/// Plans the copy of a file to the place that was found for it.
pub fn copy_missing(src_root: &str, dst_root: &str, rel: &str, dest: String) -> (r: CopyPlan)
    ensures
        r.src_abs@ == joined_path(src_root@, rel@),
        r.dest@ == dest@,
        r.dst_rel@ == relative_or_whole(dest@, dst_root@),
        r.renamed == (relative_or_whole(dest@, dst_root@) != rel@),
{
    let dst_rel: String = relative_to_or_whole(dest.as_str(), dst_root);
    let renamed: bool = !text_eq(dst_rel.as_str(), rel);
    CopyPlan { src_abs: join(src_root, rel), dest, dst_rel, renamed }
}

/// What the copies of a sync add up to.
#[derive(Debug)]
pub struct Accum {
    pub copied: usize,
    pub renamed: usize,
    /// The directories to reconcile, and the records to put into their manifests.
    pub state: State,
}

/// The directory that a file is copied to.
pub open spec fn dest_dir(dest: Seq<char>, dst_root: Seq<char>) -> Seq<char> {
    match parent_of(dest) {
        Some(d) => d,
        None => dst_root,
    }
}

/// The name that a file is copied to.
pub open spec fn dest_name(dest: Seq<char>) -> Seq<char> {
    match file_name_of(dest) {
        Some(n) => n,
        None => Seq::empty(),
    }
}

impl Accum {
    pub fn new() -> (r: Accum)
        ensures
            r.copied == 0,
            r.renamed == 0,
            r.state.affected@ == Map::<PathId, Seq<char>>::empty(),
            r.state.staged@ == Map::<PathId, (Seq<char>, Seq<(Seq<char>, EntryView)>)>::empty(),
    {
        Accum { copied: 0, renamed: 0, state: State::new() }
    }

    /// The counts can take one more copy.
    pub open spec fn has_room(&self) -> bool {
        self.copied < usize::MAX && self.renamed < usize::MAX
    }

    /// Whether the counts can take one more copy.
    pub fn can_take(&self) -> (r: bool)
        ensures
            r == self.has_room(),
    {
        self.copied < usize::MAX && self.renamed < usize::MAX
    }

    /// Notes a copy. Its directory has to be reconciled, and the record of the source,
    /// if it has one, goes into the manifest there with the size and modified time
    /// that the copy has on disk. A dry run only counts.
    pub fn note(
        &mut self,
        dst_root: &str,
        plan: &CopyPlan,
        entry: Option<FileEntry>,
        at_target: Option<(u64, u64)>,
        dry_run: bool,
    )
        requires
            old(self).has_room(),
        ensures
            final(self).copied == old(self).copied + 1,
            final(self).renamed == old(self).renamed + (if plan.renamed {
                1int
            } else {
                0
            }),
            final(self).state.affected@ == match parent_of(plan.dest@) {
                Some(d) if !dry_run => with_path(old(self).state.affected@, d),
                _ => old(self).state.affected@,
            },
            final(self).state.staged@ == match entry {
                Some(e) if !dry_run => with_staged(
                    old(self).state.staged@,
                    dest_dir(plan.dest@, dst_root@),
                    dest_name(plan.dest@),
                    carried(e@, at_target),
                ),
                _ => old(self).state.staged@,
            },
    {
        self.copied = self.copied + 1;
        if plan.renamed {
            self.renamed = self.renamed + 1;
        }
        if dry_run {
            return;
        }
        let dir: String = match parent(plan.dest.as_str()) {
            Some(d) => {
                self.state.touch(d.clone());
                d
            },
            None => dst_root.to_owned(),
        };
        if let Some(e) = entry {
            let mut c: FileEntry = e;
            let ghost ev = c@;
            if let Some((size, mtime_ns)) = at_target {
                c.size = size;
                c.mtime_ns = mtime_ns;
            }
            assert(c@ =~= carried(ev, at_target));
            let name: String = match file_name(plan.dest.as_str()) {
                Some(n) => n,
                None => String::new(),
            };
            assert(name@ =~= dest_name(plan.dest@));
            self.state.stage(dir, name, c);
        }
    }
}

/// The line that reports a copy.
pub open spec fn copy_text(
    rel: Seq<char>,
    dst_rel: Seq<char>,
    renamed: bool,
    dry_run: bool,
) -> Seq<char> {
    "  "@ + (if dry_run {
        "would copy"@
    } else {
        "copy"@
    }) + " "@ + rel + "  =>  "@ + dst_rel + (if renamed {
        "  (renamed)"@
    } else {
        ""@
    })
}

/// The line that reports a copy.
pub fn copy_line(rel: &str, plan: &CopyPlan, dry_run: bool) -> (r: String)
    ensures
        r@ == copy_text(rel@, plan.dst_rel@, plan.renamed, dry_run),
{
    let verb: &str = if dry_run {
        "would copy"
    } else {
        "copy"
    };
    let note: &str = if plan.renamed {
        "  (renamed)"
    } else {
        ""
    };
    let mut out: String = concat2("  ", verb);
    out.append(" ");
    out.append(rel);
    out.append("  =>  ");
    out.append(plan.dst_rel.as_str());
    out.append(note);
    out
}

/// The root to reconcile a directory against: the second where it lies under it.
pub fn root_of_dir(dir: &str, first: &str, second: &str) -> (r: String)
    ensures
        r@ == (if is_under(dir@, second@) {
            second@
        } else {
            first@
        }),
{
    if under(dir, second) {
        second.to_owned()
    } else {
        first.to_owned()
    }
}

/// The summary line.
pub fn summary(copied: usize, renamed: usize, dry_run: bool) -> (r: String)
    ensures
        r@ == (if dry_run {
            "dry-run: "@
        } else {
            ""@
        }) + "copied "@ + decimal(copied as nat) + " files ("@ + decimal(renamed as nat)
            + " renamed to avoid collisions)"@,
{
    let mut out: String = if dry_run {
        "dry-run: ".to_owned()
    } else {
        "".to_owned()
    };
    out.append("copied ");
    out.append(usize_text(copied).as_str());
    out.append(" files (");
    out.append(usize_text(renamed).as_str());
    out.append(" renamed to avoid collisions)");
    out
}

/// Different tries have different names, so that a search among them ends.
pub proof fn law_numbered_names_differ(name: Seq<char>, m: nat, n: nat)
    requires
        m != n,
    ensures
        numbered_name(name, m) != numbered_name(name, n),
{
    let (a, b) = (numbered_name(name, m), numbered_name(name, n));
    let stem = stem_of_name(name) + "_"@;
    let tail = match ext_of_name(name) {
        Some(e) => "."@ + e,
        None => Seq::empty(),
    };
    assert(a =~= stem + decimal(m) + tail);
    assert(b =~= stem + decimal(n) + tail);
    if a == b {
        let k = stem.len() as int;
        assert(decimal(m).len() == decimal(n).len());
        assert(a.subrange(k, k + decimal(m).len()) =~= decimal(m));
        assert(b.subrange(k, k + decimal(n).len()) =~= decimal(n));
        law_decimal_reads_back(m);
        law_decimal_reads_back(n);
    }
}

proof fn lemma_search(
    dst_root: Seq<char>,
    rel: Seq<char>,
    existing: Set<Seq<char>>,
    n: u64,
)
    requires
        forall|m: nat| m < n ==> existing.contains(#[trigger] dest_try(dst_root, rel, m)),
    ensures
        match dest_found(dst_root, rel, existing, n) {
            Some(p) => exists|k: u64|
                n <= k && p == dest_try(dst_root, rel, k as nat) && #[trigger] is_first_free(
                    dst_root,
                    rel,
                    existing,
                    k as nat,
                ),
            None => forall|m: nat|
                m <= u64::MAX ==> existing.contains(#[trigger] dest_try(dst_root, rel, m)),
        },
    decreases u64::MAX - n,
{
    if existing.contains(dest_try(dst_root, rel, n as nat)) {
        if n < u64::MAX {
            lemma_search(dst_root, rel, existing, (n + 1) as u64);
        }
    } else {
        assert(is_first_free(dst_root, rel, existing, n as nat));
    }
}

/// The steps from the first try on end with the least that is free: never with a path
/// that something is at, and with the path of its own where nothing is there. They end
/// without one only where all tries are taken.
pub proof fn law_least_free_place_is_taken(
    dst_root: Seq<char>,
    rel: Seq<char>,
    existing: Set<Seq<char>>,
)
    ensures
        match dest_found(dst_root, rel, existing, 0) {
            Some(p) => !existing.contains(p) && exists|n: u64|
                p == dest_try(dst_root, rel, n as nat) && #[trigger] is_first_free(
                    dst_root,
                    rel,
                    existing,
                    n as nat,
                ),
            None => forall|m: nat|
                m <= u64::MAX ==> existing.contains(#[trigger] dest_try(dst_root, rel, m)),
        },
        !existing.contains(joined_path(dst_root, rel)) ==> dest_found(dst_root, rel, existing, 0)
            == Some(joined_path(dst_root, rel)),
        forall|n: u64|
            #[trigger] is_first_free(dst_root, rel, existing, n as nat) ==> dest_found(
                dst_root,
                rel,
                existing,
                0,
            ) == Some(dest_try(dst_root, rel, n as nat)),
{
    lemma_search(dst_root, rel, existing, 0);
    assert forall|n: u64| #[trigger] is_first_free(dst_root, rel, existing, n as nat) implies
        dest_found(dst_root, rel, existing, 0) == Some(dest_try(dst_root, rel, n as nat)) by {
        assert(!existing.contains(dest_try(dst_root, rel, n as nat)));
        let p = dest_found(dst_root, rel, existing, 0)->0;
        let k = choose|k: u64|
            p == dest_try(dst_root, rel, k as nat) && #[trigger] is_first_free(
                dst_root,
                rel,
                existing,
                k as nat,
            );
        assert(!existing.contains(dest_try(dst_root, rel, k as nat)));
        if k < n {
            assert(existing.contains(dest_try(dst_root, rel, k as nat)));
        } else if n < k {
            assert(existing.contains(dest_try(dst_root, rel, n as nat)));
        }
    }
}

/// Once the target has every content that it lacked, nothing is missing any more: a
/// second sync copies nothing.
pub proof fn law_synced_target_lacks_nothing(
    keys: Seq<(Seq<char>, Seq<char>)>,
    src: Map<(Seq<char>, Seq<char>), Seq<Seq<char>>>,
    before: Map<(Seq<char>, Seq<char>), Seq<Seq<char>>>,
    after: Map<(Seq<char>, Seq<char>), Seq<Seq<char>>>,
)
    requires
        before.dom().subset_of(after.dom()),
        forall|i: int|
            0 <= i < only_in(keys, src, before).len() ==> after.dom().contains(
                (
                    (#[trigger] only_in(keys, src, before)[i]).algo,
                    only_in(keys, src, before)[i].hash,
                ),
            ),
    ensures
        only_in(keys, src, after).len() == 0,
        files_of(only_in(keys, src, after)).len() == 0,
    decreases keys.len(),
{
    if keys.len() > 0 {
        let init = keys.drop_last();
        let k = keys.last();
        let all = only_in(keys, src, before);
        let rest = only_in(init, src, before);
        assert forall|i: int| 0 <= i < rest.len() implies after.dom().contains(
            ((#[trigger] rest[i]).algo, rest[i].hash),
        ) by {
            assert(all[i] == rest[i]);
        }
        law_synced_target_lacks_nothing(init, src, before, after);
        if !before.dom().contains(k) {
            assert(all[all.len() - 1].algo == k.0);
            assert((k.0, k.1) == k);
        }
    }
}

/// A numbered name has its number behind its stem and before its extension.
pub proof fn law_number_stands_behind_the_stem(stem: Seq<char>, ext: Seq<char>, n: nat)
    requires
        !ext.contains('.'),
    ensures
        stem.len() > 0 ==> numbered_name(stem + seq!['.'] + ext, n) == stem + seq!['_'] + decimal(n)
            + seq!['.'] + ext,
        numbered_name(ext, n) == ext + seq!['_'] + decimal(n),
{
    reveal_strlit("_");
    reveal_strlit(".");
    assert("_"@ =~= seq!['_']);
    assert("."@ =~= seq!['.']);
    law_stem_and_extension(stem, ext);
}

/// The files to copy are those whose content the target lacks, and no others.
pub proof fn law_missing_files_are_those_of_missing_contents(
    keys: Seq<(Seq<char>, Seq<char>)>,
    src: Map<(Seq<char>, Seq<char>), Seq<Seq<char>>>,
    dst: Map<(Seq<char>, Seq<char>), Seq<Seq<char>>>,
    file: Seq<char>,
)
    ensures
        files_of(only_in(keys, src, dst)).contains(file) <==> exists|i: int|
            0 <= i < keys.len() && !dst.dom().contains(#[trigger] keys[i]) && src[keys[i]].contains(
                file,
            ),
    decreases keys.len(),
{
    if keys.len() > 0 {
        let init = keys.drop_last();
        let n = init.len() as int;
        let (one0, one) = (only_in(init, src, dst), only_in(keys, src, dst));
        let (before, all) = (files_of(one0), files_of(one));
        law_missing_files_are_those_of_missing_contents(init, src, dst, file);
        let k = keys.last();
        assert(keys[n] == k);
        if !dst.dom().contains(k) {
            assert(one.drop_last() =~= one0);
            assert(one.last().files == src[k]);
            assert(all == before + src[k]);
        }
        if all.contains(file) {
            let x = choose|x: int| 0 <= x < all.len() && all[x] == file;
            if x < before.len() {
                assert(before[x] == file);
                let i = choose|i: int|
                    0 <= i < init.len() && !dst.dom().contains(#[trigger] init[i])
                        && src[init[i]].contains(file);
                assert(keys[i] == init[i]);
            } else {
                assert(src[k][x - before.len()] == file);
            }
        }
        if exists|i: int|
            0 <= i < keys.len() && !dst.dom().contains(#[trigger] keys[i]) && src[keys[i]].contains(
                file,
            ) {
            let i = choose|i: int|
                0 <= i < keys.len() && !dst.dom().contains(#[trigger] keys[i])
                    && src[keys[i]].contains(file);
            if i < n {
                assert(init[i] == keys[i]);
                let x = choose|x: int| 0 <= x < before.len() && before[x] == file;
                assert(all[x] == file);
            } else {
                let x = choose|x: int| 0 <= x < src[k].len() && src[k][x] == file;
                assert(all[before.len() + x] == file);
            }
        }
    }
}

/// A copy is made of the file at its path below the source, and is renamed exactly where
/// its path below the target is another.
pub proof fn law_copy_keeps_its_path_unless_renamed(
    src_root: &str,
    dst_root: &str,
    rel: &str,
    dest: String,
    r: CopyPlan,
)
    requires
        call_ensures(copy_missing, (src_root, dst_root, rel, dest), r),
    ensures
        r.src_abs@ == joined_path(src_root@, rel@),
        r.dest@ == dest@,
        r.dst_rel@ == relative_or_whole(dest@, dst_root@),
        r.renamed <==> r.dst_rel@ != rel@,
{
}

/// A sync goes to the second tree, from it, or both ways, first to it.
pub proof fn law_passes_of_a_direction(direction: Direction, r: Vec<Pass>)
    requires
        call_ensures(passes, (direction,), r),
    ensures
        r@.contains(Pass::FirstToSecond) <==> direction != Direction::From,
        r@.contains(Pass::SecondToFirst) <==> direction != Direction::To,
        r@.len() == 2 <==> direction == Direction::Both,
        direction == Direction::Both ==> r@[0] == Pass::FirstToSecond,
{
    assert(direction != Direction::From ==> r@[0] == Pass::FirstToSecond);
    assert(direction == Direction::From ==> r@[0] == Pass::SecondToFirst);
    assert(direction == Direction::Both ==> r@[1] == Pass::SecondToFirst);
}

/// A copy is reported with where it comes from and where it goes, as one that would be
/// made in a dry run, and as renamed where it is.
pub proof fn law_copies_are_reported(rel: Seq<char>, dst_rel: Seq<char>)
    ensures
        copy_text(rel, dst_rel, false, false) == "  copy "@ + rel + "  =>  "@ + dst_rel,
        copy_text(rel, dst_rel, true, false) == "  copy "@ + rel + "  =>  "@ + dst_rel
            + "  (renamed)"@,
        copy_text(rel, dst_rel, false, true) == "  would copy "@ + rel + "  =>  "@ + dst_rel,
        copy_text(rel, dst_rel, true, true) == "  would copy "@ + rel + "  =>  "@ + dst_rel
            + "  (renamed)"@,
{
    reveal_strlit("");
    reveal_strlit("  ");
    reveal_strlit(" ");
    reveal_strlit("copy");
    reveal_strlit("would copy");
    reveal_strlit("  copy ");
    reveal_strlit("  would copy ");
    assert("  "@ + "copy"@ + " "@ =~= "  copy "@);
    assert("  "@ + "would copy"@ + " "@ =~= "  would copy "@);
    let (a, b) = (
        "  copy "@ + rel + "  =>  "@ + dst_rel,
        "  would copy "@ + rel + "  =>  "@ + dst_rel,
    );
    assert(a + ""@ =~= a);
    assert(b + ""@ =~= b);
}

/// A directory is looked at again with the tree that it lies in: the second where it
/// lies below that, else the first. The summary counts copies and renames.
pub proof fn law_trees_and_counts(
    dir: &str,
    first: &str,
    second: &str,
    root: String,
    copied: usize,
    renamed: usize,
    line: String,
    dry: String,
)
    requires
        call_ensures(root_of_dir, (dir, first, second), root),
        call_ensures(summary, (copied, renamed, false), line),
        call_ensures(summary, (copied, renamed, true), dry),
    ensures
        is_under(dir@, second@) ==> root@ == second@,
        !is_under(dir@, second@) ==> root@ == first@,
        line@ == "copied "@ + decimal(copied as nat) + " files ("@ + decimal(renamed as nat)
            + " renamed to avoid collisions)"@,
        dry@ == "dry-run: "@ + line@,
{
    reveal_strlit("");
    let rest = "copied "@ + decimal(copied as nat) + " files ("@ + decimal(renamed as nat)
        + " renamed to avoid collisions)"@;
    assert(""@ + "copied "@ + decimal(copied as nat) + " files ("@ + decimal(renamed as nat)
        + " renamed to avoid collisions)"@ =~= rest);
    assert("dry-run: "@ + "copied "@ + decimal(copied as nat) + " files ("@ + decimal(
        renamed as nat,
    ) + " renamed to avoid collisions)"@ =~= "dry-run: "@ + rest);
}

/// A copy is counted, and as renamed where it is; unless it was a dry run, its directory
/// is looked at again, and its record goes there with its size and its time as they are
/// on disk.
pub proof fn law_copies_are_noted(
    acc: &mut Accum,
    dst_root: &str,
    plan: &CopyPlan,
    entry: Option<FileEntry>,
    at_target: Option<(u64, u64)>,
    dry_run: bool,
)
    requires
        call_ensures(Accum::note, (acc, dst_root, plan, entry, at_target, dry_run), ()),
    ensures
        final(acc).copied == old(acc).copied + 1,
        plan.renamed ==> final(acc).renamed == old(acc).renamed + 1,
        !plan.renamed ==> final(acc).renamed == old(acc).renamed,
        dry_run ==> final(acc).state.affected@ == old(acc).state.affected@
            && final(acc).state.staged@ == old(acc).state.staged@,
        !dry_run && parent_of(plan.dest@) is Some ==> final(acc).state.affected@.dom().contains(
            path_id(parent_of(plan.dest@)->0),
        ),
        !dry_run && entry is Some && parent_of(plan.dest@) is Some && file_name_of(plan.dest@)
            is Some ==> {
            let staged = staged_for(final(acc).state.staged@, parent_of(plan.dest@)->0);
            &&& staged.len() > 0
            &&& staged.last().0 == file_name_of(plan.dest@)->0
            &&& staged.last().1.hash == entry->0@.hash
            &&& at_target is Some ==> staged.last().1.size == (at_target->0).0
                && staged.last().1.mtime_ns == (at_target->0).1
        },
{
}

/// A place that is free is taken, under its own name first and then under its numbers in
/// turn; one that is not free is never taken.
pub proof fn law_only_free_places_are_taken(
    dst_root: &str,
    rel: &str,
    n: u64,
    taken: bool,
    r: DestStep,
)
    requires
        call_ensures(dest_step, (dst_root, rel, n, taken), r),
    ensures
        r@ is Take <==> !taken,
        r@ is Take ==> r@->Take_0 == dest_try(dst_root@, rel@, n as nat),
        r@ is Next ==> r@->Next_0 == n + 1,
        r@ is Exhausted <==> taken && n == 0xffff_ffff_ffff_ffff,
{
}

/// A pass is named by the two roots, the one that is read first.
pub proof fn law_passes_are_named_by_their_roots(a: &'static str, b: &'static str)
    requires
        call_ensures(Pass::label, (Pass::FirstToSecond,), a),
        call_ensures(Pass::label, (Pass::SecondToFirst,), b),
    ensures
        a@ == "path1"@ + " -> "@ + "path2"@,
        b@ == "path2"@ + " -> "@ + "path1"@,
{
    reveal_strlit("path1");
    reveal_strlit("path2");
    reveal_strlit(" -> ");
    reveal_strlit("path1 -> path2");
    reveal_strlit("path2 -> path1");
    assert(a@ =~= "path1"@ + " -> "@ + "path2"@);
    assert(b@ =~= "path2"@ + " -> "@ + "path1"@);
}

} // verus!
