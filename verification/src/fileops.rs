//! Copying, moving and removing files with their records.
//!
//! What an operation does is decided here, from what is known of the paths; the
//! record of a copied or moved file travels with it, so its content is not hashed
//! again.
use vstd::prelude::*;

use crate::hash::{algo_name, HashAlgo};
use crate::manifest::{is_manifest_file, managed_name, EntryView, FileEntry};
use crate::pathmap::{known_as, path_id, with_path, with_value, PathId, PathKey, PathMap, PathSet};
use crate::paths::{
    dir_of, file_name, file_name_of, join, joined_path, parent_dir, path_eq, relative, same_path,
    strip_prefix,
};
use crate::scan::{
    apple_double, dedup_pointer, hash_needed, is_apple_double, is_dedup_pointer, Seen,
};
use crate::text::{concat2, concat3, law_parts_are_what_stands_in_a_text};
use crate::textmap::TextMap;

verus! {

pub struct OpOptions {
    pub recursive: bool,
    pub force: bool,
    pub quiet: bool,
}

/// Why an operation is refused.
#[derive(Clone, Debug, PartialEq, Eq)]
pub enum OpError {
    /// No paths were given.
    NoPaths,
    /// Several sources, and the target is no directory.
    NotDirectory(String),
    /// There is no such file or directory.
    Missing(String),
    /// A directory, and the operation is not recursive.
    OmittedDirectory(String),
    /// A directory to remove, and the operation is not recursive.
    IsDirectory(String),
    /// The target is there already.
    Exists(String),
    /// The source has no name.
    InvalidSource(String),
}

/// What an [`OpError`] holds.
pub enum OpRefusal {
    NoPaths,
    NotDirectory(Seq<char>),
    Missing(Seq<char>),
    OmittedDirectory(Seq<char>),
    IsDirectory(Seq<char>),
    Exists(Seq<char>),
    InvalidSource(Seq<char>),
}

impl View for OpError {
    type V = OpRefusal;

    open spec fn view(&self) -> OpRefusal {
        match *self {
            OpError::NoPaths => OpRefusal::NoPaths,
            OpError::NotDirectory(p) => OpRefusal::NotDirectory(p@),
            OpError::Missing(p) => OpRefusal::Missing(p@),
            OpError::OmittedDirectory(p) => OpRefusal::OmittedDirectory(p@),
            OpError::IsDirectory(p) => OpRefusal::IsDirectory(p@),
            OpError::Exists(p) => OpRefusal::Exists(p@),
            OpError::InvalidSource(p) => OpRefusal::InvalidSource(p@),
        }
    }
}

/// What to tell the user.
pub open spec fn refusal_text(e: OpRefusal, verb: Seq<char>) -> Seq<char> {
    match e {
        OpRefusal::NoPaths => verb + " requires one or more sources and a destination"@,
        OpRefusal::NotDirectory(p) => "target '"@ + p + "' is not a directory"@,
        OpRefusal::Missing(p) => p + ": no such file or directory"@,
        OpRefusal::OmittedDirectory(p) => "-r not specified; omitting directory '"@ + p + "'"@,
        OpRefusal::IsDirectory(p) => p + " is a directory (use -r)"@,
        OpRefusal::Exists(p) => p + " already exists (use -f to overwrite)"@,
        OpRefusal::InvalidSource(p) => "invalid source path "@ + p,
    }
}

impl OpError {
    /// What to tell the user of a refused operation.
    pub fn message(&self, verb: &str) -> (r: String)
        ensures
            r@ == refusal_text(self@, verb@),
    {
        match self {
            OpError::NoPaths => concat2(verb, " requires one or more sources and a destination"),
            OpError::NotDirectory(p) => concat3("target '", p.as_str(), "' is not a directory"),
            OpError::Missing(p) => concat2(p.as_str(), ": no such file or directory"),
            OpError::OmittedDirectory(p) => concat3(
                "-r not specified; omitting directory '",
                p.as_str(),
                "'",
            ),
            OpError::IsDirectory(p) => concat2(p.as_str(), " is a directory (use -r)"),
            OpError::Exists(p) => concat2(p.as_str(), " already exists (use -f to overwrite)"),
            OpError::InvalidSource(p) => concat2("invalid source path ", p.as_str()),
        }
    }
}

/// What is known of a path.
#[derive(Clone, Copy, Debug, PartialEq, Eq, Structural)]
pub struct Facts {
    pub present: bool,
    pub is_dir: bool,
}

/// The target of a source: inside the destination where that is a directory, else
/// the destination itself.
pub open spec fn target_of(dest: Seq<char>, src: Seq<char>, dest_is_dir: bool) -> Option<Seq<char>> {
    if !dest_is_dir {
        Some(dest)
    } else {
        match file_name_of(src) {
            Some(n) => Some(joined_path(dest, n)),
            None => None,
        }
    }
}

/// The target of a source.
pub fn target_for(dest: &str, src: &str, dest_is_dir: bool) -> (r: Result<String, OpError>)
    ensures
        match target_of(dest@, src@, dest_is_dir) {
            Some(t) => r matches Ok(x) && x@ == t,
            None => r matches Err(e) && e@ == OpRefusal::InvalidSource(src@),
        },
{
    if !dest_is_dir {
        return Ok(dest.to_owned());
    }
    match file_name(src) {
        Some(base) => Ok(join(dest, base.as_str())),
        None => Err(OpError::InvalidSource(src.to_owned())),
    }
}

/// The destination is the last path; the others are the sources. Several sources
/// need a directory to go to.
pub fn split_paths(paths: &Vec<String>, dest_is_dir: bool) -> (r: Result<usize, OpError>)
    ensures
        if paths@.len() == 0 {
            r matches Err(e) && e@ == OpRefusal::NoPaths
        } else if paths@.len() > 2 && !dest_is_dir {
            r matches Err(e) && e@ == OpRefusal::NotDirectory(paths@.last()@)
        } else {
            r == Ok::<usize, OpError>((paths@.len() - 1) as usize)
        },
{
    if paths.len() == 0 {
        return Err(OpError::NoPaths);
    }
    let n: usize = paths.len() - 1;
    if n > 1 && !dest_is_dir {
        return Err(OpError::NotDirectory(paths[n].clone()));
    }
    Ok(n)
}

/// How to copy a source.
#[derive(Debug, PartialEq, Eq)]
pub enum CpAction {
    /// Copy the directory and all below it.
    Tree(String),
    /// Copy the file.
    File(String),
}

/// Decides how to copy a source.
pub fn cp(src: &str, facts: Facts, dest: &str, dest_is_dir: bool, opts: &OpOptions) -> (r: Result<
    CpAction,
    OpError,
>)
    ensures
        if !facts.present {
            r matches Err(e) && e@ == OpRefusal::Missing(src@)
        } else {
            match target_of(dest@, src@, dest_is_dir) {
                None => r matches Err(e) && e@ == OpRefusal::InvalidSource(src@),
                Some(t) => if !facts.is_dir {
                    r matches Ok(CpAction::File(x)) && x@ == t
                } else if opts.recursive {
                    r matches Ok(CpAction::Tree(x)) && x@ == t
                } else {
                    r matches Err(e) && e@ == OpRefusal::OmittedDirectory(src@)
                },
            }
        },
{
    if !facts.present {
        return Err(OpError::Missing(src.to_owned()));
    }
    let target: String = match target_for(dest, src, dest_is_dir) {
        Ok(t) => t,
        Err(e) => return Err(e),
    };
    if !facts.is_dir {
        return Ok(CpAction::File(target));
    }
    if !opts.recursive {
        return Err(OpError::OmittedDirectory(src.to_owned()));
    }
    Ok(CpAction::Tree(target))
}

/// Decides whether a file may be copied to a target: the directory to create for
/// it, or a refusal where the target is there and is not to be overwritten.
pub fn copy_file(target: &str, target_exists: bool, opts: &OpOptions) -> (r: Result<String, OpError>)
    ensures
        if target_exists && !opts.force {
            r matches Err(e) && e@ == OpRefusal::Exists(target@)
        } else {
            r matches Ok(d) && d@ == dir_of(target@)
        },
{
    if target_exists && !opts.force {
        return Err(OpError::Exists(target.to_owned()));
    }
    Ok(parent_dir(target))
}

/// What a walk over a tree to copy met.
#[derive(Clone, Copy, Debug, PartialEq, Eq, Structural)]
pub enum TreeKind {
    Dir,
    File,
    Other,
}

/// What to do with an entry of a tree to copy.
#[derive(Debug, PartialEq, Eq)]
pub enum TreeAction {
    Skip,
    MakeDir(String),
    CopyFile(String),
}

/// The name is one that copies leave behind: managed files, pointers and sidecars.
pub open spec fn left_behind(name: Seq<char>) -> bool {
    managed_name(name) || dedup_pointer(name) || apple_double(name)
}

/// The name of a path; empty where it has none.
pub open spec fn base_name(p: Seq<char>) -> Seq<char> {
    match file_name_of(p) {
        Some(n) => n,
        None => Seq::empty(),
    }
}

/// Decides what to do with an entry of a tree to copy.
pub fn copy_tree(src_dir: &str, target_base: &str, path: &str, kind: TreeKind) -> (r: TreeAction)
    ensures
        match relative(path@, src_dir@) {
            None => r == TreeAction::Skip,
            Some(rel) => match kind {
                TreeKind::Dir => r matches TreeAction::MakeDir(t) && t@ == joined_path(
                    target_base@,
                    rel,
                ),
                TreeKind::File => if left_behind(base_name(path@)) {
                    r == TreeAction::Skip
                } else {
                    r matches TreeAction::CopyFile(t) && t@ == joined_path(target_base@, rel)
                },
                TreeKind::Other => r == TreeAction::Skip,
            },
        },
{
    let rel: String = match strip_prefix(path, src_dir) {
        Some(s) => s,
        None => return TreeAction::Skip,
    };
    let target: String = join(target_base, rel.as_str());
    match kind {
        TreeKind::Dir => TreeAction::MakeDir(target),
        TreeKind::File => {
            let name: String = match file_name(path) {
                Some(n) => n,
                None => {
                    let none: String = String::new();
                    assert(none@ =~= Seq::<char>::empty());
                    none
                },
            };
            if is_manifest_file(name.as_str()) || is_dedup_pointer(name.as_str())
                || is_apple_double(name.as_str()) {
                TreeAction::Skip
            } else {
                TreeAction::CopyFile(target)
            }
        },
        TreeKind::Other => TreeAction::Skip,
    }
}

/// What to clear away before a move.
#[derive(Clone, Copy, Debug, PartialEq, Eq, Structural)]
pub enum Clearing {
    Nothing,
    File,
    Dir,
}

/// How to move a source.
#[derive(Debug, PartialEq, Eq)]
pub enum MvAction {
    /// The source is the target.
    Nothing,
    /// Create the directory `parent`, clear the target away, then rename, or copy
    /// and remove.
    Move { parent: String, clearing: Clearing },
}

/// Decides how to move a source to a target.
pub fn move_one(src: &str, target: &str, at_target: Facts, opts: &OpOptions) -> (r: Result<
    MvAction,
    OpError,
>)
    ensures
        if same_path(src@, target@) {
            r == Ok::<MvAction, OpError>(MvAction::Nothing)
        } else if at_target.present && !opts.force {
            r matches Err(e) && e@ == OpRefusal::Exists(target@)
        } else {
            r matches Ok(MvAction::Move { parent, clearing }) && parent@ == dir_of(target@)
                && clearing == (if !at_target.present {
                Clearing::Nothing
            } else if at_target.is_dir {
                Clearing::Dir
            } else {
                Clearing::File
            })
        },
{
    if path_eq(src, target) {
        return Ok(MvAction::Nothing);
    }
    if at_target.present && !opts.force {
        return Err(OpError::Exists(target.to_owned()));
    }
    let clearing: Clearing = if !at_target.present {
        Clearing::Nothing
    } else if at_target.is_dir {
        Clearing::Dir
    } else {
        Clearing::File
    };
    Ok(MvAction::Move { parent: parent_dir(target), clearing })
}

/// Decides where a source goes: its target, or a refusal where it is not there.
pub fn mv(src: &str, present: bool, dest: &str, dest_is_dir: bool) -> (r: Result<String, OpError>)
    ensures
        if !present {
            r matches Err(e) && e@ == OpRefusal::Missing(src@)
        } else {
            match target_of(dest@, src@, dest_is_dir) {
                Some(t) => r matches Ok(x) && x@ == t,
                None => r matches Err(e) && e@ == OpRefusal::InvalidSource(src@),
            }
        },
{
    if !present {
        return Err(OpError::Missing(src.to_owned()));
    }
    target_for(dest, src, dest_is_dir)
}

/// How to remove a path.
#[derive(Clone, Copy, Debug, PartialEq, Eq, Structural)]
pub enum RmAction {
    /// It is not there, and that is fine.
    Ignore,
    /// Remove the directory and all below it.
    Tree,
    /// Remove the file.
    File,
}

/// Decides how to remove a path.
pub fn rm(path: &str, facts: Facts, opts: &OpOptions) -> (r: Result<RmAction, OpError>)
    ensures
        if !facts.present {
            if opts.force {
                r == Ok::<RmAction, OpError>(RmAction::Ignore)
            } else {
                r matches Err(e) && e@ == OpRefusal::Missing(path@)
            }
        } else if !facts.is_dir {
            r == Ok::<RmAction, OpError>(RmAction::File)
        } else if opts.recursive {
            r == Ok::<RmAction, OpError>(RmAction::Tree)
        } else {
            r matches Err(e) && e@ == OpRefusal::IsDirectory(path@)
        },
{
    if !facts.present {
        if opts.force {
            return Ok(RmAction::Ignore);
        }
        return Err(OpError::Missing(path.to_owned()));
    }
    if !facts.is_dir {
        return Ok(RmAction::File);
    }
    if !opts.recursive {
        return Err(OpError::IsDirectory(path.to_owned()));
    }
    Ok(RmAction::Tree)
}

/// What to refresh before an operation, for one source.
#[derive(Clone, Copy, Debug, PartialEq, Eq, Structural)]
pub enum Refresh {
    /// Nothing: it is neither a file nor a directory, or was refreshed before.
    Nothing,
    /// Scan the directory and all below it.
    Tree,
    /// Scan the one directory.
    Dir,
}

/// What to refresh for a source: each place once. `place` is the source itself for
/// a directory, and the directory that holds it for a file, both resolved.
pub fn scan_sources(scanned: &mut PathSet, place: String, is_dir: bool, is_file: bool) -> (r:
    Refresh)
    ensures
        r == (if (is_dir || is_file) && !old(scanned)@.dom().contains(path_id(place@)) {
            if is_dir {
                Refresh::Tree
            } else {
                Refresh::Dir
            }
        } else {
            Refresh::Nothing
        }),
        final(scanned)@ == (if is_dir || is_file {
            with_path(old(scanned)@, place@)
        } else {
            old(scanned)@
        }),
{
    if !is_dir && !is_file {
        return Refresh::Nothing;
    }
    if !scanned.insert(place) {
        return Refresh::Nothing;
    }
    if is_dir {
        Refresh::Tree
    } else {
        Refresh::Dir
    }
}

// ---- records that travel ---------------------------------------------------

/// Records to put into a manifest.
#[derive(Debug)]
pub struct Staged {
    pub entries: Vec<(String, FileEntry)>,
}

impl View for Staged {
    type V = Seq<(Seq<char>, EntryView)>;

    open spec fn view(&self) -> Seq<(Seq<char>, EntryView)> {
        self.entries@.map_values(|e: (String, FileEntry)| (e.0@, e.1@))
    }
}

/// What an operation has to put right at its end: directories to reconcile, and
/// records to put into manifests first.
#[derive(Debug)]
pub struct State {
    pub affected: PathSet,
    pub staged: PathMap<Staged>,
}

/// The records staged for a directory.
pub open spec fn staged_for(
    staged: Map<PathId, (Seq<char>, Seq<(Seq<char>, EntryView)>)>,
    dir: Seq<char>,
) -> Seq<(Seq<char>, EntryView)> {
    if staged.dom().contains(path_id(dir)) {
        staged[path_id(dir)].1
    } else {
        Seq::empty()
    }
}

/// What is staged, with one more record for a directory.
pub open spec fn with_staged(
    staged: Map<PathId, (Seq<char>, Seq<(Seq<char>, EntryView)>)>,
    dir: Seq<char>,
    name: Seq<char>,
    entry: EntryView,
) -> Map<PathId, (Seq<char>, Seq<(Seq<char>, EntryView)>)> {
    with_value(staged, dir, staged_for(staged, dir).push((name, entry)))
}

/// The record of a source as its copy has it: the same hash, and the size and
/// modified time that the copy has on disk, where they can be read.
pub open spec fn carried(e: EntryView, at_target: Option<(u64, u64)>) -> EntryView {
    match at_target {
        Some((size, mtime_ns)) => EntryView { size, mtime_ns, ..e },
        None => e,
    }
}

impl State {
    pub fn new() -> (r: State)
        ensures
            r.affected@ == Map::<PathId, Seq<char>>::empty(),
            r.staged@ == Map::<PathId, (Seq<char>, Seq<(Seq<char>, EntryView)>)>::empty(),
    {
        State { affected: PathSet::new(), staged: PathMap::new() }
    }

    /// Notes that a directory has to be reconciled.
    pub fn touch(&mut self, dir: String)
        ensures
            final(self).affected@ == with_path(old(self).affected@, dir@),
            final(self).staged@ == old(self).staged@,
    {
        let _ = self.affected.insert(dir);
    }

    /// Stages a record for a name in a directory.
    pub fn stage(&mut self, dir: String, name: String, entry: FileEntry)
        ensures
            final(self).affected@ == old(self).affected@,
            final(self).staged@ == with_staged(old(self).staged@, dir@, name@, entry@),
    {
        let ghost before = self.staged@;
        let (known, mut list): (String, Staged) = match self.staged.remove(dir.as_str()) {
            Some(e) => e,
            None => {
                let none: Staged = Staged { entries: Vec::new() };
                assert(none@ =~= Seq::<(Seq<char>, EntryView)>::empty());
                (dir.clone(), none)
            },
        };
        let ghost old_list = list@;
        assert(old_list == staged_for(before, dir@));
        assert(known@ == known_as(before, dir@));
        list.entries.push((name, entry));
        assert(list@ =~= old_list.push((name@, entry@)));
        let key: PathKey = PathKey::of(dir.as_str());
        self.staged.put(key, known, list);
        assert(self.staged@ =~= with_staged(before, dir@, name@, entry@));
    }

    /// Carries the record of a source to its copy at `target`. Nothing is staged
    /// where the source has no record, or the target no name.
    pub fn stage_from_source(
        &mut self,
        target: &str,
        entry: Option<FileEntry>,
        at_target: Option<(u64, u64)>,
    )
        ensures
            final(self).affected@ == old(self).affected@,
            final(self).staged@ == match (entry, file_name_of(target@)) {
                (Some(e), Some(n)) => with_staged(
                    old(self).staged@,
                    dir_of(target@),
                    n,
                    carried(e@, at_target),
                ),
                _ => old(self).staged@,
            },
    {
        match (entry, file_name(target)) {
            (Some(e), Some(n)) => {
                let mut c: FileEntry = e;
                let ghost ev = c@;
                if let Some((size, mtime_ns)) = at_target {
                    c.size = size;
                    c.mtime_ns = mtime_ns;
                }
                assert(c@ =~= carried(ev, at_target));
                self.stage(parent_dir(target), n, c);
            },
            _ => {},
        }
    }

    /// Notes a file that was copied to `target`.
    pub fn copied(
        &mut self,
        target: &str,
        entry: Option<FileEntry>,
        at_target: Option<(u64, u64)>,
    )
        ensures
            final(self).affected@ == with_path(old(self).affected@, dir_of(target@)),
            final(self).staged@ == match (entry, file_name_of(target@)) {
                (Some(e), Some(n)) => with_staged(
                    old(self).staged@,
                    dir_of(target@),
                    n,
                    carried(e@, at_target),
                ),
                _ => old(self).staged@,
            },
    {
        self.touch(parent_dir(target));
        self.stage_from_source(target, entry, at_target);
    }

    /// Notes a file that was moved from `src` to `target`: the directories of both
    /// have to be reconciled.
    pub fn moved(
        &mut self,
        src: &str,
        target: &str,
        entry: Option<FileEntry>,
        at_target: Option<(u64, u64)>,
    )
        ensures
            final(self).affected@ == with_path(
                with_path(old(self).affected@, dir_of(src@)),
                dir_of(target@),
            ),
            final(self).staged@ == match (entry, file_name_of(target@)) {
                (Some(e), Some(n)) => with_staged(
                    old(self).staged@,
                    dir_of(target@),
                    n,
                    carried(e@, at_target),
                ),
                _ => old(self).staged@,
            },
    {
        self.touch(parent_dir(src));
        self.copied(target, entry, at_target);
    }

    /// Notes a file that was removed.
    pub fn removed(&mut self, path: &str)
        ensures
            final(self).affected@ == with_path(old(self).affected@, dir_of(path@)),
            final(self).staged@ == old(self).staged@,
    {
        self.touch(parent_dir(path));
    }
}

/// Records with others put in, the later over the earlier.
pub open spec fn with_records(
    files: Map<Seq<char>, EntryView>,
    entries: Seq<(Seq<char>, EntryView)>,
) -> Map<Seq<char>, EntryView>
    decreases entries.len(),
{
    if entries.len() == 0 {
        files
    } else {
        with_records(files, entries.drop_last()).insert(entries.last().0, entries.last().1)
    }
}

/// The records that a manifest has once the staged ones are put in; a manifest that
/// is missing or cannot be read has none before.
pub fn finalize(files: Option<TextMap<FileEntry>>, staged: &Staged) -> (r: TextMap<FileEntry>)
    ensures
        r@ == with_records(
            match files {
                Some(f) => f@,
                None => Map::empty(),
            },
            staged@,
        ),
{
    let mut out: TextMap<FileEntry> = match files {
        Some(f) => f,
        None => TextMap::new(),
    };
    let ghost start = out@;
    let ghost sv = staged@;
    let mut i: usize = 0;
    assert(sv.take(0) =~= Seq::<(Seq<char>, EntryView)>::empty());
    while i < staged.entries.len()
        invariant
            i <= staged.entries@.len(),
            sv == staged@,
            out@ == with_records(start, sv.take(i as int)),
        decreases staged.entries@.len() - i,
    {
        let name: String = staged.entries[i].0.clone();
        let entry: FileEntry = staged.entries[i].1.copy();
        proof {
            assert(sv[i as int] == (name@, entry@));
            assert(sv.take(i + 1).drop_last() =~= sv.take(i as int));
            assert(sv.take(i + 1).last() == sv[i as int]);
        }
        out.insert(name, entry);
        i += 1;
    }
    assert(sv.take(sv.len() as int) =~= sv);
    out
}

/// A carried record needs no hashing: the next scan, which sees the file as it is on
/// disk, keeps the hash of the source, where the algorithm is still the same.
pub proof fn law_carried_record_is_kept(e: EntryView, seen: Seen, algo: HashAlgo)
    requires
        e.algo == algo_name(algo),
    ensures
        !hash_needed(
            Some(carried(e, Some((seen.stat.size, seen.stat.mtime_ns)))),
            seen,
            algo,
        ),
        carried(e, Some((seen.stat.size, seen.stat.mtime_ns))).hash == e.hash,
{
}

/// Putting records in leaves those of other names as they were.
pub proof fn law_staging_leaves_other_records(
    files: Map<Seq<char>, EntryView>,
    entries: Seq<(Seq<char>, EntryView)>,
    name: Seq<char>,
)
    requires
        forall|i: int| 0 <= i < entries.len() ==> (#[trigger] entries[i]).0 != name,
    ensures
        with_records(files, entries).dom().contains(name) == files.dom().contains(name),
        files.dom().contains(name) ==> with_records(files, entries)[name] == files[name],
    decreases entries.len(),
{
    if entries.len() > 0 {
        let init = entries.drop_last();
        assert forall|i: int| 0 <= i < init.len() implies (#[trigger] init[i]).0 != name by {
            assert(entries[i].0 != name);
        }
        law_staging_leaves_other_records(files, init, name);
        assert(entries[entries.len() - 1].0 != name);
    }
}

/// What `rm` removes. It never removes a directory unless it is told to go into it; of
/// what is not there it removes nothing; a file that is there it always removes.
pub proof fn law_rm_removes_what_it_is_told(
    path: &str,
    facts: Facts,
    opts: &OpOptions,
    r: Result<RmAction, OpError>,
)
    requires
        call_ensures(rm, (path, facts, opts), r),
    ensures
        r == Ok::<RmAction, OpError>(RmAction::File) <==> facts.present && !facts.is_dir,
        r == Ok::<RmAction, OpError>(RmAction::Tree) <==> facts.present && facts.is_dir
            && opts.recursive,
        r == Ok::<RmAction, OpError>(RmAction::Ignore) <==> !facts.present && opts.force,
        r is Err <==> (!facts.present && !opts.force) || (facts.present && facts.is_dir
            && !opts.recursive),
        r is Err && !facts.present ==> r->Err_0@ == OpRefusal::Missing(path@),
        r is Err && facts.present ==> r->Err_0@ == OpRefusal::IsDirectory(path@),
{
}

/// What `cp` copies. A file goes to the target, a directory only where it is told to go
/// into it; into a directory the source goes under its own name, else the destination
/// is what is written.
pub proof fn law_cp_copies_what_it_is_told(
    src: &str,
    facts: Facts,
    dest: &str,
    dest_is_dir: bool,
    opts: &OpOptions,
    r: Result<CpAction, OpError>,
)
    requires
        call_ensures(cp, (src, facts, dest, dest_is_dir, opts), r),
    ensures
        !facts.present ==> r is Err && r->Err_0@ == OpRefusal::Missing(src@),
        facts.present && !facts.is_dir && !dest_is_dir ==> r is Ok && r->Ok_0 is File
            && r->Ok_0->File_0@ == dest@,
        facts.present && !facts.is_dir && dest_is_dir && file_name_of(src@) is Some ==> r is Ok
            && r->Ok_0 is File && r->Ok_0->File_0@ == joined_path(dest@, file_name_of(src@)->0),
        facts.present && facts.is_dir && !dest_is_dir && opts.recursive ==> r is Ok
            && r->Ok_0 is Tree && r->Ok_0->Tree_0@ == dest@,
        facts.present && facts.is_dir && dest_is_dir && opts.recursive && file_name_of(
            src@,
        ) is Some ==> r is Ok && r->Ok_0 is Tree && r->Ok_0->Tree_0@ == joined_path(
            dest@,
            file_name_of(src@)->0,
        ),
        facts.present && facts.is_dir && !opts.recursive ==> r is Err,
        r is Ok && r->Ok_0 is Tree ==> facts.is_dir,
        r is Ok && r->Ok_0 is File ==> !facts.is_dir,
{
}

/// Nothing that is there is overwritten unless that is forced, neither by a copy nor by
/// a move; what is moved onto itself stays.
pub proof fn law_nothing_is_overwritten_unforced(
    src: &str,
    target: &str,
    at_target: Facts,
    opts: &OpOptions,
    copied: Result<String, OpError>,
    moved: Result<MvAction, OpError>,
)
    requires
        call_ensures(copy_file, (target, at_target.present, opts), copied),
        call_ensures(move_one, (src, target, at_target, opts), moved),
    ensures
        copied is Ok <==> !at_target.present || opts.force,
        copied is Err ==> copied->Err_0@ == OpRefusal::Exists(target@),
        copied is Ok ==> copied->Ok_0@ == dir_of(target@),
        moved == Ok::<MvAction, OpError>(MvAction::Nothing) <==> same_path(src@, target@),
        moved is Err <==> !same_path(src@, target@) && at_target.present && !opts.force,
        moved is Err ==> moved->Err_0@ == OpRefusal::Exists(target@),
        moved is Ok && moved->Ok_0 is Move ==> {
            &&& moved->Ok_0->parent@ == dir_of(target@)
            &&& moved->Ok_0->clearing == Clearing::Nothing <==> !at_target.present
            &&& moved->Ok_0->clearing == Clearing::Dir <==> at_target.present && at_target.is_dir
            &&& moved->Ok_0->clearing == Clearing::File <==> at_target.present && !at_target.is_dir
        },
{
}

/// A move goes where a copy would go, and both refuse a source that is not there.
pub proof fn law_mv_goes_where_cp_goes(
    src: &str,
    dest: &str,
    dest_is_dir: bool,
    opts: &OpOptions,
    moved: Result<String, OpError>,
    copied: Result<CpAction, OpError>,
    present: bool,
)
    requires
        call_ensures(mv, (src, present, dest, dest_is_dir), moved),
        call_ensures(cp, (src, Facts { present, is_dir: false }, dest, dest_is_dir, opts), copied),
    ensures
        moved is Ok <==> copied is Ok,
        moved is Ok ==> moved->Ok_0@ == copied->Ok_0->File_0@,
        moved is Err ==> moved->Err_0@ == copied->Err_0@,
        !present ==> moved is Err && moved->Err_0@ == OpRefusal::Missing(src@),
        present && !dest_is_dir ==> moved is Ok && moved->Ok_0@ == dest@,
{
}

/// A copied tree has the directories and the files of the tree, each where it is below
/// it, without manifests, drive markers, pointers and sidecars, and without what is
/// neither.
pub proof fn law_copied_tree_has_its_files(
    src_dir: &str,
    base: &str,
    path: &str,
    kind: TreeKind,
    r: TreeAction,
)
    requires
        call_ensures(copy_tree, (src_dir, base, path, kind), r),
    ensures
        r is MakeDir <==> kind is Dir && relative(path@, src_dir@) is Some,
        r is CopyFile <==> {
            let name = base_name(path@);
            &&& kind is File
            &&& relative(path@, src_dir@) is Some
            &&& name != ".hashit"@
            &&& name != ".hashit-drive"@
            &&& forall|rest: Seq<char>| name != ".hashit.tmp."@ + rest
            &&& forall|rest: Seq<char>| name != rest + ".dedup"@
            &&& forall|rest: Seq<char>| name != "._"@ + rest
        },
        r is MakeDir ==> r->MakeDir_0@ == joined_path(base@, relative(path@, src_dir@)->0),
        r is CopyFile ==> r->CopyFile_0@ == joined_path(base@, relative(path@, src_dir@)->0),
{
    let name = base_name(path@);
    law_parts_are_what_stands_in_a_text(name, ".hashit.tmp."@);
    law_parts_are_what_stands_in_a_text(name, ".dedup"@);
    law_parts_are_what_stands_in_a_text(name, "._"@);
}

/// Of the paths of a command the last is the destination; several sources need it to be
/// a directory.
pub proof fn law_last_path_is_the_destination(
    paths: &Vec<String>,
    dest_is_dir: bool,
    r: Result<usize, OpError>,
)
    requires
        call_ensures(split_paths, (paths, dest_is_dir), r),
    ensures
        r is Ok ==> r->Ok_0 == paths@.len() - 1,
        r is Ok <==> paths@.len() > 0 && (paths@.len() <= 2 || dest_is_dir),
        paths@.len() == 0 ==> r is Err && r->Err_0@ == OpRefusal::NoPaths,
        paths@.len() > 2 && !dest_is_dir ==> r is Err && r->Err_0@ == OpRefusal::NotDirectory(
            paths@[paths@.len() - 1]@,
        ),
{
    assert(paths.len() == paths@.len());
}

/// Records that are put in are there afterwards, the last of those with one name, and
/// nothing else is new.
pub proof fn law_staged_records_are_put_in(
    files: Map<Seq<char>, EntryView>,
    entries: Seq<(Seq<char>, EntryView)>,
    i: int,
)
    requires
        0 <= i < entries.len(),
        forall|j: int| i < j < entries.len() ==> (#[trigger] entries[j]).0 != entries[i].0,
    ensures
        with_records(files, entries).dom().contains(entries[i].0),
        with_records(files, entries)[entries[i].0] == entries[i].1,
    decreases entries.len(),
{
    let init = entries.drop_last();
    if i < init.len() {
        assert forall|j: int| i < j < init.len() implies (#[trigger] init[j]).0 != init[i].0 by {
            assert(entries[j].0 != entries[i].0);
        }
        law_staged_records_are_put_in(files, init, i);
        assert(entries[entries.len() - 1].0 != entries[i].0);
    }
}

/// A carried record is that of the source but for its size and its time, which are
/// those of the copy where they can be read.
pub proof fn law_carried_record_has_the_times_of_the_copy(e: EntryView, size: u64, mtime_ns: u64)
    ensures
        carried(e, None) == e,
        carried(e, Some((size, mtime_ns))).size == size,
        carried(e, Some((size, mtime_ns))).mtime_ns == mtime_ns,
        carried(e, Some((size, mtime_ns))).hash == e.hash,
        carried(e, Some((size, mtime_ns))).algo == e.algo,
        carried(e, Some((size, mtime_ns))).flags == e.flags,
        carried(e, Some((size, mtime_ns))).hashed_at == e.hashed_at,
{
}

/// What a refused operation is answered.
pub proof fn law_refusals_say_why(p: Seq<char>, verb: Seq<char>)
    ensures
        refusal_text(OpRefusal::NoPaths, verb) == verb
            + " requires one or more sources and a destination"@,
        refusal_text(OpRefusal::NotDirectory(p), verb) == "target '"@ + p
            + "' is not a directory"@,
        refusal_text(OpRefusal::Missing(p), verb) == p + ": no such file or directory"@,
        refusal_text(OpRefusal::OmittedDirectory(p), verb)
            == "-r not specified; omitting directory '"@ + p + "'"@,
        refusal_text(OpRefusal::IsDirectory(p), verb) == p + " is a directory (use -r)"@,
        refusal_text(OpRefusal::Exists(p), verb) == p + " already exists (use -f to overwrite)"@,
        refusal_text(OpRefusal::InvalidSource(p), verb) == "invalid source path "@ + p,
{
}

/// A copy, a move and a removal have the directories looked at again that they change:
/// a copy that of the target, a removal that of the path, a move both.
pub proof fn law_changed_directories_are_looked_at_again(
    a: &mut State,
    b: &mut State,
    c: &mut State,
    src: &str,
    target: &str,
    entry: Option<FileEntry>,
    at_target: Option<(u64, u64)>,
)
    requires
        call_ensures(State::copied, (a, target, entry, at_target), ()),
        call_ensures(State::moved, (b, src, target, entry, at_target), ()),
        call_ensures(State::removed, (c, src), ()),
    ensures
        final(a).affected@.dom() == old(a).affected@.dom().insert(path_id(dir_of(target@))),
        final(b).affected@.dom() == old(b).affected@.dom().insert(path_id(dir_of(src@))).insert(
            path_id(dir_of(target@)),
        ),
        final(c).affected@.dom() == old(c).affected@.dom().insert(path_id(dir_of(src@))),
        final(c).staged@ == old(c).staged@,
{
    assert(final(a).affected@.dom() =~= old(a).affected@.dom().insert(path_id(dir_of(target@))));
    assert(final(b).affected@.dom() =~= old(b).affected@.dom().insert(
        path_id(dir_of(src@)),
    ).insert(path_id(dir_of(target@))));
    assert(final(c).affected@.dom() =~= old(c).affected@.dom().insert(path_id(dir_of(src@))));
}

/// The record of a copied or moved file goes into the manifest of the directory that it
/// comes to, behind what is staged there, under the name that it has there; a file
/// without a record leaves what is staged as it is.
pub proof fn law_record_travels_with_its_file(
    a: &mut State,
    b: &mut State,
    src: &str,
    target: &str,
    entry: Option<FileEntry>,
    at_target: Option<(u64, u64)>,
)
    requires
        call_ensures(State::copied, (a, target, entry, at_target), ()),
        call_ensures(State::moved, (b, src, target, entry, at_target), ()),
        old(a).staged@ == old(b).staged@,
    ensures
        final(a).staged@ == final(b).staged@,
        entry is None ==> final(a).staged@ == old(a).staged@,
        entry is Some && file_name_of(target@) is Some ==> {
            let before = staged_for(old(a).staged@, dir_of(target@));
            let after = staged_for(final(a).staged@, dir_of(target@));
            &&& after.len() == before.len() + 1
            &&& after.last().0 == file_name_of(target@)->0
            &&& after.last().1.hash == entry->0@.hash
            &&& after.last().1.algo == entry->0@.algo
            &&& at_target is Some ==> after.last().1.size == (at_target->0).0
            &&& at_target is Some ==> after.last().1.mtime_ns == (at_target->0).1
            &&& at_target is None ==> after.last().1 == entry->0@
        },
{
}

/// A place is refreshed once: a directory with all below it, a file with its directory;
/// what is neither is not.
pub proof fn law_each_place_is_refreshed_once(
    scanned: &mut PathSet,
    place: String,
    is_dir: bool,
    is_file: bool,
    r: Refresh,
)
    requires
        call_ensures(scan_sources, (scanned, place, is_dir, is_file), r),
    ensures
        old(scanned)@.dom().contains(path_id(place@)) ==> r == Refresh::Nothing,
        !is_dir && !is_file ==> r == Refresh::Nothing && final(scanned)@ == old(scanned)@,
        is_dir && !old(scanned)@.dom().contains(path_id(place@)) ==> r == Refresh::Tree,
        is_file && !is_dir && !old(scanned)@.dom().contains(path_id(place@)) ==> r == Refresh::Dir,
        is_dir || is_file ==> final(scanned)@.dom().contains(path_id(place@)),
{
}

/// A directory that is noted is noted, and none is forgotten; no record is staged.
pub proof fn law_noted_directories_stay_noted(s: &mut State, dir: String, id: PathId)
    requires
        call_ensures(State::touch, (s, dir), ()),
    ensures
        final(s).affected@.dom().contains(id) <==> old(s).affected@.dom().contains(id) || id
            == path_id(dir@),
        final(s).staged@ == old(s).staged@,
{
}

/// A record that is staged for a directory comes behind those that were, and the other
/// directories keep theirs.
pub proof fn law_staged_record_comes_last(
    s: &mut State,
    dir: String,
    name: String,
    entry: FileEntry,
    id: PathId,
)
    requires
        call_ensures(State::stage, (s, dir, name, entry), ()),
    ensures
        final(s).staged@.dom().contains(path_id(dir@)),
        final(s).staged@[path_id(dir@)].1.last() == (name@, entry@),
        final(s).staged@[path_id(dir@)].1.drop_last() == staged_for(old(s).staged@, dir@),
        id != path_id(dir@) ==> final(s).staged@.dom().contains(id) == old(
            s,
        ).staged@.dom().contains(id) && final(s).staged@[id] == old(s).staged@[id],
        final(s).affected@ == old(s).affected@,
{
    let list = staged_for(old(s).staged@, dir@);
    assert(list.push((name@, entry@)).drop_last() =~= list);
}

} // verus!
