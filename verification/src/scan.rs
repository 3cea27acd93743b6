//! Keeping the manifest of a directory right: which files it lists, which of them
//! have to be hashed, and what the manifest becomes.
use vstd::prelude::*;

use crate::hash::{algo_name, HashAlgo};
use crate::manifest::{is_manifest_file, managed_name, same_files, EntryView, FileEntry};
use crate::number::{decimal, u64_text, usize_text};
use crate::paths::{
    file_name, file_name_of, join, joined_path, relative_or_whole, relative_to_or_whole,
};
use crate::text::{
    align_left, concat2, concat3, ends_with, has_prefix, has_suffix, law_parts_are_what_stands_in_a_text,
    left_aligned, lemma_views_push, starts_with, text_eq, text_lt, views,
};
use crate::textmap::{ascending, key_index, lemma_key_index, map_of, TextMap};
use crate::walk::{ignored, is_ignored};

verus! {

/// How to scan.
#[derive(Clone, Debug)]
pub struct ScanOptions {
    pub algo: HashAlgo,
    pub follow_symlinks: bool,
    /// Glob patterns of files and directories to leave out.
    pub excludes: Vec<String>,
    /// Parts of paths to leave out.
    pub ignores: Vec<String>,
    pub quiet: bool,
    pub verbose: bool,
    /// Report every file.
    pub status: bool,
    /// Leave out AppleDouble sidecars.
    pub skip_apple_double: bool,
    pub dry_run: bool,
}

/// The name is that of an AppleDouble sidecar.
pub open spec fn apple_double(name: Seq<char>) -> bool {
    has_prefix(name, "._"@)
}

/// Whether a name is that of an AppleDouble sidecar, which holds what a file system
/// cannot store of a file and is no content of its own.
pub fn is_apple_double(name: &str) -> (r: bool)
    ensures
        r == apple_double(name@),
{
    starts_with(name, "._")
}

/// What the names of the pointers end in that stand for removed duplicates.
pub const DEDUP_SUFFIX: &'static str = ".dedup";

/// The name is that of a pointer.
pub open spec fn dedup_pointer(name: Seq<char>) -> bool {
    has_suffix(name, ".dedup"@)
}

/// Whether a name is that of a pointer, which is never hashed or listed.
pub fn is_dedup_pointer(name: &str) -> (r: bool)
    ensures
        r == dedup_pointer(name@),
{
    ends_with(name, DEDUP_SUFFIX)
}

/// The text is a glob pattern.
pub uninterp spec fn glob_valid(pattern: Seq<char>) -> bool;

/// The pattern matches the text; false where it is no pattern.
pub uninterp spec fn glob_match(pattern: Seq<char>, text: Seq<char>) -> bool;

/// `glob::Pattern::new`: whether the text is a pattern.
#[verifier::external_body]
fn pattern_valid(pattern: &str) -> (r: bool)
    ensures
        r == glob_valid(pattern@),
{
    glob::Pattern::new(pattern).is_ok()
}

/// `glob::Pattern::matches`: whether the pattern matches the text as a whole. A
/// text that is no pattern matches nothing.
#[verifier::external_body]
fn pattern_matches(pattern: &str, text: &str) -> (r: bool)
    ensures
        r == glob_match(pattern@, text@),
{
    match glob::Pattern::new(pattern) {
        Ok(p) => p.matches(text),
        Err(_) => false,
    }
}

/// The first of some texts that is no glob pattern.
pub open spec fn first_invalid(globs: Seq<Seq<char>>) -> Option<Seq<char>>
    decreases globs.len(),
{
    if globs.len() == 0 {
        None
    } else if !glob_valid(globs[0]) {
        Some(globs[0])
    } else {
        first_invalid(globs.skip(1))
    }
}

/// The patterns to leave out, or the first text that is none.
pub fn parse_excludes(globs: &Vec<String>) -> (r: Result<Vec<String>, String>)
    ensures
        match first_invalid(views(globs@)) {
            None => r matches Ok(v) && views(v@) == views(globs@),
            Some(g) => r matches Err(e) && e@ == g,
        },
{
    let mut out: Vec<String> = Vec::new();
    let mut i: usize = 0;
    let ghost gv = views(globs@);
    assert(gv.skip(0) =~= gv);
    assert(views(out@) =~= gv.take(0));
    while i < globs.len()
        invariant
            i <= globs@.len(),
            gv == views(globs@),
            first_invalid(gv) == first_invalid(gv.skip(i as int)),
            views(out@) == gv.take(i as int),
        decreases globs@.len() - i,
    {
        let g: &String = &globs[i];
        proof {
            assert(gv[i as int] == g@);
            assert(gv.skip(i as int)[0] == g@);
            assert(gv.skip(i as int).skip(1) =~= gv.skip(i + 1));
            assert(gv.take(i + 1) =~= gv.take(i as int).push(g@));
        }
        if !pattern_valid(g.as_str()) {
            return Err(g.clone());
        }
        let copy: String = g.clone();
        proof {
            lemma_views_push(out@, copy);
        }
        out.push(copy);
        i += 1;
    }
    assert(gv.take(gv.len() as int) =~= gv);
    Ok(out)
}

/// The name of a path; empty where it names nothing.
pub open spec fn name_or_empty(path: Seq<char>) -> Seq<char> {
    match file_name_of(path) {
        Some(n) => n,
        None => Seq::empty(),
    }
}

/// One of the patterns matches the name of the path or the path below the root.
pub open spec fn excluded(path: Seq<char>, root: Seq<char>, globs: Seq<Seq<char>>) -> bool {
    exists|i: int|
        0 <= i < globs.len() && (glob_match(#[trigger] globs[i], name_or_empty(path)) || glob_match(
            globs[i],
            relative_or_whole(path, root),
        ))
}

impl ScanOptions {
    /// The path is ignored or excluded.
    pub open spec fn skips(&self, path: Seq<char>, root: Seq<char>) -> bool {
        ignored(path, root, views(self.ignores@)) || excluded(path, root, views(self.excludes@))
    }

    /// Whether a pattern to leave out matches the path.
    pub fn is_excluded(&self, path: &str, root: &str) -> (r: bool)
        ensures
            r == excluded(path@, root@, views(self.excludes@)),
    {
        if self.excludes.len() == 0 {
            return false;
        }
        let name: String = match file_name(path) {
            Some(n) => n,
            None => {
                let none: String = String::new();
                assert(none@ =~= Seq::<char>::empty());
                none
            },
        };
        let rel: String = relative_to_or_whole(path, root);
        let ghost gv = views(self.excludes@);
        let mut i: usize = 0;
        while i < self.excludes.len()
            invariant
                i <= self.excludes@.len(),
                gv == views(self.excludes@),
                name@ == name_or_empty(path@),
                rel@ == relative_or_whole(path@, root@),
                forall|k: int|
                    0 <= k < i ==> !glob_match(#[trigger] gv[k], name@) && !glob_match(gv[k], rel@),
            decreases self.excludes@.len() - i,
        {
            let p: &str = self.excludes[i].as_str();
            assert(gv[i as int] == p@);
            if pattern_matches(p, name.as_str()) || pattern_matches(p, rel.as_str()) {
                return true;
            }
            i += 1;
        }
        false
    }

    /// Whether the path is ignored or excluded.
    pub fn is_skipped(&self, path: &str, root: &str) -> (r: bool)
        ensures
            r == self.skips(path@, root@),
    {
        is_ignored(path, root, &self.ignores) || self.is_excluded(path, root)
    }

    /// Whether a walk enters what it met: always its root, and never a directory
    /// that is left out.
    pub fn enters(&self, depth: usize, is_dir: bool, path: &str, root: &str) -> (r: bool)
        ensures
            r == (depth == 0 || !(is_dir && self.skips(path@, root@))),
    {
        if depth == 0 {
            return true;
        }
        !(is_dir && self.is_skipped(path, root))
    }
}

// ---- what is there ---------------------------------------------------------

/// What a directory entry is, without following links.
#[derive(Clone, Copy, Debug, PartialEq, Eq, Structural)]
pub struct Kind {
    pub symlink: bool,
    pub dir: bool,
}

/// The metadata of an entry, following links.
#[derive(Clone, Copy, Debug, PartialEq, Eq, Structural)]
pub struct Stat {
    pub dir: bool,
    pub size: u64,
    /// Modified time in nanoseconds since the Unix epoch, 0 if unavailable.
    pub mtime_ns: u64,
    pub readonly: bool,
    pub executable: bool,
}

/// One result of reading a directory.
#[derive(Clone, Debug)]
pub enum Listed {
    /// The entry could not be read.
    Unreadable,
    /// An entry; `kind` and `stat` are missing where they could not be read.
    Item { name: String, kind: Option<Kind>, stat: Option<Stat> },
}

/// A file that the manifest has to list.
#[derive(Clone, Copy, Debug, PartialEq, Eq, Structural)]
pub struct Seen {
    pub symlink: bool,
    pub stat: Stat,
}

impl View for Seen {
    type V = Seen;

    open spec fn view(&self) -> Seen {
        *self
    }
}

/// What is seen of an entry: nothing of managed files, sidecars, pointers, what is
/// left out, directories, links that are not followed, and what cannot be read.
pub open spec fn seen_of(
    opts: &ScanOptions,
    dir: Seq<char>,
    root: Seq<char>,
    name: Seq<char>,
    kind: Option<Kind>,
    stat: Option<Stat>,
) -> Option<Seen> {
    if managed_name(name) || (opts.skip_apple_double && apple_double(name)) || dedup_pointer(name)
        || opts.skips(joined_path(dir, name), root) {
        None
    } else {
        match (kind, stat) {
            (Some(k), Some(s)) => if k.dir || (k.symlink && !opts.follow_symlinks) || s.dir {
                None
            } else {
                Some(Seen { symlink: k.symlink, stat: s })
            },
            _ => None,
        }
    }
}

/// The files of a directory, by name.
pub open spec fn current_of(
    opts: &ScanOptions,
    dir: Seq<char>,
    root: Seq<char>,
    items: Seq<Listed>,
) -> Map<Seq<char>, Seen>
    decreases items.len(),
{
    if items.len() == 0 {
        Map::empty()
    } else {
        let before = current_of(opts, dir, root, items.drop_last());
        match items.last() {
            Listed::Unreadable => before,
            Listed::Item { name, kind, stat } => match seen_of(opts, dir, root, name@, kind, stat) {
                Some(s) => before.insert(name@, s),
                None => before,
            },
        }
    }
}

/// The number of entries that could not be read.
pub open spec fn unreadable(items: Seq<Listed>) -> nat
    decreases items.len(),
{
    if items.len() == 0 {
        0
    } else {
        unreadable(items.drop_last()) + if items.last() is Unreadable {
            1nat
        } else {
            0
        }
    }
}

/// The files of a directory, and the number of entries that could not be read.
pub fn list_files(opts: &ScanOptions, dir: &str, root: &str, items: &Vec<Listed>) -> (r: (
    TextMap<Seen>,
    usize,
))
    ensures
        r.0@ == current_of(opts, dir@, root@, items@),
        r.1 == unreadable(items@),
        r.1 <= items@.len(),
{
    let mut current: TextMap<Seen> = TextMap::new();
    let mut errors: usize = 0;
    let mut i: usize = 0;
    assert(items@.take(0) =~= Seq::<Listed>::empty());
    while i < items.len()
        invariant
            i <= items@.len(),
            errors <= i,
            current@ == current_of(opts, dir@, root@, items@.take(i as int)),
            errors == unreadable(items@.take(i as int)),
        decreases items@.len() - i,
    {
        proof {
            assert(items@.take(i + 1).drop_last() =~= items@.take(i as int));
            assert(items@.take(i + 1).last() == items@[i as int]);
        }
        match &items[i] {
            Listed::Unreadable => {
                errors += 1;
            },
            Listed::Item { name, kind, stat } => {
                match see(opts, dir, root, name.as_str(), *kind, *stat) {
                    Some(s) => current.insert(name.clone(), s),
                    None => {},
                }
            },
        }
        i += 1;
    }
    assert(items@.take(items@.len() as int) =~= items@);
    (current, errors)
}

fn see(
    opts: &ScanOptions,
    dir: &str,
    root: &str,
    name: &str,
    kind: Option<Kind>,
    stat: Option<Stat>,
) -> (r: Option<Seen>)
    ensures
        r == seen_of(opts, dir@, root@, name@, kind, stat),
{
    if is_manifest_file(name) || (opts.skip_apple_double && is_apple_double(name))
        || is_dedup_pointer(name) {
        return None;
    }
    let path: String = join(dir, name);
    if opts.is_skipped(path.as_str(), root) {
        return None;
    }
    match (kind, stat) {
        (Some(k), Some(s)) => if k.dir || (k.symlink && !opts.follow_symlinks) || s.dir {
            None
        } else {
            Some(Seen { symlink: k.symlink, stat: s })
        },
        _ => None,
    }
}

// ---- the plan --------------------------------------------------------------

/// A list of a text or of nothing.
pub open spec fn if_set(on: bool, s: Seq<char>) -> Seq<Seq<char>> {
    if on {
        seq![s]
    } else {
        Seq::empty()
    }
}

/// The flags of a file, in alphabetical order.
pub open spec fn flags_of(name: Seq<char>, seen: Seen) -> Seq<Seq<char>> {
    if_set(seen.stat.executable, "executable"@) + if_set(has_prefix(name, "."@), "hidden"@)
        + if_set(seen.stat.readonly, "readonly"@) + if_set(seen.symlink, "symlink"@)
}

/// The flags of a file.
pub fn flags_for(name: &str, seen: &Seen) -> (r: Vec<String>)
    ensures
        views(r@) == flags_of(name@, *seen),
{
    broadcast use lemma_views_push;

    let mut flags: Vec<String> = Vec::new();
    if seen.stat.executable {
        flags.push("executable".to_owned());
    }
    assert(views(flags@) =~= if_set(seen.stat.executable, "executable"@));
    if starts_with(name, ".") {
        flags.push("hidden".to_owned());
    }
    assert(views(flags@) =~= if_set(seen.stat.executable, "executable"@) + if_set(
        has_prefix(name@, "."@),
        "hidden"@,
    ));
    if seen.stat.readonly {
        flags.push("readonly".to_owned());
    }
    assert(views(flags@) =~= if_set(seen.stat.executable, "executable"@) + if_set(
        has_prefix(name@, "."@),
        "hidden"@,
    ) + if_set(seen.stat.readonly, "readonly"@));
    if seen.symlink {
        flags.push("symlink".to_owned());
    }
    assert(views(flags@) =~= flags_of(name@, *seen));
    flags
}

/// The record of a name, if there is one.
pub open spec fn prior(files: Map<Seq<char>, EntryView>, name: Seq<char>) -> Option<EntryView> {
    if files.dom().contains(name) {
        Some(files[name])
    } else {
        None
    }
}

/// A file has to be hashed where it is new, or where its size, its modified time or
/// the algorithm changed.
pub open spec fn hash_needed(old: Option<EntryView>, seen: Seen, algo: HashAlgo) -> bool {
    match old {
        None => true,
        Some(e) => e.algo != algo_name(algo) || e.size != seen.stat.size || e.mtime_ns
            != seen.stat.mtime_ns,
    }
}

/// Whether a file has to be hashed.
pub fn needs_hash(old: Option<&FileEntry>, size: u64, mtime: u64, algo: HashAlgo) -> (r: bool)
    ensures
        r == match old {
            None => true,
            Some(e) => e.algo@ != algo_name(algo) || e.size != size || e.mtime_ns != mtime,
        },
{
    match old {
        None => true,
        Some(e) => !text_eq(e.algo.as_str(), algo.name()) || e.size != size || e.mtime_ns != mtime,
    }
}

/// A file to hash.
#[derive(Debug)]
pub struct Pending {
    pub name: String,
    pub size: u64,
    pub mtime: u64,
    pub flags: Vec<String>,
}

/// The members of a list that have a property, in order.
pub open spec fn picked(keys: Seq<Seq<char>>, f: spec_fn(Seq<char>) -> bool) -> Seq<Seq<char>>
    decreases keys.len(),
{
    if keys.len() == 0 {
        Seq::empty()
    } else if f(keys.last()) {
        picked(keys.drop_last(), f).push(keys.last())
    } else {
        picked(keys.drop_last(), f)
    }
}

proof fn lemma_picked(keys: Seq<Seq<char>>, f: spec_fn(Seq<char>) -> bool)
    ensures
        picked(keys, f).len() <= keys.len(),
        forall|i: int|
            0 <= i < picked(keys, f).len() ==> f(#[trigger] picked(keys, f)[i]) && keys.contains(
                picked(keys, f)[i],
            ),
        forall|k: Seq<char>| keys.contains(k) && f(k) ==> #[trigger] picked(keys, f).contains(k),
    decreases keys.len(),
{
    if keys.len() > 0 {
        let init = keys.drop_last();
        let p = picked(init, f);
        lemma_picked(init, f);
        assert forall|i: int| 0 <= i < picked(keys, f).len() implies f(
            #[trigger] picked(keys, f)[i],
        ) && keys.contains(picked(keys, f)[i]) by {
            if i < p.len() {
                assert(init.contains(p[i]));
                let j = choose|j: int| 0 <= j < init.len() && init[j] == p[i];
                assert(keys[j] == p[i]);
            } else {
                assert(keys[keys.len() - 1] == keys.last());
            }
        }
        assert forall|k: Seq<char>| keys.contains(k) && f(k) implies #[trigger] picked(
            keys,
            f,
        ).contains(k) by {
            let j = choose|j: int| 0 <= j < keys.len() && keys[j] == k;
            if j < init.len() {
                assert(init[j] == k);
                assert(p.contains(k));
                let i = choose|i: int| 0 <= i < p.len() && p[i] == k;
                assert(picked(keys, f)[i] == k);
            } else {
                assert(picked(keys, f)[p.len() as int] == k);
            }
        }
    }
}

proof fn lemma_picked_ascending(keys: Seq<Seq<char>>, f: spec_fn(Seq<char>) -> bool)
    requires
        ascending(keys),
    ensures
        ascending(picked(keys, f)),
    decreases keys.len(),
{
    if keys.len() > 0 {
        let init = keys.drop_last();
        let p = picked(init, f);
        lemma_picked_ascending(init, f);
        lemma_picked(init, f);
        if f(keys.last()) {
            assert forall|i: int, j: int| 0 <= i < j < picked(keys, f).len() implies text_lt(
                #[trigger] picked(keys, f)[i],
                #[trigger] picked(keys, f)[j],
            ) by {
                if j == p.len() {
                    assert(init.contains(p[i]));
                    let x = choose|x: int| 0 <= x < init.len() && init[x] == p[i];
                    assert(text_lt(keys[x], keys[keys.len() - 1]));
                }
            }
        }
    }
}

/// The file has to be hashed.
pub open spec fn to_hash(
    old: Map<Seq<char>, EntryView>,
    cur: Map<Seq<char>, Seen>,
    algo: HashAlgo,
) -> spec_fn(Seq<char>) -> bool {
    |n: Seq<char>| hash_needed(prior(old, n), cur[n], algo)
}

/// The file keeps its hash.
pub open spec fn to_keep(
    old: Map<Seq<char>, EntryView>,
    cur: Map<Seq<char>, Seen>,
    algo: HashAlgo,
) -> spec_fn(Seq<char>) -> bool {
    |n: Seq<char>| !hash_needed(prior(old, n), cur[n], algo)
}

/// The record of a file that keeps its hash: its attributes may have changed.
pub open spec fn kept_entry(e: EntryView, name: Seq<char>, seen: Seen) -> EntryView {
    EntryView { flags: flags_of(name, seen), ..e }
}

/// What is seen of a file that has to be hashed.
pub open spec fn is_pending(p: Pending, name: Seq<char>, seen: Seen) -> bool {
    &&& p.name@ == name
    &&& p.size == seen.stat.size
    &&& p.mtime == seen.stat.mtime_ns
    &&& views(p.flags@) == flags_of(name, seen)
}

/// The names of the files to hash.
pub open spec fn pending_names(pending: Seq<Pending>) -> Seq<Seq<char>> {
    pending.map_values(|p: Pending| p.name@)
}

/// The size of some files to hash together.
pub open spec fn pending_bytes(pending: Seq<Pending>) -> nat
    decreases pending.len(),
{
    if pending.len() == 0 {
        0
    } else {
        pending_bytes(pending.drop_last()) + pending.last().size as nat
    }
}

/// What a scan does with the files of a directory.
#[derive(Debug)]
pub struct Plan {
    /// The records that keep their hash.
    pub kept: TextMap<FileEntry>,
    /// The files to hash, by name.
    pub pending: Vec<Pending>,
}

impl Plan {
    /// The plan for the files that are there and the records that were there.
    pub open spec fn is_for(
        &self,
        old: Map<Seq<char>, EntryView>,
        keys: Seq<Seq<char>>,
        cur: Map<Seq<char>, Seen>,
        algo: HashAlgo,
    ) -> bool {
        &&& pending_names(self.pending@) == picked(keys, to_hash(old, cur, algo))
        &&& forall|i: int|
            0 <= i < self.pending@.len() ==> is_pending(
                #[trigger] self.pending@[i],
                self.pending@[i].name@,
                cur[self.pending@[i].name@],
            )
        &&& forall|n: Seq<char>| #[trigger]
            self.kept@.dom().contains(n) <==> cur.dom().contains(n) && to_keep(old, cur, algo)(n)
        &&& forall|n: Seq<char>| #[trigger]
            self.kept@.dom().contains(n) ==> self.kept@[n] == kept_entry(old[n], n, cur[n])
    }
}

impl Plan {
    /// The size of the files to hash together, where it can be held.
    pub fn bytes(&self) -> (r: Option<u64>)
        ensures
            r == (if pending_bytes(self.pending@) <= u64::MAX {
                Some(pending_bytes(self.pending@) as u64)
            } else {
                None
            }),
    {
        let mut sum: u64 = 0;
        let mut i: usize = 0;
        assert(self.pending@.take(0) =~= Seq::<Pending>::empty());
        while i < self.pending.len()
            invariant
                i <= self.pending@.len(),
                sum == pending_bytes(self.pending@.take(i as int)),
            decreases self.pending@.len() - i,
        {
            proof {
                assert(self.pending@.take(i + 1).drop_last() =~= self.pending@.take(i as int));
                lemma_pending_bytes_grow(self.pending@, i + 1);
            }
            match sum.checked_add(self.pending[i].size) {
                Some(s) => {
                    sum = s;
                },
                None => return None,
            }
            i += 1;
        }
        assert(self.pending@.take(i as int) =~= self.pending@);
        Some(sum)
    }
}

proof fn lemma_pending_bytes_grow(pending: Seq<Pending>, i: int)
    requires
        0 <= i <= pending.len(),
    ensures
        pending_bytes(pending.take(i)) <= pending_bytes(pending),
    decreases pending.len(),
{
    if i == pending.len() {
        assert(pending.take(i) =~= pending);
    } else {
        assert(pending.drop_last().take(i) =~= pending.take(i));
        lemma_pending_bytes_grow(pending.drop_last(), i);
    }
}

/// Plans the scan of a directory: which records keep their hash, and which files
/// have to be hashed.
pub fn plan_dir(old: &TextMap<FileEntry>, current: &TextMap<Seen>, algo: HashAlgo) -> (r: Plan)
    ensures
        r.is_for(old@, current.keys(), current@, algo),
{
    let mut kept: TextMap<FileEntry> = TextMap::new();
    let mut pending: Vec<Pending> = Vec::new();
    let n: usize = current.len();
    let ghost keys = current.keys();
    let ghost f = to_hash(old@, current@, algo);
    let ghost g = to_keep(old@, current@, algo);
    let mut i: usize = 0;
    assert(keys.take(0) =~= Seq::<Seq<char>>::empty());
    assert(pending_names(pending@) =~= picked(keys.take(0), f));
    while i < n
        invariant
            n == keys.len(),
            i <= n,
            keys == current.keys(),
            ascending(keys),
            f == to_hash(old@, current@, algo),
            g == to_keep(old@, current@, algo),
            pending_names(pending@) == picked(keys.take(i as int), f),
            forall|k: int|
                0 <= k < pending@.len() ==> is_pending(
                    #[trigger] pending@[k],
                    pending@[k].name@,
                    current@[pending@[k].name@],
                ),
            forall|m: Seq<char>| #[trigger]
                kept@.dom().contains(m) ==> current@.dom().contains(m) && g(m) && kept@[m]
                    == kept_entry(old@[m], m, current@[m]),
            forall|k: int| 0 <= k < i && g(#[trigger] keys[k]) ==> kept@.dom().contains(keys[k]),
        decreases n - i,
    {
        let name: &String = current.key_at(i);
        let seen: Seen = *current.value_at(i);
        let flags: Vec<String> = flags_for(name.as_str(), &seen);
        let before: Option<&FileEntry> = old.get(name.as_str());
        proof {
            assert(keys.take(i + 1).drop_last() =~= keys.take(i as int));
            assert(keys.take(i + 1).last() == name@);
        }
        let mut again: bool = true;
        if let Some(e) = before {
            if !needs_hash(Some(e), seen.stat.size, seen.stat.mtime_ns, algo) {
                again = false;
                let mut copy: FileEntry = e.copy();
                copy.flags = flags_for(name.as_str(), &seen);
                assert(copy@ =~= kept_entry(old@[name@], name@, seen));
                kept.insert(name.clone(), copy);
            }
        }
        if again {
            let p: Pending = Pending {
                name: name.clone(),
                size: seen.stat.size,
                mtime: seen.stat.mtime_ns,
                flags,
            };
            assert(pending_names(pending@.push(p)) =~= pending_names(pending@).push(name@));
            pending.push(p);
        }
        i += 1;
    }
    proof {
        assert(keys.take(n as int) =~= keys);
        assert forall|m: Seq<char>| current@.dom().contains(m) && g(m) implies kept@.dom().contains(
            m,
        ) by {
            assert(keys.contains(m));
            let k = choose|k: int| 0 <= k < keys.len() && keys[k] == m;
            assert(g(keys[k]));
        }
    }
    Plan { kept, pending }
}

// ---- the outcome -----------------------------------------------------------

/// The result of hashing one file: no hash where it could not be read.
#[derive(Clone, Debug)]
pub struct Hashed {
    pub hash: Option<String>,
    /// When it was hashed, RFC 3339.
    pub at: String,
}

/// What a [`Hashed`] holds.
pub struct HashedView {
    pub hash: Option<Seq<char>>,
    pub at: Seq<char>,
}

impl View for Hashed {
    type V = HashedView;

    open spec fn view(&self) -> HashedView {
        HashedView {
            hash: match self.hash {
                Some(h) => Some(h@),
                None => None,
            },
            at: self.at@,
        }
    }
}

/// The views of some results.
pub open spec fn hashed_views(v: Seq<Hashed>) -> Seq<HashedView> {
    v.map_values(|h: Hashed| h@)
}

/// The record of a file that was hashed.
pub open spec fn fresh_entry(
    name: Seq<char>,
    seen: Seen,
    algo: HashAlgo,
    hash: Seq<char>,
    at: Seq<char>,
) -> EntryView {
    EntryView {
        size: seen.stat.size,
        mtime_ns: seen.stat.mtime_ns,
        hash,
        algo: algo_name(algo),
        flags: flags_of(name, seen),
        hashed_at: at,
    }
}

/// The record of a file after the scan. Where it could not be hashed, the record
/// that was there stays.
pub open spec fn entry_after(
    old: Map<Seq<char>, EntryView>,
    cur: Map<Seq<char>, Seen>,
    algo: HashAlgo,
    results: Map<Seq<char>, HashedView>,
    name: Seq<char>,
) -> Option<EntryView> {
    if !hash_needed(prior(old, name), cur[name], algo) {
        Some(kept_entry(old[name], name, cur[name]))
    } else {
        match results[name].hash {
            Some(h) => Some(fresh_entry(name, cur[name], algo, h, results[name].at)),
            None => prior(old, name),
        }
    }
}

/// The records after the scan: one for each file that is there and has one.
pub open spec fn files_after(
    old: Map<Seq<char>, EntryView>,
    cur: Map<Seq<char>, Seen>,
    algo: HashAlgo,
    results: Map<Seq<char>, HashedView>,
) -> Map<Seq<char>, EntryView> {
    Map::new(
        |n: Seq<char>|
            cur.dom().contains(n) && entry_after(old, cur, algo, results, n) is Some,
        |n: Seq<char>| entry_after(old, cur, algo, results, n)->0,
    )
}

/// The file was hashed.
pub open spec fn was_hashed(results: Map<Seq<char>, HashedView>) -> spec_fn(Seq<char>) -> bool {
    |n: Seq<char>| results[n].hash is Some
}

/// The file could not be hashed.
pub open spec fn was_refused(results: Map<Seq<char>, HashedView>) -> spec_fn(Seq<char>) -> bool {
    |n: Seq<char>| results[n].hash is None
}

/// The file had a record.
pub open spec fn had_record(old: Map<Seq<char>, EntryView>) -> spec_fn(Seq<char>) -> bool {
    |n: Seq<char>| old.dom().contains(n)
}

/// The file had no record.
pub open spec fn had_none(old: Map<Seq<char>, EntryView>) -> spec_fn(Seq<char>) -> bool {
    |n: Seq<char>| !old.dom().contains(n)
}

/// The file is no longer there.
pub open spec fn is_gone(cur: Map<Seq<char>, Seen>) -> spec_fn(Seq<char>) -> bool {
    |n: Seq<char>| !cur.dom().contains(n)
}

/// The size of some files together.
pub open spec fn total_size(names: Seq<Seq<char>>, cur: Map<Seq<char>, Seen>) -> nat
    decreases names.len(),
{
    if names.len() == 0 {
        0
    } else {
        total_size(names.drop_last(), cur) + cur[names.last()].stat.size as nat
    }
}

/// What a scan did.
#[derive(Clone, Copy, Debug, PartialEq, Eq, Structural)]
pub struct ScanStats {
    pub new: usize,
    pub modified: usize,
    pub unchanged: usize,
    pub removed: usize,
    pub dirs_scanned: usize,
    pub dirs_written: usize,
    pub bytes_hashed: u64,
    pub errors: usize,
}

impl Default for ScanStats {
    fn default() -> (r: Self)
        ensures
            r == ScanStats::zero(),
    {
        ScanStats {
            new: 0,
            modified: 0,
            unchanged: 0,
            removed: 0,
            dirs_scanned: 0,
            dirs_written: 0,
            bytes_hashed: 0,
            errors: 0,
        }
    }
}

impl ScanStats {
    /// Nothing was done.
    pub open spec fn zero() -> ScanStats {
        ScanStats {
            new: 0,
            modified: 0,
            unchanged: 0,
            removed: 0,
            dirs_scanned: 0,
            dirs_written: 0,
            bytes_hashed: 0,
            errors: 0,
        }
    }

    /// The counts of both can be added.
    pub open spec fn addable(self, other: ScanStats) -> bool {
        &&& self.new + other.new <= usize::MAX
        &&& self.modified + other.modified <= usize::MAX
        &&& self.unchanged + other.unchanged <= usize::MAX
        &&& self.removed + other.removed <= usize::MAX
        &&& self.dirs_scanned + other.dirs_scanned <= usize::MAX
        &&& self.dirs_written + other.dirs_written <= usize::MAX
        &&& self.bytes_hashed + other.bytes_hashed <= u64::MAX
        &&& self.errors + other.errors <= usize::MAX
    }

    /// Both together.
    pub open spec fn plus(self, other: ScanStats) -> ScanStats {
        ScanStats {
            new: (self.new + other.new) as usize,
            modified: (self.modified + other.modified) as usize,
            unchanged: (self.unchanged + other.unchanged) as usize,
            removed: (self.removed + other.removed) as usize,
            dirs_scanned: (self.dirs_scanned + other.dirs_scanned) as usize,
            dirs_written: (self.dirs_written + other.dirs_written) as usize,
            bytes_hashed: (self.bytes_hashed + other.bytes_hashed) as u64,
            errors: (self.errors + other.errors) as usize,
        }
    }

    /// Whether the counts of both can be added.
    pub fn can_merge(&self, other: &ScanStats) -> (r: bool)
        ensures
            r == self.addable(*other),
    {
        self.new <= usize::MAX - other.new && self.modified <= usize::MAX - other.modified
            && self.unchanged <= usize::MAX - other.unchanged && self.removed <= usize::MAX
            - other.removed && self.dirs_scanned <= usize::MAX - other.dirs_scanned
            && self.dirs_written <= usize::MAX - other.dirs_written && self.bytes_hashed <= u64::MAX
            - other.bytes_hashed && self.errors <= usize::MAX - other.errors
    }

    /// Both together.
    pub fn merge(self, other: ScanStats) -> (r: ScanStats)
        requires
            self.addable(other),
        ensures
            r == self.plus(other),
    {
        ScanStats {
            new: self.new + other.new,
            modified: self.modified + other.modified,
            unchanged: self.unchanged + other.unchanged,
            removed: self.removed + other.removed,
            dirs_scanned: self.dirs_scanned + other.dirs_scanned,
            dirs_written: self.dirs_written + other.dirs_written,
            bytes_hashed: self.bytes_hashed + other.bytes_hashed,
            errors: self.errors + other.errors,
        }
    }

    /// What counts for a directory that could not be processed.
    pub fn failed() -> (r: ScanStats)
        ensures
            r == (ScanStats { errors: 1, ..ScanStats::zero() }),
    {
        let mut s: ScanStats = ScanStats::default();
        s.errors = 1;
        s
    }

    /// The summary line of a scan.
    pub fn to_text(&self) -> (r: String)
        ensures
            r@ == stats_text(*self),
    {
        let mut out: String = usize_text(self.new);
        out.append(" new, ");
        out.append(usize_text(self.modified).as_str());
        out.append(" modified, ");
        out.append(usize_text(self.unchanged).as_str());
        out.append(" unchanged, ");
        out.append(usize_text(self.removed).as_str());
        out.append(" removed across ");
        out.append(usize_text(self.dirs_scanned).as_str());
        out.append(" dirs (");
        out.append(usize_text(self.dirs_written).as_str());
        out.append(" manifests written, ");
        out.append(u64_text(self.bytes_hashed).as_str());
        out.append(" bytes hashed, ");
        out.append(usize_text(self.errors).as_str());
        out.append(" errors)");
        out
    }
}

/// The summary line of a scan.
pub open spec fn stats_text(s: ScanStats) -> Seq<char> {
    decimal(s.new as nat) + " new, "@ + decimal(s.modified as nat) + " modified, "@ + decimal(
        s.unchanged as nat,
    ) + " unchanged, "@ + decimal(s.removed as nat) + " removed across "@ + decimal(
        s.dirs_scanned as nat,
    ) + " dirs ("@ + decimal(s.dirs_written as nat) + " manifests written, "@ + decimal(
        s.bytes_hashed as nat,
    ) + " bytes hashed, "@ + decimal(s.errors as nat) + " errors)"@
}

/// What happened to a file.
#[derive(Clone, Copy, Debug, PartialEq, Eq, Structural)]
pub enum FileStatus {
    New,
    Modified,
    Unchanged,
    Removed,
}

/// The word for what happened to a file.
pub open spec fn status_word(status: FileStatus) -> Seq<char> {
    match status {
        FileStatus::New => "new"@,
        FileStatus::Modified => "modified"@,
        FileStatus::Unchanged => "unchanged"@,
        FileStatus::Removed => "removed"@,
    }
}

/// The line that reports a file: what happened to it in a column before its path where
/// every file is reported, else only that it was hashed where details are asked for.
pub open spec fn report_text(opts: &ScanOptions, status: FileStatus, path: Seq<char>) -> Option<
    Seq<char>,
> {
    if opts.status {
        Some(left_aligned(status_word(status), 9) + " "@ + path)
    } else if (status is New || status is Modified) && opts.verbose && !opts.quiet {
        Some("  hashed "@ + path)
    } else {
        None
    }
}

/// The line that reports a file, if it is reported.
pub fn print_status(opts: &ScanOptions, status: FileStatus, path: &str) -> (r: Option<String>)
    ensures
        match r {
            Some(line) => report_text(opts, status, path@) == Some(line@),
            None => report_text(opts, status, path@) is None,
        },
{
    if opts.status {
        let word: &str = match status {
            FileStatus::New => "new",
            FileStatus::Modified => "modified",
            FileStatus::Unchanged => "unchanged",
            FileStatus::Removed => "removed",
        };
        return Some(concat3(align_left(word, 9).as_str(), " ", path));
    }
    let hashed: bool = match status {
        FileStatus::New => true,
        FileStatus::Modified => true,
        _ => false,
    };
    if hashed && opts.verbose && !opts.quiet {
        return Some(concat2("  hashed ", path));
    }
    None
}

/// What to do with the manifest on disk.
#[derive(Clone, Copy, Debug, PartialEq, Eq, Structural)]
pub enum DirAction {
    /// Leave it: nothing changed, or nothing is to be written.
    Leave,
    /// Remove it: it would be empty.
    Delete,
    /// Write it.
    Write,
}

/// What a scan of a directory comes to.
#[derive(Debug)]
pub struct DirOutcome {
    pub files: TextMap<FileEntry>,
    pub stats: ScanStats,
    /// The records differ from those that were there.
    pub changed: bool,
    pub action: DirAction,
    /// What happened to each file: those that kept their hash, those that were
    /// hashed, those that are gone; each by name.
    pub report: Vec<(FileStatus, String)>,
}

/// The report lines of some names.
pub open spec fn lines(names: Seq<Seq<char>>, status: FileStatus) -> Seq<(FileStatus, Seq<char>)> {
    names.map_values(|n: Seq<char>| (status, n))
}

/// The report lines of files that were hashed.
pub open spec fn hashed_lines(names: Seq<Seq<char>>, old: Map<Seq<char>, EntryView>) -> Seq<
    (FileStatus, Seq<char>),
> {
    names.map_values(
        |n: Seq<char>|
            (
                if old.dom().contains(n) {
                    FileStatus::Modified
                } else {
                    FileStatus::New
                },
                n,
            ),
    )
}

/// The views of some report lines.
pub open spec fn line_views(report: Seq<(FileStatus, String)>) -> Seq<(FileStatus, Seq<char>)> {
    report.map_values(|l: (FileStatus, String)| (l.0, l.1@))
}

/// The counts of a scan of one directory.
pub open spec fn stats_are(
    stats: ScanStats,
    old: Map<Seq<char>, EntryView>,
    old_keys: Seq<Seq<char>>,
    cur: Map<Seq<char>, Seen>,
    keys: Seq<Seq<char>>,
    algo: HashAlgo,
    results: Map<Seq<char>, HashedView>,
    errors: int,
    changed: bool,
) -> bool {
    let pending = picked(keys, to_hash(old, cur, algo));
    let hashed = picked(pending, was_hashed(results));
    &&& stats.unchanged == picked(keys, to_keep(old, cur, algo)).len()
    &&& stats.modified == picked(hashed, had_record(old)).len()
    &&& stats.new == picked(hashed, had_none(old)).len()
    &&& stats.bytes_hashed == total_size(hashed, cur)
    &&& stats.errors == errors + picked(pending, was_refused(results)).len()
    &&& stats.removed == picked(old_keys, is_gone(cur)).len()
    &&& stats.dirs_scanned == 1
    &&& stats.dirs_written == if changed {
        1int
    } else {
        0
    }
}

/// The report of a scan of one directory.
pub open spec fn report_of(
    old: Map<Seq<char>, EntryView>,
    old_keys: Seq<Seq<char>>,
    cur: Map<Seq<char>, Seen>,
    keys: Seq<Seq<char>>,
    algo: HashAlgo,
    results: Map<Seq<char>, HashedView>,
) -> Seq<(FileStatus, Seq<char>)> {
    lines(picked(keys, to_keep(old, cur, algo)), FileStatus::Unchanged) + hashed_lines(
        picked(picked(keys, to_hash(old, cur, algo)), was_hashed(results)),
        old,
    ) + lines(picked(old_keys, is_gone(cur)), FileStatus::Removed)
}

proof fn lemma_picked_size(
    names: Seq<Seq<char>>,
    f: spec_fn(Seq<char>) -> bool,
    cur: Map<Seq<char>, Seen>,
)
    ensures
        total_size(picked(names, f), cur) <= total_size(names, cur),
    decreases names.len(),
{
    if names.len() > 0 {
        lemma_picked_size(names.drop_last(), f, cur);
        let p = picked(names.drop_last(), f);
        assert(p.push(names.last()).drop_last() =~= p);
    }
}

/// The names of a map that are in a set of records, as report lines.
fn report_kept(
    old: &TextMap<FileEntry>,
    current: &TextMap<Seen>,
    plan: &Plan,
    algo: HashAlgo,
) -> (r: Vec<(FileStatus, String)>)
    requires
        plan.is_for(old@, current.keys(), current@, algo),
    ensures
        line_views(r@) == lines(
            picked(current.keys(), to_keep(old@, current@, algo)),
            FileStatus::Unchanged,
        ),
{
    let mut out: Vec<(FileStatus, String)> = Vec::new();
    let ghost keys = current.keys();
    let ghost g = to_keep(old@, current@, algo);
    let n: usize = current.len();
    let mut i: usize = 0;
    assert(line_views(out@) =~= lines(picked(keys.take(0), g), FileStatus::Unchanged));
    while i < n
        invariant
            n == keys.len(),
            i <= n,
            keys == current.keys(),
            g == to_keep(old@, current@, algo),
            plan.is_for(old@, keys, current@, algo),
            line_views(out@) == lines(picked(keys.take(i as int), g), FileStatus::Unchanged),
        decreases n - i,
    {
        let name: &String = current.key_at(i);
        let ghost p = picked(keys.take(i as int), g);
        proof {
            assert(keys.take(i + 1).drop_last() =~= keys.take(i as int));
            assert(keys.take(i + 1).last() == name@);
            assert(lines(p.push(name@), FileStatus::Unchanged) =~= lines(
                p,
                FileStatus::Unchanged,
            ).push((FileStatus::Unchanged, name@)));
        }
        if plan.kept.contains(name.as_str()) {
            let line: (FileStatus, String) = (FileStatus::Unchanged, name.clone());
            assert(line_views(out@.push(line)) =~= line_views(out@).push(
                (FileStatus::Unchanged, name@),
            ));
            out.push(line);
        }
        i += 1;
    }
    assert(keys.take(n as int) =~= keys);
    out
}

/// The records whose files are gone, as report lines.
fn report_removed(old: &TextMap<FileEntry>, current: &TextMap<Seen>) -> (r: Vec<
    (FileStatus, String),
>)
    ensures
        line_views(r@) == lines(picked(old.keys(), is_gone(current@)), FileStatus::Removed),
{
    let mut out: Vec<(FileStatus, String)> = Vec::new();
    let ghost keys = old.keys();
    let ghost g = is_gone(current@);
    let n: usize = old.len();
    let mut i: usize = 0;
    assert(line_views(out@) =~= lines(picked(keys.take(0), g), FileStatus::Removed));
    while i < n
        invariant
            n == keys.len(),
            i <= n,
            keys == old.keys(),
            g == is_gone(current@),
            line_views(out@) == lines(picked(keys.take(i as int), g), FileStatus::Removed),
        decreases n - i,
    {
        let name: &String = old.key_at(i);
        let ghost p = picked(keys.take(i as int), g);
        proof {
            assert(keys.take(i + 1).drop_last() =~= keys.take(i as int));
            assert(keys.take(i + 1).last() == name@);
            assert(lines(p.push(name@), FileStatus::Removed) =~= lines(
                p,
                FileStatus::Removed,
            ).push((FileStatus::Removed, name@)));
        }
        if !current.contains(name.as_str()) {
            let line: (FileStatus, String) = (FileStatus::Removed, name.clone());
            assert(line_views(out@.push(line)) =~= line_views(out@).push(
                (FileStatus::Removed, name@),
            ));
            out.push(line);
        }
        i += 1;
    }
    assert(keys.take(n as int) =~= keys);
    out
}

/// The results of hashing, by name.
pub open spec fn results_of(pending: Seq<Pending>, results: Seq<Hashed>) -> Map<
    Seq<char>,
    HashedView,
> {
    map_of(pending_names(pending), hashed_views(results))
}

/// The records after the scan as far as the first `j` results go.
spec fn files_so_far(
    files: Map<Seq<char>, EntryView>,
    old: Map<Seq<char>, EntryView>,
    cur: Map<Seq<char>, Seen>,
    algo: HashAlgo,
    results: Map<Seq<char>, HashedView>,
    done: Seq<Seq<char>>,
) -> bool {
    forall|n: Seq<char>|
        #![trigger files.dom().contains(n)]
        {
            &&& files.dom().contains(n) <==> {
                &&& cur.dom().contains(n)
                &&& entry_after(old, cur, algo, results, n) is Some
                &&& (to_keep(old, cur, algo)(n) || done.contains(n))
            }
            &&& files.dom().contains(n) ==> files[n] == entry_after(old, cur, algo, results, n)->0
        }
}

/// Ends the scan of a directory, once its pending files were hashed: the records
/// that it has now, what changed, and what to do with the manifest.
pub fn finish_dir(
    opts: &ScanOptions,
    old: &TextMap<FileEntry>,
    current: &TextMap<Seen>,
    plan: Plan,
    results: &Vec<Hashed>,
    errors: usize,
) -> (r: DirOutcome)
    requires
        plan.is_for(old@, current.keys(), current@, opts.algo),
        results@.len() == plan.pending@.len(),
        errors + results@.len() <= usize::MAX,
        pending_bytes(plan.pending@) <= u64::MAX,
    ensures
        r.files@ == files_after(
            old@,
            current@,
            opts.algo,
            results_of(plan.pending@, results@),
        ),
        r.changed == (r.files@ != old@),
        r.action == (if !r.changed || opts.dry_run {
            DirAction::Leave
        } else if r.files@ == Map::<Seq<char>, EntryView>::empty() {
            DirAction::Delete
        } else {
            DirAction::Write
        }),
        stats_are(
            r.stats,
            old@,
            old.keys(),
            current@,
            current.keys(),
            opts.algo,
            results_of(plan.pending@, results@),
            errors as int,
            r.changed,
        ),
        line_views(r.report@) == report_of(
            old@,
            old.keys(),
            current@,
            current.keys(),
            opts.algo,
            results_of(plan.pending@, results@),
        ),
{
    let algo: HashAlgo = opts.algo;
    let mut report: Vec<(FileStatus, String)> = report_kept(old, current, &plan, algo);
    let unchanged: usize = report.len();
    let mut stats: ScanStats = ScanStats::default();
    stats.unchanged = unchanged;
    stats.errors = errors;
    let n: usize = current.len();
    let ghost keys = current.keys();
    let ghost cur = current@;
    let ghost pn = pending_names(plan.pending@);
    let ghost res = results_of(plan.pending@, results@);
    let ghost ok = was_hashed(res);
    let ghost bad = was_refused(res);
    let ghost kept_lines = line_views(report@);
    let pending: Vec<Pending> = plan.pending;
    let mut files: TextMap<FileEntry> = plan.kept;
    proof {
        lemma_picked(keys, to_hash(old@, cur, algo));
        lemma_picked_ascending(keys, to_hash(old@, cur, algo));
        lemma_pending_bytes(pending@, cur);
        lemma_picked_size(pn, ok, cur);
        assert(pn.take(0) =~= Seq::<Seq<char>>::empty());
        assert(kept_lines + hashed_lines(picked(pn.take(0), ok), old@) =~= kept_lines);
        assert forall|m: Seq<char>| #[trigger] files@.dom().contains(m) implies files@[m]
            == entry_after(old@, cur, algo, res, m)->0 by {}
        assert(files_so_far(files@, old@, cur, algo, res, pn.take(0)));
    }
    let mut j: usize = 0;
    while j < pending.len()
        invariant
            j <= pending@.len(),
            pending@.len() == results@.len(),
            algo == opts.algo,
            keys == current.keys(),
            cur == current@,
            pn == pending_names(pending@),
            res == results_of(pending@, results@),
            ok == was_hashed(res),
            bad == was_refused(res),
            ascending(pn),
            pn == picked(keys, to_hash(old@, cur, algo)),
            forall|i: int|
                0 <= i < pn.len() ==> to_hash(old@, cur, algo)(#[trigger] pn[i])
                    && cur.dom().contains(pn[i]),
            forall|i: int|
                0 <= i < pending@.len() ==> is_pending(
                    #[trigger] pending@[i],
                    pending@[i].name@,
                    cur[pending@[i].name@],
                ),
            files_so_far(files@, old@, cur, algo, res, pn.take(j as int)),
            errors + results@.len() <= usize::MAX,
            total_size(picked(pn, ok), cur) <= u64::MAX,
            stats.unchanged == unchanged,
            stats.removed == 0,
            stats.dirs_scanned == 0,
            stats.dirs_written == 0,
            stats.errors == errors + picked(pn.take(j as int), bad).len(),
            picked(pn.take(j as int), bad).len() <= j,
            picked(pn.take(j as int), ok).len() <= j,
            stats.bytes_hashed == total_size(picked(pn.take(j as int), ok), cur),
            stats.modified == picked(picked(pn.take(j as int), ok), had_record(old@)).len(),
            stats.new == picked(picked(pn.take(j as int), ok), had_none(old@)).len(),
            stats.modified + stats.new <= j,
            line_views(report@) == kept_lines + hashed_lines(picked(pn.take(j as int), ok), old@),
        decreases pending@.len() - j,
    {
        let p: &Pending = &pending[j];
        let ghost before = picked(pn.take(j as int), ok);
        proof {
            assert(pn[j as int] == p.name@);
            lemma_key_index(pn, j as int);
            assert(hashed_views(results@)[j as int] == results@[j as int]@);
            assert(res[p.name@] == results@[j as int]@);
            assert(pn.take(j + 1).drop_last() =~= pn.take(j as int));
            assert(pn.take(j + 1).last() == p.name@);
            assert(pn.take(j + 1) =~= pn.take(j as int).push(p.name@));
            assert(to_hash(old@, cur, algo)(pn[j as int]));
            assert(before.push(p.name@).drop_last() =~= before);
            assert(hashed_lines(before.push(p.name@), old@) =~= hashed_lines(before, old@).push(
                hashed_lines(before.push(p.name@), old@).last(),
            ));
        }
        let ghost files0 = files@;
        match &results[j].hash {
            Some(hash) => {
                proof {
                    lemma_picked_prefix_size(pn, ok, cur, j + 1);
                }
                let status: FileStatus = if old.contains(p.name.as_str()) {
                    stats.modified = stats.modified + 1;
                    FileStatus::Modified
                } else {
                    stats.new = stats.new + 1;
                    FileStatus::New
                };
                stats.bytes_hashed = stats.bytes_hashed + p.size;
                let line: (FileStatus, String) = (status, p.name.clone());
                assert(line_views(report@.push(line)) =~= line_views(report@).push(
                    (status, p.name@),
                ));
                report.push(line);
                assert(line_views(report@) =~= kept_lines + hashed_lines(
                    before.push(p.name@),
                    old@,
                ));
                let entry: FileEntry = FileEntry {
                    size: p.size,
                    mtime_ns: p.mtime,
                    hash: hash.clone(),
                    algo: algo.name().to_owned(),
                    flags: crate::manifest::copy_texts(&p.flags),
                    hashed_at: results[j].at.clone(),
                };
                assert(entry@ == entry_after(old@, cur, algo, res, p.name@)->0);
                files.insert(p.name.clone(), entry);
            },
            None => {
                stats.errors = stats.errors + 1;
                if let Some(prior) = old.get(p.name.as_str()) {
                    files.insert(p.name.clone(), prior.copy());
                }
            },
        }
        proof {
            assert(files_so_far(files@, old@, cur, algo, res, pn.take(j + 1))) by {
                assert forall|m: Seq<char>|
                    pn.take(j + 1).contains(m) <==> pn.take(j as int).contains(m) || m == p.name@ by {
                    if pn.take(j as int).contains(m) {
                        let x = choose|x: int| 0 <= x < j && pn.take(j as int)[x] == m;
                        assert(pn.take(j + 1)[x] == m);
                    }
                    assert(pn.take(j + 1)[j as int] == p.name@);
                }
                assert forall|m: Seq<char>| #[trigger] files@.dom().contains(m) <==> (
                files0.dom().contains(m) || (m == p.name@ && entry_after(
                    old@,
                    cur,
                    algo,
                    res,
                    m,
                ) is Some)) by {}
            }
        }
        j += 1;
    }
    proof {
        assert(pn.take(pn.len() as int) =~= pn);
        assert(files@ =~= files_after(old@, cur, algo, res)) by {
            assert forall|m: Seq<char>| #[trigger] files@.dom().contains(m) <==> files_after(
                old@,
                cur,
                algo,
                res,
            ).dom().contains(m) by {
                if cur.dom().contains(m) && to_hash(old@, cur, algo)(m) {
                    assert(keys.contains(m));
                    assert(pn.contains(m));
                }
            }
        }
    }
    let mut gone: Vec<(FileStatus, String)> = report_removed(old, current);
    stats.removed = gone.len();
    let ghost gone_lines = line_views(gone@);
    let ghost so_far = report@;
    let ghost gone_seq = gone@;
    report.append(&mut gone);
    assert(line_views(report@) =~= line_views(so_far) + line_views(gone_seq));
    stats.dirs_scanned = 1;
    let changed: bool = !same_files(&files, old);
    if changed {
        stats.dirs_written = 1;
    }
    let count: usize = files.len();
    proof {
        if count == 0 {
            assert(files@ =~= Map::<Seq<char>, EntryView>::empty());
        } else {
            assert(files.keys().contains(files.keys()[0]));
            assert(files@.dom().contains(files.keys()[0]));
        }
    }
    let action: DirAction = if !changed || opts.dry_run {
        DirAction::Leave
    } else if count == 0 {
        DirAction::Delete
    } else {
        DirAction::Write
    };
    DirOutcome { files, stats, changed, action, report }
}

proof fn lemma_pending_bytes(pending: Seq<Pending>, cur: Map<Seq<char>, Seen>)
    requires
        forall|i: int|
            0 <= i < pending.len() ==> is_pending(
                #[trigger] pending[i],
                pending[i].name@,
                cur[pending[i].name@],
            ),
    ensures
        pending_bytes(pending) == total_size(pending_names(pending), cur),
    decreases pending.len(),
{
    if pending.len() > 0 {
        let init = pending.drop_last();
        assert(pending_names(init) =~= pending_names(pending).drop_last());
        assert forall|i: int| 0 <= i < init.len() implies is_pending(
            #[trigger] init[i],
            init[i].name@,
            cur[init[i].name@],
        ) by {
            assert(init[i] == pending[i]);
        }
        lemma_pending_bytes(init, cur);
    }
}

/// The picked files of a beginning are no larger than those of the whole.
proof fn lemma_picked_prefix_size(
    names: Seq<Seq<char>>,
    f: spec_fn(Seq<char>) -> bool,
    cur: Map<Seq<char>, Seen>,
    i: int,
)
    requires
        0 <= i <= names.len(),
    ensures
        total_size(picked(names.take(i), f), cur) <= total_size(picked(names, f), cur),
    decreases names.len(),
{
    if i == names.len() {
        assert(names.take(i) =~= names);
    } else {
        let init = names.drop_last();
        assert(init.take(i) =~= names.take(i));
        lemma_picked_prefix_size(init, f, cur, i);
        assert(picked(init, f).push(names.last()).drop_last() =~= picked(init, f));
    }
}

// ---- laws ------------------------------------------------------------------

/// Scanning again changes nothing: where every file that had to be hashed was, a
/// second scan of the same files has nothing to hash and gives the same records, so
/// it writes no manifest.
pub proof fn law_rescan_changes_nothing(
    old: Map<Seq<char>, EntryView>,
    cur: Map<Seq<char>, Seen>,
    algo: HashAlgo,
    first: Map<Seq<char>, HashedView>,
    second: Map<Seq<char>, HashedView>,
)
    requires
        forall|n: Seq<char>| #[trigger]
            cur.dom().contains(n) && hash_needed(prior(old, n), cur[n], algo)
                ==> first[n].hash is Some,
    ensures
        ({
            let files = files_after(old, cur, algo, first);
            &&& forall|n: Seq<char>| #[trigger]
                cur.dom().contains(n) ==> !hash_needed(prior(files, n), cur[n], algo)
            &&& files_after(files, cur, algo, second) == files
        }),
{
    let files = files_after(old, cur, algo, first);
    assert forall|n: Seq<char>| #[trigger] cur.dom().contains(n) implies !hash_needed(
        prior(files, n),
        cur[n],
        algo,
    ) && files.dom().contains(n) && kept_entry(files[n], n, cur[n]) == files[n] by {
        let e = entry_after(old, cur, algo, first, n)->0;
        assert(files[n] == e);
        assert(kept_entry(e, n, cur[n]) =~= e);
    }
    assert(files_after(files, cur, algo, second) =~= files);
}

/// A manifest lists only files that are there.
pub proof fn law_only_present_files_are_listed(
    old: Map<Seq<char>, EntryView>,
    cur: Map<Seq<char>, Seen>,
    algo: HashAlgo,
    results: Map<Seq<char>, HashedView>,
    name: Seq<char>,
)
    requires
        !cur.dom().contains(name),
    ensures
        !files_after(old, cur, algo, results).dom().contains(name),
{
}

/// A file that cannot be hashed keeps the record that it had.
pub proof fn law_unreadable_file_keeps_its_record(
    old: Map<Seq<char>, EntryView>,
    cur: Map<Seq<char>, Seen>,
    algo: HashAlgo,
    results: Map<Seq<char>, HashedView>,
    name: Seq<char>,
)
    requires
        cur.dom().contains(name),
        hash_needed(prior(old, name), cur[name], algo),
        results[name].hash is None,
    ensures
        prior(files_after(old, cur, algo, results), name) == prior(old, name),
{
}

/// Managed files and pointers are never listed, and sidecars are not where they are
/// skipped.
pub proof fn law_managed_files_are_never_listed(
    opts: &ScanOptions,
    dir: Seq<char>,
    root: Seq<char>,
    items: Seq<Listed>,
    name: Seq<char>,
)
    requires
        managed_name(name) || dedup_pointer(name) || (opts.skip_apple_double && apple_double(name)),
    ensures
        !current_of(opts, dir, root, items).dom().contains(name),
    decreases items.len(),
{
    if items.len() > 0 {
        law_managed_files_are_never_listed(opts, dir, root, items.drop_last(), name);
    }
}

/// The counts of a scan do not depend on the order in which directories are merged.
pub proof fn law_merge_in_any_order(a: ScanStats, b: ScanStats, c: ScanStats)
    requires
        a.addable(b),
        b.addable(c),
        a.plus(b).addable(c),
    ensures
        a.plus(b) == b.plus(a),
        a.addable(b.plus(c)),
        a.plus(b).plus(c) == a.plus(b.plus(c)),
        a.plus(ScanStats::zero()) == a,
{
}

/// Every file that a directory holds is listed, with its metadata as read: whatever
/// is no directory, is no link or one that is followed, and has none of the names
/// that are left out. Its size, its times and its permissions do not matter.
pub proof fn law_every_regular_file_is_listed(
    opts: &ScanOptions,
    dir: Seq<char>,
    root: Seq<char>,
    items: Seq<Listed>,
    i: int,
    kind: Kind,
    stat: Stat,
)
    requires
        0 <= i < items.len(),
        items[i] is Item,
        items[i]->kind == Some(kind),
        items[i]->stat == Some(stat),
        !kind.dir,
        !stat.dir,
        kind.symlink ==> opts.follow_symlinks,
        items[i]->name@ != ".hashit"@,
        items[i]->name@ != ".hashit-drive"@,
        forall|rest: Seq<char>| items[i]->name@ != ".hashit.tmp."@ + rest,
        forall|rest: Seq<char>| items[i]->name@ != rest + ".dedup"@,
        opts.skip_apple_double ==> forall|rest: Seq<char>| items[i]->name@ != "._"@ + rest,
        !ignored(joined_path(dir, items[i]->name@), root, views(opts.ignores@)),
        !excluded(joined_path(dir, items[i]->name@), root, views(opts.excludes@)),
        forall|j: int|
            i < j < items.len() && (#[trigger] items[j]) is Item ==> items[j]->name@
                != items[i]->name@,
    ensures
        current_of(opts, dir, root, items).dom().contains(items[i]->name@),
        current_of(opts, dir, root, items)[items[i]->name@].stat == stat,
        current_of(opts, dir, root, items)[items[i]->name@].symlink == kind.symlink,
    decreases items.len(),
{
    let name = items[i]->name@;
    law_parts_are_what_stands_in_a_text(name, ".hashit.tmp."@);
    law_parts_are_what_stands_in_a_text(name, ".dedup"@);
    law_parts_are_what_stands_in_a_text(name, "._"@);
    let init = items.drop_last();
    if i < init.len() {
        assert forall|j: int| i < j < init.len() && (#[trigger] init[j]) is Item implies
            init[j]->name@ != init[i]->name@ by {
            assert(init[j] == items[j]);
        }
        law_every_regular_file_is_listed(opts, dir, root, init, i, kind, stat);
        let last = items[items.len() - 1];
        assert(last is Item ==> last->name@ != name);
    }
}

/// Nothing else is listed: what is listed stands among the entries as no directory,
/// as no link that is not followed, under a name and a path that are not left out.
pub proof fn law_only_regular_files_are_listed(
    opts: &ScanOptions,
    dir: Seq<char>,
    root: Seq<char>,
    items: Seq<Listed>,
    name: Seq<char>,
) -> (i: int)
    requires
        current_of(opts, dir, root, items).dom().contains(name),
    ensures
        0 <= i < items.len(),
        items[i] is Item,
        items[i]->name@ == name,
        items[i]->kind is Some,
        items[i]->stat is Some,
        !items[i]->kind->0.dir,
        !items[i]->stat->0.dir,
        items[i]->kind->0.symlink ==> opts.follow_symlinks,
        current_of(opts, dir, root, items)[name].stat == items[i]->stat->0,
        current_of(opts, dir, root, items)[name].symlink == items[i]->kind->0.symlink,
        name != ".hashit"@,
        name != ".hashit-drive"@,
        forall|rest: Seq<char>| name != ".hashit.tmp."@ + rest,
        forall|rest: Seq<char>| name != rest + ".dedup"@,
        opts.skip_apple_double ==> forall|rest: Seq<char>| name != "._"@ + rest,
        !ignored(joined_path(dir, name), root, views(opts.ignores@)),
        !excluded(joined_path(dir, name), root, views(opts.excludes@)),
    decreases items.len(),
{
    law_parts_are_what_stands_in_a_text(name, ".hashit.tmp."@);
    law_parts_are_what_stands_in_a_text(name, ".dedup"@);
    law_parts_are_what_stands_in_a_text(name, "._"@);
    let n = items.len() - 1;
    let before = current_of(opts, dir, root, items.drop_last());
    let last_seen = items[n] is Item && seen_of(
        opts,
        dir,
        root,
        items[n]->name@,
        items[n]->kind,
        items[n]->stat,
    ) is Some;
    if last_seen && items[n]->name@ == name {
        n
    } else {
        assert(before.dom().contains(name));
        let i = law_only_regular_files_are_listed(opts, dir, root, items.drop_last(), name);
        assert(items.drop_last()[i] == items[i]);
        i
    }
}

/// A path is excluded by each pattern that matches its name and by each that matches
/// it below the root, and by nothing else; so more patterns exclude no less.
pub proof fn law_each_pattern_excludes(
    path: Seq<char>,
    root: Seq<char>,
    globs: Seq<Seq<char>>,
    more: Seq<Seq<char>>,
    i: int,
)
    requires
        0 <= i < globs.len(),
    ensures
        glob_match(globs[i], name_or_empty(path)) ==> excluded(path, root, globs),
        glob_match(globs[i], relative_or_whole(path, root)) ==> excluded(path, root, globs),
        excluded(path, root, globs + more) == (excluded(path, root, globs) || excluded(
            path,
            root,
            more,
        )),
        !excluded(path, root, Seq::empty()),
{
    let whole = globs + more;
    if excluded(path, root, globs) {
        let k = choose|k: int|
            0 <= k < globs.len() && (glob_match(#[trigger] globs[k], name_or_empty(path))
                || glob_match(globs[k], relative_or_whole(path, root)));
        assert(whole[k] == globs[k]);
    }
    if excluded(path, root, more) {
        let k = choose|k: int|
            0 <= k < more.len() && (glob_match(#[trigger] more[k], name_or_empty(path))
                || glob_match(more[k], relative_or_whole(path, root)));
        assert(whole[globs.len() + k] == more[k]);
    }
    if excluded(path, root, whole) {
        let k = choose|k: int|
            0 <= k < whole.len() && (glob_match(#[trigger] whole[k], name_or_empty(path))
                || glob_match(whole[k], relative_or_whole(path, root)));
        if k < globs.len() {
            assert(whole[k] == globs[k]);
        } else {
            assert(whole[k] == more[k - globs.len()]);
        }
    }
}

/// The flags of a file say of each attribute whether it has it, and nothing else.
pub proof fn law_flags_name_the_attributes(name: Seq<char>, seen: Seen, flag: Seq<char>)
    ensures
        flags_of(name, seen).contains("executable"@) == seen.stat.executable,
        flags_of(name, seen).contains("hidden"@) == (name.len() > 0 && name[0] == '.'),
        flags_of(name, seen).contains("readonly"@) == seen.stat.readonly,
        flags_of(name, seen).contains("symlink"@) == seen.symlink,
        flags_of(name, seen).contains(flag) ==> flag == "executable"@ || flag == "hidden"@ || flag
            == "readonly"@ || flag == "symlink"@,
{
    reveal_strlit("executable");
    reveal_strlit("hidden");
    reveal_strlit("readonly");
    reveal_strlit("symlink");
    reveal_strlit(".");
    let (e, h, r, l) = ("executable"@, "hidden"@, "readonly"@, "symlink"@);
    assert(e[0] == 'e' && h[0] == 'h' && r[0] == 'r' && l[0] == 's');
    assert(has_prefix(name, "."@) == (name.len() > 0 && name[0] == '.')) by {
        if name.len() > 0 {
            assert(name.subrange(0, 1)[0] == name[0]);
            if name[0] == '.' {
                assert(name.subrange(0, 1) =~= "."@);
            }
        }
    }
    let a = if_set(seen.stat.executable, e);
    let b = if_set(has_prefix(name, "."@), h);
    let c = if_set(seen.stat.readonly, r);
    let d = if_set(seen.symlink, l);
    let whole = flags_of(name, seen);
    assert(whole =~= a + b + c + d);
    if seen.stat.executable {
        assert(whole[0] == e);
    }
    if has_prefix(name, "."@) {
        assert(whole[a.len() as int] == h);
    }
    if seen.stat.readonly {
        assert(whole[(a + b).len() as int] == r);
    }
    if seen.symlink {
        assert(whole[(a + b + c).len() as int] == l);
    }
}

/// A file is hashed again exactly where the record was made by another algorithm, or
/// its size or its modified time is another; its attributes do not matter.
pub proof fn law_hashed_again_only_where_it_changed(e: EntryView, seen: Seen, algo: HashAlgo)
    ensures
        hash_needed(None, seen, algo),
        seen.stat.size != e.size ==> hash_needed(Some(e), seen, algo),
        seen.stat.mtime_ns != e.mtime_ns ==> hash_needed(Some(e), seen, algo),
        algo is Blake3 && e.algo != "blake3"@ ==> hash_needed(Some(e), seen, algo),
        algo is Sha256 && e.algo != "sha256"@ ==> hash_needed(Some(e), seen, algo),
        hash_needed(Some(e), seen, algo) ==> seen.stat.size != e.size || seen.stat.mtime_ns
            != e.mtime_ns || (algo is Blake3 && e.algo != "blake3"@) || (algo is Sha256 && e.algo
            != "sha256"@),
{
}

/// A file that was hashed is recorded with its hash, with the size and the time that
/// were read before, with the algorithm's name and with when it was hashed. One that
/// was not keeps its hash, its algorithm and when it was hashed. Either has the flags
/// of the file as it is.
pub proof fn law_record_after_a_scan(
    old: Map<Seq<char>, EntryView>,
    cur: Map<Seq<char>, Seen>,
    algo: HashAlgo,
    results: Map<Seq<char>, HashedView>,
    name: Seq<char>,
)
    requires
        cur.dom().contains(name),
    ensures
        ({
            let needed = hash_needed(prior(old, name), cur[name], algo);
            let after = files_after(old, cur, algo, results);
            &&& needed && results[name].hash is Some ==> {
                &&& after.dom().contains(name)
                &&& after[name].hash == results[name].hash->0
                &&& after[name].hashed_at == results[name].at
                &&& after[name].size == cur[name].stat.size
                &&& after[name].mtime_ns == cur[name].stat.mtime_ns
                &&& algo is Blake3 ==> after[name].algo == "blake3"@
                &&& algo is Sha256 ==> after[name].algo == "sha256"@
                &&& after[name].flags == flags_of(name, cur[name])
            }
            &&& !needed ==> {
                &&& old.dom().contains(name)
                &&& after.dom().contains(name)
                &&& after[name].hash == old[name].hash
                &&& after[name].hashed_at == old[name].hashed_at
                &&& after[name].size == old[name].size == cur[name].stat.size
                &&& after[name].mtime_ns == old[name].mtime_ns == cur[name].stat.mtime_ns
                &&& after[name].algo == old[name].algo
                &&& after[name].flags == flags_of(name, cur[name])
            }
        }),
{
}

/// The counts of a directory cover each file once: those that are there are
/// unchanged, modified, new or refused, and those that had a record are still there
/// or removed. Nothing is counted as hashed where nothing was.
pub proof fn law_counts_cover_every_file(
    stats: ScanStats,
    old: Map<Seq<char>, EntryView>,
    old_keys: Seq<Seq<char>>,
    cur: Map<Seq<char>, Seen>,
    keys: Seq<Seq<char>>,
    algo: HashAlgo,
    results: Map<Seq<char>, HashedView>,
    errors: int,
    changed: bool,
)
    requires
        stats_are(stats, old, old_keys, cur, keys, algo, results, errors, changed),
    ensures
        stats.unchanged + stats.modified + stats.new + (stats.errors - errors) == keys.len(),
        stats.removed + picked(old_keys, |n: Seq<char>| cur.dom().contains(n)).len()
            == old_keys.len(),
        stats.bytes_hashed <= total_size(keys, cur),
        stats.modified + stats.new == 0 ==> stats.bytes_hashed == 0,
        (forall|n: Seq<char>| keys.contains(n) ==> !old.dom().contains(n)) ==> stats.modified == 0
            && stats.unchanged == 0,
        (forall|n: Seq<char>| keys.contains(n) ==> old.dom().contains(n)) ==> stats.new == 0,
        (forall|n: Seq<char>| results[n].hash is Some) ==> stats.errors == errors
            && stats.bytes_hashed == total_size(picked(keys, to_hash(old, cur, algo)), cur),
        stats.dirs_scanned == 1,
        stats.dirs_written == 1 <==> changed,
        stats.dirs_written <= 1,
{
    let pending = picked(keys, to_hash(old, cur, algo));
    let hashed = picked(pending, was_hashed(results));
    lemma_picked_halves(keys, to_hash(old, cur, algo), to_keep(old, cur, algo));
    lemma_picked_halves(pending, was_hashed(results), was_refused(results));
    lemma_picked_halves(hashed, had_record(old), had_none(old));
    lemma_picked_halves(old_keys, is_gone(cur), |n: Seq<char>| cur.dom().contains(n));
    lemma_picked_size(keys, to_hash(old, cur, algo), cur);
    lemma_picked_size(pending, was_hashed(results), cur);
    lemma_picked(keys, to_hash(old, cur, algo));
    lemma_picked(keys, to_keep(old, cur, algo));
    lemma_picked(pending, was_hashed(results));
    lemma_picked(pending, was_refused(results));
    lemma_picked(hashed, had_record(old));
    lemma_picked(hashed, had_none(old));
    let (m, w) = (picked(hashed, had_record(old)), picked(hashed, had_none(old)));
    if forall|n: Seq<char>| keys.contains(n) ==> !old.dom().contains(n) {
        if m.len() > 0 {
            assert(had_record(old)(m[0]) && hashed.contains(m[0]));
            let k = choose|k: int| 0 <= k < hashed.len() && hashed[k] == m[0];
            assert(pending.contains(hashed[k]));
            let l = choose|l: int| 0 <= l < pending.len() && pending[l] == hashed[k];
            assert(keys.contains(pending[l]));
        }
        let kept = picked(keys, to_keep(old, cur, algo));
        if kept.len() > 0 {
            assert(to_keep(old, cur, algo)(kept[0]) && keys.contains(kept[0]));
        }
    }
    if forall|n: Seq<char>| keys.contains(n) ==> old.dom().contains(n) {
        if w.len() > 0 {
            assert(had_none(old)(w[0]) && hashed.contains(w[0]));
            let k = choose|k: int| 0 <= k < hashed.len() && hashed[k] == w[0];
            assert(pending.contains(hashed[k]));
            let l = choose|l: int| 0 <= l < pending.len() && pending[l] == hashed[k];
            assert(keys.contains(pending[l]));
        }
    }
    if forall|n: Seq<char>| results[n].hash is Some {
        let refused = picked(pending, was_refused(results));
        if refused.len() > 0 {
            assert(was_refused(results)(refused[0]));
        }
        lemma_picked_all(pending, was_hashed(results));
    }
}

proof fn lemma_picked_all(keys: Seq<Seq<char>>, f: spec_fn(Seq<char>) -> bool)
    requires
        forall|n: Seq<char>| #[trigger] f(n),
    ensures
        picked(keys, f) == keys,
    decreases keys.len(),
{
    if keys.len() > 0 {
        lemma_picked_all(keys.drop_last(), f);
        assert(keys.drop_last().push(keys.last()) =~= keys);
    }
}

proof fn lemma_picked_halves(
    keys: Seq<Seq<char>>,
    f: spec_fn(Seq<char>) -> bool,
    g: spec_fn(Seq<char>) -> bool,
)
    requires
        forall|n: Seq<char>| #[trigger] f(n) == !g(n),
    ensures
        picked(keys, f).len() + picked(keys, g).len() == keys.len(),
    decreases keys.len(),
{
    if keys.len() > 0 {
        lemma_picked_halves(keys.drop_last(), f, g);
        assert(f(keys.last()) == !g(keys.last()));
    }
}

/// The report says of each file what happened to it: `New` of one that was hashed and
/// had no record, `Modified` of one that was hashed and had one, `Unchanged` of one
/// that did not have to be hashed, `Removed` of one that has a record and is gone;
/// and it says nothing of a file that could not be hashed.
pub proof fn law_report_says_what_happened(
    old: Map<Seq<char>, EntryView>,
    old_keys: Seq<Seq<char>>,
    cur: Map<Seq<char>, Seen>,
    keys: Seq<Seq<char>>,
    algo: HashAlgo,
    results: Map<Seq<char>, HashedView>,
    name: Seq<char>,
)
    requires
        forall|n: Seq<char>| #[trigger] keys.contains(n) <==> cur.dom().contains(n),
        forall|n: Seq<char>| #[trigger] old_keys.contains(n) <==> old.dom().contains(n),
    ensures
        ({
            let report = report_of(old, old_keys, cur, keys, algo, results);
            let here = cur.dom().contains(name);
            let recorded = old.dom().contains(name);
            let needed = hash_needed(prior(old, name), cur[name], algo);
            let hashed = results[name].hash is Some;
            &&& report.contains((FileStatus::New, name)) <==> here && !recorded && hashed
            &&& report.contains((FileStatus::Modified, name)) <==> here && recorded && needed
                && hashed
            &&& report.contains((FileStatus::Unchanged, name)) <==> here && !needed
            &&& report.contains((FileStatus::Removed, name)) <==> recorded && !here
        }),
{
    let kept = picked(keys, to_keep(old, cur, algo));
    let pending = picked(keys, to_hash(old, cur, algo));
    let hashed = picked(pending, was_hashed(results));
    let gone = picked(old_keys, is_gone(cur));
    lemma_picked(keys, to_keep(old, cur, algo));
    lemma_picked(keys, to_hash(old, cur, algo));
    lemma_picked(pending, was_hashed(results));
    lemma_picked(old_keys, is_gone(cur));
    let report = report_of(old, old_keys, cur, keys, algo, results);
    let a = lines(kept, FileStatus::Unchanged);
    let b = hashed_lines(hashed, old);
    let c = lines(gone, FileStatus::Removed);
    assert(report =~= a + b + c);
    assert(keys.contains(name) == cur.dom().contains(name));
    assert(old_keys.contains(name) == old.dom().contains(name));
    assert(to_keep(old, cur, algo)(name) == !hash_needed(prior(old, name), cur[name], algo));
    assert(to_hash(old, cur, algo)(name) == hash_needed(prior(old, name), cur[name], algo));
    assert(was_hashed(results)(name) == (results[name].hash is Some));
    assert(is_gone(cur)(name) == !cur.dom().contains(name));
    assert(kept.contains(name) ==> to_keep(old, cur, algo)(name) && keys.contains(name));
    assert(pending.contains(name) ==> to_hash(old, cur, algo)(name) && keys.contains(name));
    assert(hashed.contains(name) ==> was_hashed(results)(name) && pending.contains(name));
    assert(gone.contains(name) ==> is_gone(cur)(name) && old_keys.contains(name));
    if kept.contains(name) {
        let k = choose|k: int| 0 <= k < kept.len() && kept[k] == name;
        assert(report[k] == (FileStatus::Unchanged, name));
    }
    if hashed.contains(name) {
        let k = choose|k: int| 0 <= k < hashed.len() && hashed[k] == name;
        assert(report[a.len() + k] == b[k]);
    }
    if gone.contains(name) {
        let k = choose|k: int| 0 <= k < gone.len() && gone[k] == name;
        assert(report[a.len() + b.len() + k] == (FileStatus::Removed, name));
    }
    assert forall|status: FileStatus| #[trigger] report.contains((status, name)) implies match status {
        FileStatus::New => hashed.contains(name) && !old.dom().contains(name),
        FileStatus::Modified => hashed.contains(name) && old.dom().contains(name),
        FileStatus::Unchanged => kept.contains(name),
        FileStatus::Removed => gone.contains(name),
    } by {
        let x = choose|x: int| 0 <= x < report.len() && report[x] == (status, name);
        if x < a.len() {
            assert(a[x] == (FileStatus::Unchanged, kept[x]));
        } else if x < a.len() + b.len() {
            assert(b[x - a.len()].1 == hashed[x - a.len()]);
        } else {
            assert(c[x - a.len() - b.len()] == (FileStatus::Removed, gone[x - a.len() - b.len()]));
        }
    }
}

/// What is printed of a file. Where every file is reported: the word for what
/// happened, up to the tenth column, then the path. Else, with details and not
/// quietly: that it was hashed, of a file that was. Else nothing.
pub proof fn law_what_is_printed_of_a_file(
    opts: &ScanOptions,
    status: FileStatus,
    path: Seq<char>,
)
    ensures
        report_text(opts, status, path) is Some <==> opts.status || (opts.verbose && !opts.quiet
            && status != FileStatus::Unchanged && status != FileStatus::Removed),
        !opts.status && report_text(opts, status, path) is Some ==> report_text(opts, status, path)
            == Some("  hashed "@ + path),
        opts.status ==> report_text(opts, status, path) == Some(
            match status {
                FileStatus::New => "new       "@,
                FileStatus::Modified => "modified  "@,
                FileStatus::Unchanged => "unchanged "@,
                FileStatus::Removed => "removed   "@,
            } + path,
        ),
{
    reveal_strlit(" ");
    reveal_strlit("new");
    reveal_strlit("modified");
    reveal_strlit("unchanged");
    reveal_strlit("removed");
    reveal_strlit("new       ");
    reveal_strlit("modified  ");
    reveal_strlit("unchanged ");
    reveal_strlit("removed   ");
    let word = status_word(status);
    assert(left_aligned(word, 9) + " "@ =~= match status {
        FileStatus::New => "new       "@,
        FileStatus::Modified => "modified  "@,
        FileStatus::Unchanged => "unchanged "@,
        FileStatus::Removed => "removed   "@,
    });
}

/// Merging adds each count.
pub proof fn law_merge_adds_each_count(a: ScanStats, b: ScanStats)
    requires
        a.addable(b),
    ensures
        a.plus(b).new - a.new == b.new,
        a.plus(b).modified - a.modified == b.modified,
        a.plus(b).unchanged - a.unchanged == b.unchanged,
        a.plus(b).removed - a.removed == b.removed,
        a.plus(b).dirs_scanned - a.dirs_scanned == b.dirs_scanned,
        a.plus(b).dirs_written - a.dirs_written == b.dirs_written,
        a.plus(b).bytes_hashed - a.bytes_hashed == b.bytes_hashed,
        a.plus(b).errors - a.errors == b.errors,
{
}

/// The summary of a scan gives each of its counts with what it counts.
pub proof fn law_summary_gives_each_count(s: ScanStats)
    ensures
        stats_text(s) == decimal(s.new as nat) + " new, "@ + decimal(s.modified as nat)
            + " modified, "@ + decimal(s.unchanged as nat) + " unchanged, "@ + decimal(
            s.removed as nat,
        ) + " removed across "@ + decimal(s.dirs_scanned as nat) + " dirs ("@ + decimal(
            s.dirs_written as nat,
        ) + " manifests written, "@ + decimal(s.bytes_hashed as nat) + " bytes hashed, "@ + decimal(
            s.errors as nat,
        ) + " errors)"@,
{
}

/// A walk enters its root always, and of the directories below it those that are not
/// left out.
pub proof fn law_walk_enters_what_is_not_left_out(
    opts: &ScanOptions,
    depth: usize,
    is_dir: bool,
    path: &str,
    root: &str,
    r: bool,
)
    requires
        call_ensures(ScanOptions::enters, (opts, depth, is_dir, path, root), r),
    ensures
        depth == 0 ==> r,
        !is_dir ==> r,
        depth > 0 && is_dir ==> r != (ignored(path@, root@, views(opts.ignores@)) || excluded(
            path@,
            root@,
            views(opts.excludes@),
        )),
{
}

/// Patterns are refused exactly where one is none, and the first such is named.
pub proof fn law_first_invalid_pattern_is_named(globs: Seq<Seq<char>>, i: int)
    requires
        0 <= i < globs.len(),
    ensures
        first_invalid(globs) is None ==> glob_valid(globs[i]),
        !glob_valid(globs[i]) && (forall|j: int| 0 <= j < i ==> glob_valid(#[trigger] globs[j]))
            ==> first_invalid(globs) == Some(globs[i]),
        first_invalid(globs) is Some ==> !glob_valid(first_invalid(globs)->0) && globs.contains(
            first_invalid(globs)->0,
        ),
    decreases globs.len(),
{
    let rest = globs.skip(1);
    if i > 0 {
        assert(rest[i - 1] == globs[i]);
        if forall|j: int| 0 <= j < i ==> glob_valid(#[trigger] globs[j]) {
            assert(glob_valid(globs[0]));
            assert forall|j: int| 0 <= j < i - 1 implies glob_valid(#[trigger] rest[j]) by {
                assert(rest[j] == globs[j + 1]);
            }
        }
        law_first_invalid_pattern_is_named(rest, i - 1);
    } else if rest.len() > 0 {
        law_first_invalid_pattern_is_named(rest, 0);
    }
    assert(globs.contains(globs[0]));
    if glob_valid(globs[0]) && first_invalid(rest) is Some && rest.len() > 0 {
        let k = choose|k: int| 0 <= k < rest.len() && rest[k] == first_invalid(rest)->0;
        assert(globs[k + 1] == first_invalid(rest)->0);
    }
}

/// What has to be hashed of a directory is planned with what was seen of it, and the
/// rest keeps its record: every file that is there is in one of the two, and none in
/// both.
pub proof fn law_plan_takes_each_file_once(
    old: &TextMap<FileEntry>,
    current: &TextMap<Seen>,
    algo: HashAlgo,
    plan: Plan,
    name: Seq<char>,
)
    requires
        call_ensures(plan_dir, (old, current, algo), plan),
        current.keys().contains(name) <==> current@.dom().contains(name),
    ensures
        current@.dom().contains(name) ==> (plan.kept@.dom().contains(name) <==> !(exists|i: int|
            0 <= i < plan.pending@.len() && (#[trigger] plan.pending@[i]).name@ == name)),
        plan.kept@.dom().contains(name) ==> current@.dom().contains(name) && old@.dom().contains(
            name,
        ) && plan.kept@[name].hash == old@[name].hash,
        forall|i: int|
            0 <= i < plan.pending@.len() && (#[trigger] plan.pending@[i]).name@ == name ==> {
                &&& plan.pending@[i].size == current@[name].stat.size
                &&& plan.pending@[i].mtime == current@[name].stat.mtime_ns
                &&& views(plan.pending@[i].flags@) == flags_of(name, current@[name])
            },
{
    let keys = current.keys();
    let f = to_hash(old@, current@, algo);
    let names = pending_names(plan.pending@);
    lemma_picked(keys, f);
    assert(names == picked(keys, f));
    assert(names.len() == plan.pending@.len());
    assert(f(name) == hash_needed(prior(old@, name), current@[name], algo));
    assert(to_keep(old@, current@, algo)(name) == !f(name));
    assert(plan.kept@.dom().contains(name) <==> current@.dom().contains(name) && to_keep(
        old@,
        current@,
        algo,
    )(name));
    if current@.dom().contains(name) && f(name) {
        assert(names.contains(name));
        let i = choose|i: int| 0 <= i < names.len() && names[i] == name;
        assert(plan.pending@[i].name@ == name);
    }
    if exists|i: int| 0 <= i < plan.pending@.len() && (#[trigger] plan.pending@[i]).name@ == name {
        let i = choose|i: int|
            0 <= i < plan.pending@.len() && (#[trigger] plan.pending@[i]).name@ == name;
        assert(names[i] == name);
        assert(f(picked(keys, f)[i]));
    }
    assert forall|i: int|
        0 <= i < plan.pending@.len() && (#[trigger] plan.pending@[i]).name@ == name implies {
        &&& plan.pending@[i].size == current@[name].stat.size
        &&& plan.pending@[i].mtime == current@[name].stat.mtime_ns
        &&& views(plan.pending@[i].flags@) == flags_of(name, current@[name])
    } by {
        assert(is_pending(
            plan.pending@[i],
            plan.pending@[i].name@,
            current@[plan.pending@[i].name@],
        ));
    }
}

/// A manifest is written where its records changed and some are left, removed where
/// none is left, and left alone where nothing changed or nothing is to be written.
pub proof fn law_manifest_is_written_where_it_changed(
    opts: &ScanOptions,
    old: &TextMap<FileEntry>,
    current: &TextMap<Seen>,
    plan: Plan,
    results: &Vec<Hashed>,
    errors: usize,
    r: DirOutcome,
)
    requires
        call_ensures(finish_dir, (opts, old, current, plan, results, errors), r),
    ensures
        r.changed <==> r.files@ != old@,
        opts.dry_run ==> r.action == DirAction::Leave,
        r.files@ == old@ ==> r.action == DirAction::Leave,
        !opts.dry_run && r.files@ != old@ && r.files@ == Map::<Seq<char>, EntryView>::empty()
            ==> r.action == DirAction::Delete,
        !opts.dry_run && r.files@ != old@ && r.files@ != Map::<Seq<char>, EntryView>::empty()
            ==> r.action == DirAction::Write,
        r.stats.dirs_scanned == 1,
        r.stats.dirs_written == 1 <==> r.files@ != old@,
{
}

/// The result of a file is the one at its place among those that were to be hashed.
pub proof fn law_results_are_those_of_their_files(
    pending: Seq<Pending>,
    results: Seq<Hashed>,
    i: int,
)
    requires
        pending.len() == results.len(),
        0 <= i < pending.len(),
        forall|j: int, k: int|
            0 <= j < k < pending.len() ==> (#[trigger] pending[j]).name@ != (
            #[trigger] pending[k]).name@,
    ensures
        results_of(pending, results).dom().contains(pending[i].name@),
        results_of(pending, results)[pending[i].name@].at == results[i].at@,
        results_of(pending, results)[pending[i].name@].hash is Some <==> results[i].hash is Some,
        results[i].hash is Some ==> results_of(pending, results)[pending[i].name@].hash == Some(
            results[i].hash->0@,
        ),
{
    let names = pending_names(pending);
    assert(names[i] == pending[i].name@);
    assert(names.contains(names[i]));
    let k = key_index(names, names[i]);
    assert(0 <= k < names.len() && names[k] == names[i]);
    if k != i {
        assert(pending[k].name@ == pending[i].name@);
    }
    assert(hashed_views(results)[i] == results[i]@);
}

/// The entries that cannot be read are counted, one for each.
pub proof fn law_unreadable_entries_are_counted(a: Seq<Listed>, b: Seq<Listed>, x: Listed)
    ensures
        unreadable(a + b) == unreadable(a) + unreadable(b),
        unreadable(seq![x]) == 1 <==> x is Unreadable,
        unreadable(seq![x]) <= 1,
    decreases b.len(),
{
    reveal_with_fuel(unreadable, 2);
    assert(seq![x].drop_last() =~= Seq::<Listed>::empty());
    if b.len() == 0 {
        assert(a + b =~= a);
    } else {
        law_unreadable_entries_are_counted(a, b.drop_last(), x);
        assert((a + b).drop_last() =~= a + b.drop_last());
        assert((a + b).last() == b.last());
    }
}

} // verus!
