//! Bringing the files of a root into the drive-aware index.
use vstd::prelude::*;

use crate::diff::content_keys;
use crate::inventory::{record_views, InventoryRecord, RecordView};
use crate::number::{decimal, usize_text};
use crate::paths::{join, joined_path};
use crate::scan::ScanOptions;
use crate::textmap::{
    group_places, grouped, key_values, law_lists_in_order_are_sets, law_members_are_listed,
    lemma_in_order_index, lemma_places, members, places_of, OrdMap, PairKey, Places,
};
use crate::walk::{entries_of, manifest_entries, walk_views, Found, WalkEntry, WalkView};

verus! {

/// What an index run did.
#[derive(Clone, Copy, Debug, PartialEq, Eq, Structural)]
pub struct IndexStats {
    pub files: usize,
    pub new_content: usize,
    pub thumbs: usize,
}

impl Default for IndexStats {
    fn default() -> (r: Self)
        ensures
            r == (IndexStats { files: 0, new_content: 0, thumbs: 0 }),
    {
        IndexStats { files: 0, new_content: 0, thumbs: 0 }
    }
}

impl IndexStats {
    /// The counts of both can be added.
    pub open spec fn addable(self, o: IndexStats) -> bool {
        &&& self.files + o.files <= usize::MAX
        &&& self.new_content + o.new_content <= usize::MAX
        &&& self.thumbs + o.thumbs <= usize::MAX
    }

    /// Whether the counts of both can be added.
    pub fn can_merge(&self, o: &IndexStats) -> (r: bool)
        ensures
            r == self.addable(*o),
    {
        self.files <= usize::MAX - o.files && self.new_content <= usize::MAX - o.new_content
            && self.thumbs <= usize::MAX - o.thumbs
    }

    /// The summary line.
    pub fn to_text(&self) -> (r: String)
        ensures
            r@ == "indexed "@ + decimal(self.files as nat) + " files, "@ + decimal(
                self.new_content as nat,
            ) + " new content extracted, "@ + decimal(self.thumbs as nat) + " thumbnails"@,
    {
        let mut out: String = "indexed ".to_owned();
        out.append(usize_text(self.files).as_str());
        out.append(" files, ");
        out.append(usize_text(self.new_content).as_str());
        out.append(" new content extracted, ");
        out.append(usize_text(self.thumbs).as_str());
        out.append(" thumbnails");
        out
    }

    /// Adds the counts of another run.
    pub fn merge(&mut self, o: IndexStats)
        requires
            old(self).addable(o),
        ensures
            final(self).files == old(self).files + o.files,
            final(self).new_content == old(self).new_content + o.new_content,
            final(self).thumbs == old(self).thumbs + o.thumbs,
    {
        self.files = self.files + o.files;
        self.new_content = self.new_content + o.new_content;
        self.thumbs = self.thumbs + o.thumbs;
    }
}

/// A content to read, from one of its files.
#[derive(Clone, Debug, PartialEq, Eq)]
pub struct Target {
    pub algo: String,
    pub hash: String,
    pub abs: String,
    pub size: u64,
}

/// What a target holds.
#[verifier::ext_equal]
pub struct TargetView {
    pub key: (Seq<char>, Seq<char>),
    pub abs: Seq<char>,
    pub size: u64,
}

impl View for Target {
    type V = TargetView;

    open spec fn view(&self) -> TargetView {
        TargetView { key: (self.algo@, self.hash@), abs: self.abs@, size: self.size }
    }
}

pub open spec fn target_views(v: Seq<Target>) -> Seq<TargetView> {
    v.map_values(|t: Target| t@)
}

/// The target of a content: the first file that has it.
pub open spec fn target_of(
    root: Seq<char>,
    records: Seq<RecordView>,
    key: (Seq<char>, Seq<char>),
) -> TargetView {
    let first = records[places_of(content_keys(records), key)[0] as int];
    TargetView { key, abs: joined_path(root, first.path), size: first.size }
}

/// The targets of all contents of some records, each once.
pub open spec fn all_targets(root: Seq<char>, records: Seq<RecordView>) -> Seq<TargetView> {
    members::<PairKey>(content_keys(records)).map_values(
        |k: (Seq<char>, Seq<char>)| target_of(root, records, k),
    )
}

/// One file of each content of an inventory.
pub fn content_targets(root: &str, records: &Vec<InventoryRecord>) -> (r: Vec<Target>)
    ensures
        target_views(r@) == all_targets(root@, record_views(records@)),
{
    let n_records: usize = records.len();
    let ghost rv = record_views(records@);
    let ghost ck = content_keys(rv);
    let mut keys: Vec<PairKey> = Vec::new();
    let mut i: usize = 0;
    while i < records.len()
        invariant
            i <= records@.len(),
            keys@.len() == i,
            forall|k: int|
                0 <= k < i ==> (#[trigger] keys@[k])@ == (records@[k].algo@, records@[k].hash@),
        decreases records@.len() - i,
    {
        keys.push(PairKey { first: records[i].algo.clone(), second: records[i].hash.clone() });
        i += 1;
    }
    assert(key_values(keys@) =~= ck);
    let groups: OrdMap<PairKey, Places> = group_places(keys);
    let n: usize = groups.len();
    let ghost gk = groups.keys();
    proof {
        assert forall|k: (Seq<char>, Seq<char>)| gk.contains(k) <==> ck.contains(k) by {
            assert(groups@.dom().contains(k) <==> gk.contains(k));
        }
        law_members_are_listed::<PairKey>(ck);
        law_lists_in_order_are_sets::<PairKey>(gk, members::<PairKey>(ck));
    }
    let ghost all = all_targets(root@, rv);
    let mut out: Vec<Target> = Vec::new();
    let mut j: usize = 0;
    while j < n
        invariant
            n == gk.len(),
            j <= n,
            gk == groups.keys(),
            gk == members::<PairKey>(ck),
            rv == record_views(records@),
            rv.len() == n_records,
            ck == content_keys(rv),
            groups@ == grouped(ck),
            all == all_targets(root@, rv),
            out@.len() == j,
            forall|k: int| 0 <= k < j ==> (#[trigger] out@[k])@ == all[k],
        decreases n - j,
    {
        let key: &PairKey = groups.key_at(j);
        let places: &Places = groups.value_at(j);
        proof {
            lemma_places(ck, key@);
        }
        let p: usize = places.at(0);
        let rec: &InventoryRecord = &records[p];
        assert(rv[p as int] == rec@);
        let t: Target = Target {
            algo: key.first.clone(),
            hash: key.second.clone(),
            abs: join(root, rec.path.as_str()),
            size: rec.size,
        };
        assert(t@ == all[j as int]);
        out.push(t);
        j += 1;
    }
    assert(target_views(out@) =~= all);
    out
}

/// The targets to read: all of them where everything is read again, else those whose
/// content is not known.
pub open spec fn wanted_targets(
    targets: Seq<TargetView>,
    known: Seq<bool>,
    reindex: bool,
) -> Seq<TargetView>
    decreases targets.len(),
{
    if targets.len() == 0 {
        Seq::empty()
    } else {
        let before = wanted_targets(targets.drop_last(), known, reindex);
        if reindex || !known[targets.len() - 1] {
            before.push(targets.last())
        } else {
            before
        }
    }
}

impl Target {
    fn copy(&self) -> (r: Target)
        ensures
            r@ == self@,
    {
        Target {
            algo: self.algo.clone(),
            hash: self.hash.clone(),
            abs: self.abs.clone(),
            size: self.size,
        }
    }
}

/// The contents of a root to read, each from the first file that has it. `known`
/// says of each of the [`content_targets`] whether the index has its content.
pub fn index_root(
    root: &str,
    records: &Vec<InventoryRecord>,
    known: &Vec<bool>,
    reindex: bool,
) -> (r: Vec<Target>)
    requires
        known@.len() == all_targets(root@, record_views(records@)).len(),
    ensures
        target_views(r@) == wanted_targets(
            all_targets(root@, record_views(records@)),
            known@,
            reindex,
        ),
{
    let targets: Vec<Target> = content_targets(root, records);
    let ghost tv = target_views(targets@);
    let mut out: Vec<Target> = Vec::new();
    let mut i: usize = 0;
    assert(target_views(out@) =~= wanted_targets(tv.take(0), known@, reindex));
    while i < targets.len()
        invariant
            i <= targets@.len(),
            tv == target_views(targets@),
            known@.len() == targets@.len(),
            target_views(out@) == wanted_targets(tv.take(i as int), known@, reindex),
        decreases targets@.len() - i,
    {
        proof {
            assert(tv.take(i + 1).drop_last() =~= tv.take(i as int));
            assert(tv.take(i + 1).last() == targets@[i as int]@);
        }
        if reindex || !known[i] {
            let t: Target = targets[i].copy();
            assert(target_views(out@.push(t)) =~= target_views(out@).push(t@));
            out.push(t);
        }
        i += 1;
    }
    assert(tv.take(tv.len() as int) =~= tv);
    out
}

/// The number of contents with a thumbnail.
pub open spec fn thumb_count(made: Seq<bool>) -> nat
    decreases made.len(),
{
    if made.len() == 0 {
        0
    } else {
        thumb_count(made.drop_last()) + if made.last() {
            1nat
        } else {
            0
        }
    }
}

/// The counts of a run over one root: its files, and the contents that were read,
/// each with whether a thumbnail was made.
pub fn run_stats(files: usize, made: &Vec<bool>) -> (r: IndexStats)
    ensures
        r.files == files,
        r.new_content == made@.len(),
        r.thumbs == thumb_count(made@),
{
    let n: usize = made.len();
    let mut thumbs: usize = 0;
    let mut i: usize = 0;
    assert(made@.take(0) =~= Seq::<bool>::empty());
    while i < n
        invariant
            n == made@.len(),
            i <= n,
            thumbs <= i,
            thumbs == thumb_count(made@.take(i as int)),
        decreases n - i,
    {
        assert(made@.take(i + 1).drop_last() =~= made@.take(i as int));
        if made[i] {
            thumbs = thumbs + 1;
        }
        i += 1;
    }
    assert(made@.take(n as int) =~= made@);
    IndexStats { files, new_content: n, thumbs }
}

/// A file to bring into the index.
#[derive(Clone, Debug, PartialEq, Eq)]
pub struct FileRef {
    pub algo: String,
    pub hash: String,
    /// The path below the root of the drive.
    pub rel: String,
    pub abs: String,
    pub size: u64,
    pub mtime_ns: u64,
}

/// What a [`FileRef`] holds.
#[verifier::ext_equal]
pub struct FileRefView {
    pub algo: Seq<char>,
    pub hash: Seq<char>,
    pub rel: Seq<char>,
    pub abs: Seq<char>,
    pub size: u64,
    pub mtime_ns: u64,
}

impl View for FileRef {
    type V = FileRefView;

    open spec fn view(&self) -> FileRefView {
        FileRefView {
            algo: self.algo@,
            hash: self.hash@,
            rel: self.rel@,
            abs: self.abs@,
            size: self.size,
            mtime_ns: self.mtime_ns,
        }
    }
}

pub open spec fn file_ref_views(v: Seq<FileRef>) -> Seq<FileRefView> {
    v.map_values(|f: FileRef| f@)
}

/// The files of a manifest that are not left out.
pub open spec fn kept_refs(
    opts: &ScanOptions,
    root: Seq<char>,
    entries: Seq<WalkView>,
) -> Seq<FileRefView>
    decreases entries.len(),
{
    if entries.len() == 0 {
        Seq::empty()
    } else {
        let before = kept_refs(opts, root, entries.drop_last());
        let w = entries.last();
        if opts.skips(w.path, root) {
            before
        } else {
            before.push(
                FileRefView {
                    algo: w.entry.algo,
                    hash: w.entry.hash,
                    rel: w.rel,
                    abs: w.path,
                    size: w.entry.size,
                    mtime_ns: w.entry.mtime_ns,
                },
            )
        }
    }
}

/// The files of a directory to bring into the index after it changed.
pub fn reconcile_dir(root: &str, found: &Found, opts: &ScanOptions) -> (r: Vec<FileRef>)
    ensures
        file_ref_views(r@) == kept_refs(
            opts,
            root@,
            manifest_entries(found.dir@, root@, found.files.keys(), found.files@),
        ),
{
    let entries: Vec<WalkEntry> = entries_of(root, found);
    let ghost ev = walk_views(entries@);
    let mut out: Vec<FileRef> = Vec::new();
    let mut i: usize = 0;
    assert(file_ref_views(out@) =~= kept_refs(opts, root@, ev.take(0)));
    while i < entries.len()
        invariant
            i <= entries@.len(),
            ev == walk_views(entries@),
            file_ref_views(out@) == kept_refs(opts, root@, ev.take(i as int)),
        decreases entries@.len() - i,
    {
        let e: &WalkEntry = &entries[i];
        proof {
            assert(ev.take(i + 1).drop_last() =~= ev.take(i as int));
            assert(ev.take(i + 1).last() == e@);
        }
        if !opts.is_skipped(e.path.as_str(), root) {
            let f: FileRef = FileRef {
                algo: e.entry.algo.clone(),
                hash: e.entry.hash.clone(),
                rel: e.rel.clone(),
                abs: e.path.clone(),
                size: e.entry.size,
                mtime_ns: e.entry.mtime_ns,
            };
            assert(file_ref_views(out@.push(f)) =~= file_ref_views(out@).push(f@));
            out.push(f);
        }
        i += 1;
    }
    assert(ev.take(ev.len() as int) =~= ev);
    out
}

/// Reading everything again leaves no content out, and without it exactly the known
/// ones are left out: a second run over the same files reads nothing.
pub proof fn law_known_content_is_not_read_again(targets: Seq<TargetView>, known: Seq<bool>)
    requires
        known.len() == targets.len(),
    ensures
        wanted_targets(targets, known, true) == targets,
        (forall|i: int| 0 <= i < known.len() ==> known[i]) ==> wanted_targets(
            targets,
            known,
            false,
        ).len() == 0,
    decreases targets.len(),
{
    if targets.len() > 0 {
        let init = targets.drop_last();
        lemma_wanted_prefix(init, known, known.drop_last());
        law_known_content_is_not_read_again(init, known.drop_last());
        assert(wanted_targets(targets, known, true) =~= targets);
    }
}

proof fn lemma_wanted_prefix(targets: Seq<TargetView>, a: Seq<bool>, b: Seq<bool>)
    requires
        targets.len() <= a.len(),
        targets.len() <= b.len(),
        forall|i: int| 0 <= i < targets.len() ==> a[i] == b[i],
    ensures
        wanted_targets(targets, a, true) == wanted_targets(targets, b, true),
        wanted_targets(targets, a, false) == wanted_targets(targets, b, false),
    decreases targets.len(),
{
    if targets.len() > 0 {
        lemma_wanted_prefix(targets.drop_last(), a, b);
    }
}

/// Each content is read from one file: no two targets have the same content.
pub proof fn law_targets_differ(root: Seq<char>, records: Seq<RecordView>, i: int, j: int)
    requires
        0 <= i < j < all_targets(root, records).len(),
    ensures
        all_targets(root, records)[i].key != all_targets(root, records)[j].key,
{
    let keys = members::<PairKey>(content_keys(records));
    law_members_are_listed::<PairKey>(content_keys(records));
    lemma_in_order_index::<PairKey>(keys, i);
    lemma_in_order_index::<PairKey>(keys, j);
}

/// The content of every file has a target.
pub proof fn law_every_content_has_a_target(root: Seq<char>, records: Seq<RecordView>, r: int)
    requires
        0 <= r < records.len(),
    ensures
        exists|i: int|
            0 <= i < all_targets(root, records).len() && (#[trigger] all_targets(
                root,
                records,
            )[i]).key == content_keys(records)[r],
{
    let ck = content_keys(records);
    let keys = members::<PairKey>(ck);
    law_members_are_listed::<PairKey>(ck);
    assert(ck.contains(ck[r]));
    assert(keys.contains(ck[r]));
    let i = choose|i: int| 0 <= i < keys.len() && keys[i] == ck[r];
    assert(all_targets(root, records)[i].key == ck[r]);
}

/// A content is read from the first of its files, below the root.
pub proof fn law_target_is_the_first_file(root: Seq<char>, records: Seq<RecordView>, i: int)
    requires
        records.len() <= usize::MAX,
        0 <= i < records.len(),
        forall|j: int|
            0 <= j < i ==> (#[trigger] records[j]).hash != records[i].hash || records[j].algo
                != records[i].algo,
    ensures
        target_of(root, records, (records[i].algo, records[i].hash)).abs == joined_path(
            root,
            records[i].path,
        ),
        target_of(root, records, (records[i].algo, records[i].hash)).size == records[i].size,
        target_of(root, records, (records[i].algo, records[i].hash)).key == (
            records[i].algo,
            records[i].hash,
        ),
{
    let all = content_keys(records);
    let k = (records[i].algo, records[i].hash);
    let at = places_of(all, k);
    lemma_places(all, k);
    assert(all[i] == k);
    assert(at.contains(i as usize));
    let x = choose|x: int| 0 <= x < at.len() && at[x] == i as usize;
    let p = at[0] as int;
    assert(all[p] == k);
    assert(records[p].hash == k.1 && records[p].algo == k.0);
    if x > 0 {
        assert(at[0] < at[x]);
    }
}

/// A content is read exactly where it is not known, or where all are to be read again.
pub proof fn law_unknown_content_is_read(
    targets: Seq<TargetView>,
    known: Seq<bool>,
    reindex: bool,
    i: int,
)
    requires
        known.len() == targets.len(),
        0 <= i < targets.len(),
        forall|a: int, b: int|
            0 <= a < b < targets.len() ==> (#[trigger] targets[a]).key != (
            #[trigger] targets[b]).key,
    ensures
        wanted_targets(targets, known, reindex).contains(targets[i]) <==> reindex || !known[i],
{
    lemma_wanted(targets, known, reindex, targets[i]);
    if wanted_targets(targets, known, reindex).contains(targets[i]) {
        let j = choose|j: int|
            0 <= j < targets.len() && (#[trigger] targets[j]) == targets[i] && (reindex || !known[j]);
        if j != i {
            assert(targets[j].key == targets[i].key);
        }
    }
    if reindex || !known[i] {
        assert(targets[i] == targets[i] && (reindex || !known[i]));
    }
}

proof fn lemma_wanted(targets: Seq<TargetView>, known: Seq<bool>, reindex: bool, t: TargetView)
    requires
        known.len() >= targets.len(),
    ensures
        wanted_targets(targets, known, reindex).contains(t) <==> exists|j: int|
            0 <= j < targets.len() && (#[trigger] targets[j]) == t && (reindex || !known[j]),
    decreases targets.len(),
{
    if targets.len() > 0 {
        let init = targets.drop_last();
        let n = init.len() as int;
        let (before, all) = (
            wanted_targets(init, known, reindex),
            wanted_targets(targets, known, reindex),
        );
        lemma_wanted(init, known, reindex, t);
        if all.contains(t) {
            let x = choose|x: int| 0 <= x < all.len() && all[x] == t;
            if x < before.len() {
                assert(before[x] == t);
                let j = choose|j: int|
                    0 <= j < init.len() && (#[trigger] init[j]) == t && (reindex || !known[j]);
                assert(targets[j] == t && (reindex || !known[j]));
            } else {
                assert(targets[n] == t && (reindex || !known[n]));
            }
        }
        if exists|j: int|
            0 <= j < targets.len() && (#[trigger] targets[j]) == t && (reindex || !known[j]) {
            let j = choose|j: int|
                0 <= j < targets.len() && (#[trigger] targets[j]) == t && (reindex || !known[j]);
            if j < n {
                assert(init[j] == t && (reindex || !known[j]));
                let x = choose|x: int| 0 <= x < before.len() && before[x] == t;
                assert(all[x] == t);
            } else {
                assert(all[before.len() as int] == t);
            }
        }
    }
}

/// The counts of a run: its files, each content that was read, each thumbnail that was
/// made.
pub proof fn law_counts_of_a_run(files: usize, made: &Vec<bool>, r: IndexStats)
    requires
        call_ensures(run_stats, (files, made), r),
    ensures
        r.files == files,
        r.new_content == made@.len(),
        r.thumbs <= r.new_content,
        (forall|i: int| 0 <= i < made@.len() ==> made@[i]) ==> r.thumbs == r.new_content,
        (forall|i: int| 0 <= i < made@.len() ==> !made@[i]) ==> r.thumbs == 0,
{
    lemma_thumb_count(made@);
}

proof fn lemma_thumb_count(made: Seq<bool>)
    ensures
        thumb_count(made) <= made.len(),
        (forall|i: int| 0 <= i < made.len() ==> made[i]) ==> thumb_count(made) == made.len(),
        (forall|i: int| 0 <= i < made.len() ==> !made[i]) ==> thumb_count(made) == 0,
    decreases made.len(),
{
    if made.len() > 0 {
        let init = made.drop_last();
        lemma_thumb_count(init);
        assert(forall|i: int| 0 <= i < init.len() ==> init[i] == made[i]);
        assert(made[made.len() - 1] == made.last());
    }
}

/// The files of a directory that the index takes are those of its manifest that are not
/// left out, each with what the manifest records of it.
pub proof fn law_index_takes_what_is_listed(
    opts: &ScanOptions,
    root: Seq<char>,
    entries: Seq<WalkView>,
    i: int,
)
    requires
        0 <= i < entries.len(),
        !opts.skips(entries[i].path, root),
    ensures
        exists|k: int|
            0 <= k < kept_refs(opts, root, entries).len() && {
                let f = #[trigger] kept_refs(opts, root, entries)[k];
                &&& f.algo == entries[i].entry.algo
                &&& f.hash == entries[i].entry.hash
                &&& f.rel == entries[i].rel
                &&& f.abs == entries[i].path
                &&& f.size == entries[i].entry.size
                &&& f.mtime_ns == entries[i].entry.mtime_ns
            },
    decreases entries.len(),
{
    let init = entries.drop_last();
    let (before, all) = (kept_refs(opts, root, init), kept_refs(opts, root, entries));
    if i < init.len() {
        assert(init[i] == entries[i]);
        law_index_takes_what_is_listed(opts, root, init, i);
        let k = choose|k: int|
            0 <= k < before.len() && {
                let f = #[trigger] before[k];
                &&& f.algo == init[i].entry.algo
                &&& f.hash == init[i].entry.hash
                &&& f.rel == init[i].rel
                &&& f.abs == init[i].path
                &&& f.size == init[i].entry.size
                &&& f.mtime_ns == init[i].entry.mtime_ns
            };
        assert(all[k] == before[k]);
    } else {
        assert(all[before.len() as int].abs == entries[i].path);
    }
}

/// Nothing that is left out is taken.
pub proof fn law_index_takes_nothing_left_out(
    opts: &ScanOptions,
    root: Seq<char>,
    entries: Seq<WalkView>,
    k: int,
)
    requires
        0 <= k < kept_refs(opts, root, entries).len(),
    ensures
        !opts.skips(kept_refs(opts, root, entries)[k].abs, root),
    decreases entries.len(),
{
    let before = kept_refs(opts, root, entries.drop_last());
    if k < before.len() {
        law_index_takes_nothing_left_out(opts, root, entries.drop_last(), k);
    }
}

/// Merging adds each count.
pub proof fn law_merge_adds_each_count(a: &mut IndexStats, b: IndexStats)
    requires
        call_ensures(IndexStats::merge, (a, b), ()),
    ensures
        final(a).files - old(a).files == b.files,
        final(a).new_content - old(a).new_content == b.new_content,
        final(a).thumbs - old(a).thumbs == b.thumbs,
{
}

} // verus!
