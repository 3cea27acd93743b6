//! The inventory: every file that the manifests under a root list.
use vstd::prelude::*;

use crate::manifest::{copy_texts, ns_to_rfc3339, utc_text};
use crate::number::{decimal, law_decimal_reads_back, usize_text};
use crate::order::{
    is_stable_order, key_views, law_sorted_items_ascend, law_sorted_texts_ascend,
    law_sorting_keeps_the_items, lemma_stable_sorted, sort_texts, sorted_texts, stable_order,
    stable_sorted, text_keys, text_order, the_order, KeyView, SortKey,
};
use crate::paths::{
    are_names, components, comps, is_under, join, joined_path, law_joined_path_has_both, under,
};
use crate::scan::ScanOptions;
use crate::text::{
    chars_of, has_part, has_prefix, join_all, joined, law_replacing_leaves_the_rest, lemma_views_push, occurs_at, replace_all,
    replaced, text_between, text_lt, views,
};
use crate::textmap::{
    group_places, grouped, key_values, law_lists_in_order_are_sets, law_members_are_listed,
    law_members_have_every_place, lemma_places, members, place_total, places_of, OrdMap, Places,
};
use crate::walk::{entries_of, manifest_entries, walk_views, Found, WalkEntry, WalkView};

verus! {

#[derive(Clone, Copy, Debug, PartialEq, Eq, Structural)]
pub enum Format {
    Json,
    Csv,
    /// A static page: a table with one row for each hash.
    Html,
}

/// One file of the inventory.
#[derive(Clone, Debug)]
pub struct InventoryRecord {
    /// The path below the root, with forward slashes.
    pub path: String,
    pub hash: String,
    pub algo: String,
    /// The flags, joined with `|`.
    pub flags: String,
    pub size: u64,
    pub mtime_ns: u64,
    pub mtime: String,
    pub hashed_at: String,
}

/// What a record holds.
#[verifier::ext_equal]
pub struct RecordView {
    pub path: Seq<char>,
    pub hash: Seq<char>,
    pub algo: Seq<char>,
    pub flags: Seq<char>,
    pub size: u64,
    pub mtime_ns: u64,
    pub mtime: Seq<char>,
    pub hashed_at: Seq<char>,
}

impl View for InventoryRecord {
    type V = RecordView;

    open spec fn view(&self) -> RecordView {
        RecordView {
            path: self.path@,
            hash: self.hash@,
            algo: self.algo@,
            flags: self.flags@,
            size: self.size,
            mtime_ns: self.mtime_ns,
            mtime: self.mtime@,
            hashed_at: self.hashed_at@,
        }
    }
}

/// The views of some records.
pub open spec fn record_views(v: Seq<InventoryRecord>) -> Seq<RecordView> {
    v.map_values(|r: InventoryRecord| r@)
}

impl InventoryRecord {
    pub fn copy(&self) -> (r: InventoryRecord)
        ensures
            r@ == self@,
    {
        InventoryRecord {
            path: self.path.clone(),
            hash: self.hash.clone(),
            algo: self.algo.clone(),
            flags: self.flags.clone(),
            size: self.size,
            mtime_ns: self.mtime_ns,
            mtime: self.mtime.clone(),
            hashed_at: self.hashed_at.clone(),
        }
    }
}

/// The record of a file that a manifest lists.
pub open spec fn record_of(w: WalkView) -> RecordView {
    RecordView {
        path: w.rel,
        hash: w.entry.hash,
        algo: w.entry.algo,
        flags: joined(w.entry.flags, "|"@),
        size: w.entry.size,
        mtime_ns: w.entry.mtime_ns,
        mtime: utc_text(w.entry.mtime_ns as int),
        hashed_at: w.entry.hashed_at,
    }
}

/// The directory `k` steps down from the root towards `dir`.
pub open spec fn step_down(root: Seq<char>, dir: Seq<char>, k: int) -> Seq<char> {
    joined_path(root, joined(comps(dir).subrange(comps(root).len() as int, comps(root).len() + k), "/"@))
}

/// A walk from the root enters every directory on the way to `dir`.
pub open spec fn reached(opts: &ScanOptions, root: Seq<char>, dir: Seq<char>) -> bool {
    is_under(dir, root) ==> forall|k: int|
        1 <= k <= comps(dir).len() - comps(root).len() ==> !opts.skips(
            #[trigger] step_down(root, dir, k),
            root,
        )
}

/// The records of the files of a manifest that are not left out.
pub open spec fn kept_records(
    opts: &ScanOptions,
    root: Seq<char>,
    entries: Seq<WalkView>,
) -> Seq<RecordView>
    decreases entries.len(),
{
    if entries.len() == 0 {
        Seq::empty()
    } else {
        let before = kept_records(opts, root, entries.drop_last());
        if opts.skips(entries.last().path, root) {
            before
        } else {
            before.push(record_of(entries.last()))
        }
    }
}

/// The records of all manifests that a walk reaches, in the order of the walk.
pub open spec fn all_records(
    opts: &ScanOptions,
    root: Seq<char>,
    found: Seq<Found>,
) -> Seq<RecordView>
    decreases found.len(),
{
    if found.len() == 0 {
        Seq::empty()
    } else {
        let last = found.last();
        let before = all_records(opts, root, found.drop_last());
        if reached(opts, root, last.dir@) {
            before + kept_records(
                opts,
                root,
                manifest_entries(last.dir@, root, last.files.keys(), last.files@),
            )
        } else {
            before
        }
    }
}

/// The paths of some records.
pub open spec fn record_paths(records: Seq<RecordView>) -> Seq<Seq<char>> {
    records.map_values(|r: RecordView| r.path)
}

/// Some records by path.
pub open spec fn by_path(records: Seq<RecordView>) -> Seq<RecordView> {
    stable_sorted(text_keys(record_paths(records)), records)
}

/// Whether a walk from the root enters every directory on the way to `dir`.
pub fn is_reached(opts: &ScanOptions, root: &str, dir: &str) -> (r: bool)
    ensures
        r == reached(opts, root@, dir@),
{
    if !under(dir, root) {
        return true;
    }
    let parts: Vec<String> = components(dir);
    let base: Vec<String> = components(root);
    let b: usize = base.len();
    let mut way: Vec<String> = Vec::new();
    let mut k: usize = 0;
    proof {
        assert(views(parts@).len() == parts@.len());
        assert(views(base@).len() == base@.len());
        assert(views(way@) =~= comps(dir@).subrange(b as int, b as int));
    }
    while k < parts.len() - b
        invariant
            is_under(dir@, root@),
            views(parts@) == comps(dir@),
            b == comps(root@).len(),
            parts@.len() == comps(dir@).len(),
            b <= parts@.len(),
            k <= parts@.len() - b,
            views(way@) == comps(dir@).subrange(b as int, b + k),
            forall|j: int| 1 <= j <= k ==> !opts.skips(#[trigger] step_down(root@, dir@, j), root@),
        decreases parts@.len() - b - k,
    {
        let part: String = parts[b + k].clone();
        proof {
            assert(views(parts@)[b + k] == part@);
            lemma_views_push(way@, part);
            assert(comps(dir@).subrange(b as int, b + k + 1) =~= comps(dir@).subrange(
                b as int,
                b + k,
            ).push(part@));
        }
        way.push(part);
        let rel: String = join_all(&way, "/");
        let path: String = join(root, rel.as_str());
        assert(path@ == step_down(root@, dir@, k + 1));
        if opts.is_skipped(path.as_str(), root) {
            return false;
        }
        k += 1;
    }
    true
}

fn to_record(w: &WalkEntry) -> (r: InventoryRecord)
    ensures
        r@ == record_of(w@),
{
    InventoryRecord {
        path: w.rel.clone(),
        hash: w.entry.hash.clone(),
        algo: w.entry.algo.clone(),
        flags: join_all(&w.entry.flags, "|"),
        size: w.entry.size,
        mtime_ns: w.entry.mtime_ns,
        mtime: ns_to_rfc3339(w.entry.mtime_ns),
        hashed_at: w.entry.hashed_at.clone(),
    }
}

/// The records of one manifest that are not left out.
fn manifest_records(opts: &ScanOptions, root: &str, found: &Found) -> (r: Vec<InventoryRecord>)
    ensures
        record_views(r@) == kept_records(
            opts,
            root@,
            manifest_entries(found.dir@, root@, found.files.keys(), found.files@),
        ),
{
    let entries: Vec<WalkEntry> = entries_of(root, found);
    let ghost ev = walk_views(entries@);
    let mut out: Vec<InventoryRecord> = Vec::new();
    let mut i: usize = 0;
    assert(record_views(out@) =~= kept_records(opts, root@, ev.take(0)));
    while i < entries.len()
        invariant
            i <= entries@.len(),
            ev == walk_views(entries@),
            record_views(out@) == kept_records(opts, root@, ev.take(i as int)),
        decreases entries@.len() - i,
    {
        let e: &WalkEntry = &entries[i];
        proof {
            assert(ev.take(i + 1).drop_last() =~= ev.take(i as int));
            assert(ev.take(i + 1).last() == e@);
        }
        if !opts.is_skipped(e.path.as_str(), root) {
            let rec: InventoryRecord = to_record(e);
            assert(record_views(out@.push(rec)) =~= record_views(out@).push(rec@));
            out.push(rec);
        }
        i += 1;
    }
    assert(ev.take(ev.len() as int) =~= ev);
    out
}

/// Some records by path.
pub fn sort_records(records: &Vec<InventoryRecord>) -> (r: Vec<InventoryRecord>)
    ensures
        record_views(r@) == by_path(record_views(records@)),
{
    let ghost rv = record_views(records@);
    let mut names: Vec<String> = Vec::new();
    let mut i: usize = 0;
    while i < records.len()
        invariant
            i <= records@.len(),
            names@.len() == i,
            forall|k: int| 0 <= k < i ==> (#[trigger] names@[k])@ == records@[k].path@,
        decreases records@.len() - i,
    {
        names.push(records[i].path.clone());
        i += 1;
    }
    assert(views(names@) =~= record_paths(rv));
    let order: Vec<usize> = text_order(&names);
    let mut out: Vec<InventoryRecord> = Vec::new();
    let mut j: usize = 0;
    while j < order.len()
        invariant
            j <= order@.len(),
            rv == record_views(records@),
            order@.len() == records@.len(),
            is_stable_order(text_keys(record_paths(rv)), order@),
            out@.len() == j,
            forall|k: int| 0 <= k < j ==> (#[trigger] out@[k])@ == rv[order@[k] as int],
        decreases order@.len() - j,
    {
        let p: usize = order[j];
        assert(rv[p as int] == records@[p as int]@);
        out.push(records[p].copy());
        j += 1;
    }
    proof {
        lemma_stable_sorted(text_keys(record_paths(rv)), rv, order@, record_views(out@));
    }
    out
}

/// The inventory of a root, by path: the files of every manifest that a scan with
/// the same options would reach, but for those that it would leave out.
pub fn build_inventory(root: &str, opts: &ScanOptions, found: &Vec<Found>) -> (r: Vec<
    InventoryRecord,
>)
    ensures
        record_views(r@) == by_path(all_records(opts, root@, found@)),
{
    let mut out: Vec<InventoryRecord> = Vec::new();
    let mut i: usize = 0;
    assert(record_views(out@) =~= all_records(opts, root@, found@.take(0)));
    while i < found.len()
        invariant
            i <= found@.len(),
            record_views(out@) == all_records(opts, root@, found@.take(i as int)),
        decreases found@.len() - i,
    {
        proof {
            assert(found@.take(i + 1).drop_last() =~= found@.take(i as int));
            assert(found@.take(i + 1).last() == found@[i as int]);
        }
        if is_reached(opts, root, found[i].dir.as_str()) {
            let mut more: Vec<InventoryRecord> = manifest_records(opts, root, &found[i]);
            let ghost before = out@;
            let ghost add = more@;
            out.append(&mut more);
            assert(record_views(out@) =~= record_views(before) + record_views(add));
        }
        i += 1;
    }
    assert(found@.take(found@.len() as int) =~= found@);
    sort_records(&out)
}

// ---- groups ----------------------------------------------------------------

/// All files with one content hash.
#[derive(Debug)]
pub struct HashGroup {
    /// The beginning of the hash, for display.
    pub short: String,
    pub hash: String,
    pub algo: String,
    /// The paths of the copies, in alphabetical order.
    pub paths: Vec<String>,
    /// The number of copies.
    pub count: usize,
    /// The size of each copy.
    pub size: u64,
    /// The earliest modified time of the copies, 0 if none is known.
    pub earliest_mtime_ns: u64,
    /// The same in RFC 3339, empty if none is known.
    pub earliest_mtime: String,
}

/// What a group holds.
#[verifier::ext_equal]
pub struct GroupView {
    pub short: Seq<char>,
    pub hash: Seq<char>,
    pub algo: Seq<char>,
    pub paths: Seq<Seq<char>>,
    pub count: nat,
    pub size: u64,
    pub earliest_mtime_ns: u64,
    pub earliest_mtime: Seq<char>,
}

impl View for HashGroup {
    type V = GroupView;

    open spec fn view(&self) -> GroupView {
        GroupView {
            short: self.short@,
            hash: self.hash@,
            algo: self.algo@,
            paths: views(self.paths@),
            count: self.count as nat,
            size: self.size,
            earliest_mtime_ns: self.earliest_mtime_ns,
            earliest_mtime: self.earliest_mtime@,
        }
    }
}

/// The views of some groups.
pub open spec fn group_views(v: Seq<HashGroup>) -> Seq<GroupView> {
    v.map_values(|g: HashGroup| g@)
}

impl HashGroup {
    pub fn copy(&self) -> (r: HashGroup)
        ensures
            r@ == self@,
    {
        HashGroup {
            short: self.short.clone(),
            hash: self.hash.clone(),
            algo: self.algo.clone(),
            paths: copy_texts(&self.paths),
            count: self.count,
            size: self.size,
            earliest_mtime_ns: self.earliest_mtime_ns,
            earliest_mtime: self.earliest_mtime.clone(),
        }
    }
}

/// At most the first `n` characters of a text.
pub open spec fn first_chars(s: Seq<char>, n: int) -> Seq<char> {
    if s.len() <= n {
        s
    } else {
        s.take(n)
    }
}

/// The first twelve characters of a hash.
pub fn short_hash(hash: &str) -> (r: String)
    ensures
        r@ == first_chars(hash@, 12),
{
    let c: Vec<char> = chars_of(hash);
    if c.len() <= 12 {
        return hash.to_owned();
    }
    assert(hash@.take(12) =~= c@.subrange(0, 12));
    text_between(&c, 0, 12)
}

/// The hashes of some records.
pub open spec fn record_hashes(records: Seq<RecordView>) -> Seq<Seq<char>> {
    records.map_values(|r: RecordView| r.hash)
}

/// The records at some places.
pub open spec fn at_places(records: Seq<RecordView>, places: Seq<usize>) -> Seq<RecordView> {
    places.map_values(|p: usize| records[p as int])
}

/// The earliest of some times, 0 where none is known. A time of 0 is unknown.
pub open spec fn earliest(members: Seq<RecordView>) -> u64
    decreases members.len(),
{
    if members.len() == 0 {
        0
    } else {
        let before = earliest(members.drop_last());
        let t = members.last().mtime_ns;
        if t == 0 {
            before
        } else if before == 0 || t < before {
            t
        } else {
            before
        }
    }
}

/// The group of some records with the same hash.
pub open spec fn group_of(members: Seq<RecordView>) -> GroupView {
    let first = members[0];
    let time = earliest(members);
    GroupView {
        short: first_chars(first.hash, 12),
        hash: first.hash,
        algo: first.algo,
        paths: sorted_texts(record_paths(members)),
        count: members.len(),
        size: first.size,
        earliest_mtime_ns: time,
        earliest_mtime: if time == 0 {
            Seq::empty()
        } else {
            utc_text(time as int)
        },
    }
}

/// The groups of some records, by hash.
pub open spec fn groups_by_hash(records: Seq<RecordView>) -> Seq<GroupView> {
    members::<String>(record_hashes(records)).map_values(
        |h: Seq<char>| group_of(at_places(records, places_of(record_hashes(records), h))),
    )
}

/// Larger groups first, then by the first path.
pub open spec fn group_key(g: GroupView) -> KeyView {
    KeyView { major: (u64::MAX - g.count) as u64, minor: 0, text: g.paths[0] }
}

/// The keys of some groups.
pub open spec fn group_keys(groups: Seq<GroupView>) -> Seq<KeyView> {
    groups.map_values(|g: GroupView| group_key(g))
}

/// Makes the group of the records at some places.
fn make_group(records: &Vec<InventoryRecord>, places: &Places) -> (r: HashGroup)
    requires
        places@.len() > 0,
        forall|i: int| 0 <= i < places@.len() ==> #[trigger] places@[i] < records@.len(),
    ensures
        r@ == group_of(at_places(record_views(records@), places@)),
{
    let ghost rv = record_views(records@);
    let ghost chosen = at_places(rv, places@);
    let n: usize = places.len();
    let first: &InventoryRecord = &records[places.at(0)];
    let mut names: Vec<String> = Vec::new();
    let mut time: u64 = 0;
    let mut i: usize = 0;
    assert(chosen.take(0) =~= Seq::<RecordView>::empty());
    while i < n
        invariant
            n == places@.len(),
            i <= n,
            rv == record_views(records@),
            chosen == at_places(rv, places@),
            forall|k: int| 0 <= k < places@.len() ==> #[trigger] places@[k] < records@.len(),
            time == earliest(chosen.take(i as int)),
            names@.len() == i,
            forall|k: int| 0 <= k < i ==> (#[trigger] names@[k])@ == chosen[k].path,
        decreases n - i,
    {
        let r: &InventoryRecord = &records[places.at(i)];
        proof {
            assert(chosen[i as int] == r@);
            assert(chosen.take(i + 1).drop_last() =~= chosen.take(i as int));
            assert(chosen.take(i + 1).last() == r@);
        }
        names.push(r.path.clone());
        if r.mtime_ns != 0 && (time == 0 || r.mtime_ns < time) {
            time = r.mtime_ns;
        }
        i += 1;
    }
    proof {
        assert(chosen.take(n as int) =~= chosen);
        assert(views(names@) =~= record_paths(chosen));
        assert(chosen[0] == first@);
    }
    let text: String = if time == 0 {
        let none: String = String::new();
        assert(none@ =~= Seq::<char>::empty());
        none
    } else {
        ns_to_rfc3339(time)
    };
    HashGroup {
        short: short_hash(first.hash.as_str()),
        hash: first.hash.clone(),
        algo: first.algo.clone(),
        paths: sort_texts(&names),
        count: n,
        size: first.size,
        earliest_mtime_ns: time,
        earliest_mtime: text,
    }
}

/// The places of the records of each hash.
fn hash_places(records: &Vec<InventoryRecord>) -> (r: OrdMap<String, Places>)
    ensures
        r@ == grouped(record_hashes(record_views(records@))),
{
    let mut hashes: Vec<String> = Vec::new();
    let mut i: usize = 0;
    while i < records.len()
        invariant
            i <= records@.len(),
            hashes@.len() == i,
            forall|k: int| 0 <= k < i ==> (#[trigger] hashes@[k])@ == records@[k].hash@,
        decreases records@.len() - i,
    {
        hashes.push(records[i].hash.clone());
        i += 1;
    }
    assert(key_values(hashes@) =~= record_hashes(record_views(records@)));
    group_places(hashes)
}

/// Groups records by hash: the largest groups first, those of one size by their
/// first path. A group's date is the earliest that is known of its copies.
pub fn aggregate_by_hash(records: &Vec<InventoryRecord>) -> (r: Vec<HashGroup>)
    ensures
        ({
            let groups = groups_by_hash(record_views(records@));
            group_views(r@) == stable_sorted(group_keys(groups), groups)
        }),
{
    let n_records: usize = records.len();
    let ghost rv = record_views(records@);
    let ghost hashes = record_hashes(rv);
    let by_hash: OrdMap<String, Places> = hash_places(records);
    let n: usize = by_hash.len();
    let ghost keys = by_hash.keys();
    let ghost all = groups_by_hash(rv);
    proof {
        assert forall|k: Seq<char>| keys.contains(k) <==> hashes.contains(k) by {
            assert(by_hash@.dom().contains(k) <==> keys.contains(k));
        }
        law_members_are_listed::<String>(hashes);
        law_lists_in_order_are_sets::<String>(keys, members::<String>(hashes));
    }
    let mut groups: Vec<HashGroup> = Vec::new();
    let mut sort_keys: Vec<SortKey> = Vec::new();
    let mut i: usize = 0;
    while i < n
        invariant
            n == keys.len(),
            i <= n,
            rv == record_views(records@),
            rv.len() == n_records,
            hashes == record_hashes(rv),
            by_hash@ == grouped(hashes),
            keys == by_hash.keys(),
            keys == members::<String>(hashes),
            all == groups_by_hash(rv),
            groups@.len() == i,
            sort_keys@.len() == i,
            forall|k: int| 0 <= k < i ==> (#[trigger] groups@[k])@ == all[k],
            forall|k: int| 0 <= k < i ==> (#[trigger] sort_keys@[k])@ == group_key(all[k]),
        decreases n - i,
    {
        let places: &Places = by_hash.value_at(i);
        proof {
            lemma_places(hashes, keys[i as int]);
        }
        let g: HashGroup = make_group(records, places);
        assert(g@ == all[i as int]);
        assert(g.paths@.len() == places@.len()) by {
            assert(views(g.paths@).len() == g.paths@.len());
        }
        assert(views(g.paths@)[0] == g.paths@[0]@);
        sort_keys.push(
            SortKey { major: u64::MAX - g.count as u64, minor: 0, text: g.paths[0].clone() },
        );
        groups.push(g);
        i += 1;
    }
    proof {
        assert(group_views(groups@) =~= all);
        assert(key_views(sort_keys@) =~= group_keys(all));
    }
    let order: Vec<usize> = stable_order(&sort_keys);
    let mut out: Vec<HashGroup> = Vec::new();
    let mut j: usize = 0;
    while j < order.len()
        invariant
            j <= order@.len(),
            order@.len() == groups@.len(),
            group_views(groups@) == all,
            is_stable_order(group_keys(all), order@),
            out@.len() == j,
            forall|k: int| 0 <= k < j ==> (#[trigger] out@[k])@ == all[order@[k] as int],
        decreases order@.len() - j,
    {
        let p: usize = order[j];
        assert(all[p as int] == groups@[p as int]@);
        out.push(groups[p].copy());
        j += 1;
    }
    proof {
        lemma_stable_sorted(group_keys(all), all, order@, group_views(out@));
    }
    out
}

/// The records whose hash occurs more than once, in order.
pub open spec fn duplicates(records: Seq<RecordView>, all: Seq<Seq<char>>) -> Seq<RecordView>
    decreases records.len(),
{
    if records.len() == 0 {
        Seq::empty()
    } else {
        let before = duplicates(records.drop_last(), all);
        if places_of(all, records.last().hash).len() > 1 {
            before.push(records.last())
        } else {
            before
        }
    }
}

/// Keeps only the records whose hash occurs more than once.
pub fn retain_dups(records: &mut Vec<InventoryRecord>)
    ensures
        record_views(final(records)@) == duplicates(
            record_views(old(records)@),
            record_hashes(record_views(old(records)@)),
        ),
{
    let by_hash: OrdMap<String, Places> = hash_places(records);
    let ghost rv = record_views(records@);
    let ghost hashes = record_hashes(rv);
    let mut out: Vec<InventoryRecord> = Vec::new();
    let mut i: usize = 0;
    assert(record_views(out@) =~= duplicates(rv.take(0), hashes));
    while i < records.len()
        invariant
            i <= records@.len(),
            rv == record_views(records@),
            hashes == record_hashes(rv),
            by_hash@ == grouped(hashes),
            record_views(out@) == duplicates(rv.take(i as int), hashes),
        decreases records@.len() - i,
    {
        let r: &InventoryRecord = &records[i];
        proof {
            assert(rv[i as int] == r@);
            assert(rv.take(i + 1).drop_last() =~= rv.take(i as int));
            assert(rv.take(i + 1).last() == r@);
            assert(hashes[i as int] == r.hash@);
            assert(hashes.contains(r.hash@));
        }
        if by_hash.get(&r.hash).unwrap().len() > 1 {
            let copy: InventoryRecord = r.copy();
            assert(record_views(out@.push(copy)) =~= record_views(out@).push(r@));
            out.push(copy);
        }
        i += 1;
    }
    assert(rv.take(rv.len() as int) =~= rv);
    *records = out;
}

// ---- the page --------------------------------------------------------------

/// The number of files of some groups together.
pub open spec fn copies(groups: Seq<GroupView>) -> nat
    decreases groups.len(),
{
    if groups.len() == 0 {
        0
    } else {
        copies(groups.drop_last()) + groups.last().count
    }
}

/// The data with a backslash in each `</`, so that it cannot close its element.
pub open spec fn script_safe(data: Seq<char>) -> Seq<char> {
    replaced(data, "</"@, "<\\/"@)
}

/// The page for some data: a template with its placeholders filled in, in order.
pub open spec fn page_text(
    template: Seq<char>,
    data: Seq<char>,
    groups: nat,
    files: nat,
    generated: Seq<char>,
) -> Seq<char> {
    replaced(
        replaced(
            replaced(
                replaced(template, "__DATA__"@, script_safe(data)),
                "__GROUPS__"@,
                decimal(groups),
            ),
            "__FILES__"@,
            decimal(files),
        ),
        "__GENERATED__"@,
        generated,
    )
}

/// The number of files of some groups together, where it can be held.
pub fn count_copies(groups: &Vec<HashGroup>) -> (r: Option<usize>)
    ensures
        r == (if copies(group_views(groups@)) <= usize::MAX {
            Some(copies(group_views(groups@)) as usize)
        } else {
            None
        }),
{
    let ghost gv = group_views(groups@);
    let mut sum: usize = 0;
    let mut i: usize = 0;
    assert(gv.take(0) =~= Seq::<GroupView>::empty());
    while i < groups.len()
        invariant
            i <= groups@.len(),
            gv == group_views(groups@),
            sum == copies(gv.take(i as int)),
        decreases groups@.len() - i,
    {
        proof {
            assert(gv.take(i + 1).drop_last() =~= gv.take(i as int));
            assert(gv.take(i + 1).last() == groups@[i as int]@);
            lemma_copies_grow(gv, i + 1);
        }
        match sum.checked_add(groups[i].count) {
            Some(s) => {
                sum = s;
            },
            None => return None,
        }
        i += 1;
    }
    assert(gv.take(gv.len() as int) =~= gv);
    Some(sum)
}

proof fn lemma_copies_grow(groups: Seq<GroupView>, i: int)
    requires
        0 <= i <= groups.len(),
    ensures
        copies(groups.take(i)) <= copies(groups),
    decreases groups.len(),
{
    if i == groups.len() {
        assert(groups.take(i) =~= groups);
    } else {
        assert(groups.drop_last().take(i) =~= groups.take(i));
        lemma_copies_grow(groups.drop_last(), i);
    }
}

/// Fills the page: the data of the groups, already serialised, their number, the
/// number of their files, and the time.
pub fn render_html(template: &str, data: &str, groups: &Vec<HashGroup>, generated: &str) -> (r:
    String)
    requires
        copies(group_views(groups@)) <= usize::MAX,
    ensures
        r@ == page_text(
            template@,
            data@,
            groups@.len(),
            copies(group_views(groups@)),
            generated@,
        ),
{
    proof {
        reveal_strlit("</");
        reveal_strlit("__DATA__");
        reveal_strlit("__GROUPS__");
        reveal_strlit("__FILES__");
        reveal_strlit("__GENERATED__");
    }
    let files: usize = count_copies(groups).unwrap();
    let safe: String = replace_all(data, "</", "<\\/");
    let a: String = replace_all(template, "__DATA__", safe.as_str());
    let b: String = replace_all(a.as_str(), "__GROUPS__", usize_text(groups.len()).as_str());
    let c: String = replace_all(b.as_str(), "__FILES__", usize_text(files).as_str());
    replace_all(c.as_str(), "__GENERATED__", generated)
}

/// Data made safe holds no `</`.
pub proof fn law_script_safe_closes_nothing(data: Seq<char>)
    ensures
        !has_part(script_safe(data), "</"@),
    decreases data.len(),
{
    reveal_strlit("</");
    reveal_strlit("<\\/");
    lemma_no_close(data);
    let out = script_safe(data);
    if has_part(out, "</"@) {
        let i = choose|i: int| occurs_at(out, "</"@, i);
        let two = out.subrange(i, i + 2);
        assert(two[0] == out[i] && two[1] == out[i + 1]);
    }
}

/// In data made safe no `/` follows a `<`, and it starts like the data.
proof fn lemma_no_close(data: Seq<char>)
    ensures
        forall|i: int|
            0 <= i < script_safe(data).len() - 1 && #[trigger] script_safe(data)[i] == '<'
                ==> script_safe(data)[i + 1] != '/',
        data.len() > 0 ==> script_safe(data).len() > 0 && script_safe(data)[0] == data[0],
        data.len() == 0 ==> script_safe(data).len() == 0,
    decreases data.len(),
{
    reveal_strlit("</");
    reveal_strlit("<\\/");
    if data.len() > 0 {
        if has_prefix(data, "</"@) {
            let rest = data.skip(2);
            lemma_no_close(rest);
            let tail = script_safe(rest);
            let out = script_safe(data);
            assert(out =~= seq!['<', '\\', '/'] + tail);
            assert(data.subrange(0, 2)[0] == data[0]);
            assert forall|i: int| 0 <= i < out.len() - 1 && #[trigger] out[i] == '<' implies out[i
                + 1] != '/' by {
                if i >= 3 {
                    assert(tail[i - 3] == '<');
                }
            }
        } else {
            let rest = data.skip(1);
            lemma_no_close(rest);
            let tail = script_safe(rest);
            let out = script_safe(data);
            assert(out =~= seq![data[0]] + tail);
            assert forall|i: int| 0 <= i < out.len() - 1 && #[trigger] out[i] == '<' implies out[i
                + 1] != '/' by {
                if i == 0 {
                    assert(rest[0] == data[1]);
                    if data[1] == '/' {
                        assert(data.subrange(0, 2) =~= "</"@);
                    }
                } else {
                    assert(tail[i - 1] == '<');
                }
            }
        }
    }
}

/// Every file is counted in one group: the counts of the groups add up to the number of
/// files.
pub proof fn law_groups_count_every_file(records: Seq<RecordView>)
    ensures
        copies(groups_by_hash(records)) == records.len(),
{
    let hashes = record_hashes(records);
    let keys = members::<String>(hashes);
    law_members_are_listed::<String>(hashes);
    assert forall|i: int| 0 <= i < hashes.len() implies keys.contains(#[trigger] hashes[i]) by {
        assert(hashes.contains(hashes[i]));
    }
    law_members_have_every_place::<String>(hashes, keys);
    lemma_copies_are_places(records, keys);
}

proof fn lemma_copies_are_places(records: Seq<RecordView>, keys: Seq<Seq<char>>)
    ensures
        copies(
            keys.map_values(
                |h: Seq<char>| group_of(at_places(records, places_of(record_hashes(records), h))),
            ),
        ) == place_total(record_hashes(records), keys),
    decreases keys.len(),
{
    let f = |h: Seq<char>| group_of(at_places(records, places_of(record_hashes(records), h)));
    if keys.len() > 0 {
        lemma_copies_are_places(records, keys.drop_last());
        assert(keys.map_values(f).drop_last() =~= keys.drop_last().map_values(f));
    }
}

/// The earliest time of some files is the least of those that are known; it is 0 where
/// none is.
pub proof fn law_earliest_is_the_least_known_time(members: Seq<RecordView>)
    ensures
        earliest(members) == 0 <==> forall|i: int|
            0 <= i < members.len() ==> (#[trigger] members[i]).mtime_ns == 0,
        forall|i: int|
            0 <= i < members.len() && (#[trigger] members[i]).mtime_ns != 0 ==> earliest(members)
                <= members[i].mtime_ns,
        earliest(members) != 0 ==> exists|i: int|
            0 <= i < members.len() && (#[trigger] members[i]).mtime_ns == earliest(members),
    decreases members.len(),
{
    if members.len() > 0 {
        let init = members.drop_last();
        let n = members.len() - 1;
        law_earliest_is_the_least_known_time(init);
        assert forall|i: int| 0 <= i < init.len() implies #[trigger] init[i] == members[i] by {}
        assert(members[n] == members.last());
        if earliest(init) != 0 {
            let k = choose|k: int|
                0 <= k < init.len() && (#[trigger] init[k]).mtime_ns == earliest(init);
            assert(members[k].mtime_ns == earliest(init));
        } else {
            assert forall|i: int| 0 <= i < n implies (#[trigger] members[i]).mtime_ns == 0 by {
                assert(init[i].mtime_ns == 0);
            }
        }
        assert forall|i: int|
            0 <= i < members.len() && (#[trigger] members[i]).mtime_ns != 0 implies earliest(
            members,
        ) <= members[i].mtime_ns by {
            if i < n {
                assert(init[i].mtime_ns != 0);
            }
        }
    }
}

/// A group is the files with its hash: as many as it counts, every path once for each
/// and in alphabetical order, with the first twelve characters of the hash, the hash,
/// the algorithm and the size that its files have.
pub proof fn law_group_is_its_files(members: Seq<RecordView>, i: int, j: int)
    requires
        0 < members.len() <= usize::MAX,
        0 <= i < j < members.len(),
    ensures
        group_of(members).count == members.len(),
        group_of(members).paths.len() == members.len(),
        group_of(members).paths.contains(members[i].path),
        group_of(members).paths.contains(members[j].path),
        !text_lt(group_of(members).paths[j], group_of(members).paths[i]),
        exists|k: int|
            0 <= k < members.len() && (#[trigger] members[k]).path == group_of(members).paths[i],
        group_of(members).hash == members[0].hash,
        group_of(members).algo == members[0].algo,
        group_of(members).size == members[0].size,
        group_of(members).short.len() <= 12,
        members[0].hash.len() <= 12 ==> group_of(members).short == members[0].hash,
        members[0].hash.len() > 12 ==> group_of(members).short == members[0].hash.subrange(0, 12),
        group_of(members).earliest_mtime_ns == earliest(members),
        earliest(members) == 0 ==> group_of(members).earliest_mtime.len() == 0,
        earliest(members) != 0 ==> group_of(members).earliest_mtime == utc_text(
            earliest(members) as int,
        ),
{
    let paths = record_paths(members);
    law_sorting_keeps_the_items(text_keys(paths), paths, paths[i]);
    law_sorting_keeps_the_items(text_keys(paths), paths, paths[j]);
    assert(paths.contains(paths[i]) && paths.contains(paths[j]));
    law_sorted_texts_ascend(paths, i, j);
    let x = group_of(members).paths[i];
    law_sorting_keeps_the_items(text_keys(paths), paths, x);
    assert(group_of(members).paths.contains(x));
    let k = choose|k: int| 0 <= k < paths.len() && paths[k] == x;
    assert(members[k].path == x);
}

/// Of two groups the one with more files comes first, and of two with as many the one
/// whose first path is first in the alphabet.
pub proof fn law_larger_groups_come_first(groups: Seq<GroupView>, i: int, j: int)
    requires
        groups.len() <= usize::MAX,
        forall|k: int| 0 <= k < groups.len() ==> (#[trigger] groups[k]).count <= u64::MAX,
        0 <= i < j < groups.len(),
    ensures
        ({
            let all = stable_sorted(group_keys(groups), groups);
            &&& all[i].count >= all[j].count
            &&& all[i].count == all[j].count ==> !text_lt(all[j].paths[0], all[i].paths[0])
        }),
{
    law_sorted_items_ascend(group_keys(groups), i, j);
    let (a, b) = (the_order(group_keys(groups))[i] as int, the_order(group_keys(groups))[j] as int);
    assert(groups[a].count <= u64::MAX && groups[b].count <= u64::MAX);
}

/// Where only duplicates are asked for, a file stays exactly where another file has its
/// hash.
pub proof fn law_only_shared_hashes_stay(records: Seq<RecordView>, i: int)
    requires
        records.len() <= usize::MAX,
        0 <= i < records.len(),
    ensures
        duplicates(records, record_hashes(records)).contains(records[i]) <==> exists|j: int|
            0 <= j < records.len() && j != i && (#[trigger] records[j]).hash == records[i].hash,
        duplicates(records, record_hashes(records)).len() <= records.len(),
{
    let all = record_hashes(records);
    let h = records[i].hash;
    let at = places_of(all, h);
    lemma_places(all, h);
    lemma_duplicates_are_kept(records, all, records[i]);
    assert(all[i] == h);
    assert(at.contains(i as usize));
    if at.len() > 1 {
        let j = if at[0] == i {
            at[1]
        } else {
            at[0]
        };
        assert(at[0] < at[1]);
        assert(all[j as int] == h);
        assert(records[j as int].hash == h && j != i);
    }
    if exists|j: int|
        0 <= j < records.len() && j != i && (#[trigger] records[j]).hash == records[i].hash {
        let j = choose|j: int|
            0 <= j < records.len() && j != i && (#[trigger] records[j]).hash == records[i].hash;
        assert(all[j] == h);
        assert(at.contains(j as usize));
        let (x, y) = (
            choose|x: int| 0 <= x < at.len() && at[x] == i as usize,
            choose|y: int| 0 <= y < at.len() && at[y] == j as usize,
        );
        assert(x != y);
    }
    assert(records.contains(records[i]));
}

proof fn lemma_duplicates_are_kept(records: Seq<RecordView>, all: Seq<Seq<char>>, r: RecordView)
    ensures
        duplicates(records, all).contains(r) <==> records.contains(r) && places_of(
            all,
            r.hash,
        ).len() > 1,
        duplicates(records, all).len() <= records.len(),
    decreases records.len(),
{
    if records.len() > 0 {
        let init = records.drop_last();
        let before = duplicates(init, all);
        lemma_duplicates_are_kept(init, all, r);
        if init.contains(r) {
            let k = choose|k: int| 0 <= k < init.len() && init[k] == r;
            assert(records[k] == r);
        }
        if before.contains(r) {
            let k = choose|k: int| 0 <= k < before.len() && before[k] == r;
            assert(duplicates(records, all)[k] == r);
        }
        if records.last() == r {
            assert(records[records.len() - 1] == r);
            if places_of(all, r.hash).len() > 1 {
                assert(duplicates(records, all)[before.len() as int] == r);
            }
        }
        if records.contains(r) && records.last() != r {
            let k = choose|k: int| 0 <= k < records.len() && records[k] == r;
            assert(init[k] == r);
        }
        if duplicates(records, all).contains(r) && !before.contains(r) {
            let k = choose|k: int|
                0 <= k < duplicates(records, all).len() && duplicates(records, all)[k] == r;
            if k < before.len() {
                assert(before[k] == r);
            }
        }
    }
}

/// The inventory holds a file exactly where a manifest lists it and nothing leaves its
/// path out, with what the manifest records of it; its flags are one text with `|`
/// between them.
pub proof fn law_inventory_records_what_is_listed(
    opts: &ScanOptions,
    root: Seq<char>,
    entries: Seq<WalkView>,
    i: int,
)
    requires
        0 <= i < entries.len(),
    ensures
        ({
            let w = entries[i];
            let r = record_of(w);
            &&& !opts.skips(w.path, root) ==> kept_records(opts, root, entries).contains(r)
            &&& r.path == w.rel
            &&& r.hash == w.entry.hash
            &&& r.algo == w.entry.algo
            &&& r.size == w.entry.size
            &&& r.mtime_ns == w.entry.mtime_ns
            &&& r.hashed_at == w.entry.hashed_at
            &&& r.mtime == utc_text(w.entry.mtime_ns as int)
            &&& w.entry.flags.len() == 0 ==> r.flags.len() == 0
            &&& w.entry.flags.len() == 1 ==> r.flags == w.entry.flags[0]
            &&& w.entry.flags.len() == 2 ==> r.flags == w.entry.flags[0] + seq!['|']
                + w.entry.flags[1]
        }),
        forall|r: RecordView| #[trigger]
            kept_records(opts, root, entries).contains(r) ==> exists|k: int|
                0 <= k < entries.len() && r == record_of(#[trigger] entries[k]) && !opts.skips(
                    entries[k].path,
                    root,
                ),
    decreases entries.len(),
{
    let init = entries.drop_last();
    let before = kept_records(opts, root, init);
    let all = kept_records(opts, root, entries);
    let n = init.len() as int;
    let f = entries[i].entry.flags;
    reveal_strlit("|");
    assert("|"@ =~= seq!['|']);
    reveal_with_fuel(joined, 3);
    if f.len() == 2 {
        assert(f.drop_last() =~= seq![f[0]]);
        assert(joined(f, "|"@) =~= f[0] + seq!['|'] + f[1]);
    }
    if init.len() > 0 {
        law_inventory_records_what_is_listed(
            opts,
            root,
            init,
            if i < n {
                i
            } else {
                0
            },
        );
    } else {
        assert(before =~= Seq::<RecordView>::empty());
    }
    if !opts.skips(entries[i].path, root) {
        if i < n {
            let k = choose|k: int| 0 <= k < before.len() && before[k] == record_of(init[i]);
            assert(all[k] == record_of(entries[i]));
        } else {
            assert(all[before.len() as int] == record_of(entries[i]));
        }
    }
    assert forall|r: RecordView| #[trigger] all.contains(r) implies exists|k: int|
        0 <= k < entries.len() && r == record_of(#[trigger] entries[k]) && !opts.skips(
            entries[k].path,
            root,
        ) by {
        let x = choose|x: int| 0 <= x < all.len() && all[x] == r;
        if x < before.len() {
            assert(before[x] == r);
            assert(before.contains(r));
            let k = choose|k: int|
                0 <= k < init.len() && r == record_of(#[trigger] init[k]) && !opts.skips(
                    init[k].path,
                    root,
                );
            assert(entries[k] == init[k]);
        } else {
            assert(entries[n] == entries.last());
        }
    }
}

/// The inventory is in the order of the paths and holds what the walk found.
pub proof fn law_inventory_is_in_order(records: Seq<RecordView>, i: int, j: int, r: RecordView)
    requires
        records.len() <= usize::MAX,
        0 <= i < j < records.len(),
    ensures
        !text_lt(by_path(records)[j].path, by_path(records)[i].path),
        by_path(records).len() == records.len(),
        by_path(records).contains(r) <==> records.contains(r),
{
    let keys = text_keys(record_paths(records));
    law_sorted_items_ascend(keys, i, j);
    law_sorting_keeps_the_items(keys, records, r);
}

/// A directory below the root is reached where none of the directories on the way to it
/// is left out, itself among them.
pub proof fn law_directory_is_reached_through_its_parents(
    opts: &ScanOptions,
    root: Seq<char>,
    names: Seq<Seq<char>>,
)
    requires
        are_names(names),
    ensures
        reached(opts, root, joined_path(root, joined(names, "/"@))) <==> forall|k: int|
            1 <= k <= names.len() ==> !opts.skips(
                joined_path(root, joined(#[trigger] names.take(k), "/"@)),
                root,
            ),
{
    let dir = joined_path(root, joined(names, "/"@));
    let n = comps(root).len() as int;
    law_joined_path_has_both(root, names);
    assert(comps(dir).take(n) =~= comps(root));
    assert(is_under(dir, root));
    assert forall|k: int| 1 <= k <= names.len() implies #[trigger] step_down(root, dir, k)
        == joined_path(root, joined(names.take(k), "/"@)) by {
        assert(comps(dir).subrange(n, n + k) =~= names.take(k));
    }
    if reached(opts, root, dir) {
        assert forall|k: int| 1 <= k <= names.len() implies !opts.skips(
            joined_path(root, joined(#[trigger] names.take(k), "/"@)),
            root,
        ) by {
            assert(!opts.skips(step_down(root, dir, k), root));
        }
    }
    if forall|k: int|
        1 <= k <= names.len() ==> !opts.skips(
            joined_path(root, joined(#[trigger] names.take(k), "/"@)),
            root,
        ) {
        assert forall|k: int| 1 <= k <= comps(dir).len() - comps(root).len() implies !opts.skips(
            #[trigger] step_down(root, dir, k),
            root,
        ) by {
            assert(names.take(k).len() == k);
        }
    }
}

/// A placeholder becomes what stands for it: the number of contents, the number of
/// files, and when the page was made, whatever that text is.
pub proof fn law_placeholders_become_their_texts(groups: nat, files: nat, generated: Seq<char>)
    ensures
        page_text("__GROUPS__"@, Seq::empty(), groups, files, generated) == decimal(groups),
        page_text("__FILES__"@, Seq::empty(), groups, files, generated) == decimal(files),
        page_text("__GENERATED__"@, Seq::empty(), groups, files, generated) == generated,
{
    let e = Seq::<char>::empty();
    let (d, g, f, t) = ("__DATA__"@, "__GROUPS__"@, "__FILES__"@, "__GENERATED__"@);
    reveal_strlit("__DATA__");
    reveal_strlit("__GROUPS__");
    reveal_strlit("__FILES__");
    reveal_strlit("__GENERATED__");
    reveal_strlit("</");
    assert(script_safe(e) =~= e);
    lemma_whole_placeholder(g, decimal(groups));
    lemma_whole_placeholder(f, decimal(files));
    lemma_whole_placeholder(t, generated);
    lemma_other_placeholder(g, d, e);
    lemma_other_placeholder(f, d, e);
    lemma_other_placeholder(f, g, decimal(groups));
    lemma_other_placeholder(t, d, e);
    lemma_other_placeholder(t, f, decimal(files));
    lemma_generated_is_no_group(decimal(groups));
    lemma_digits_hold_no_placeholder(groups, f, decimal(files));
    lemma_digits_hold_no_placeholder(groups, t, generated);
    lemma_digits_hold_no_placeholder(files, t, generated);
}

proof fn lemma_generated_is_no_group(to: Seq<char>)
    ensures
        replaced("__GENERATED__"@, "__GROUPS__"@, to) == "__GENERATED__"@,
{
    reveal_strlit("__GROUPS__");
    reveal_strlit("__GENERATED__");
    let (s, p) = ("__GENERATED__"@, "__GROUPS__"@);
    assert(!has_part(s, p)) by {
        if has_part(s, p) {
            let i = choose|i: int| occurs_at(s, p, i);
            let w = s.subrange(i, i + p.len());
            assert(w[0] == s[i] && w[3] == s[i + 3]);
            assert(0 <= i <= 3);
        }
    }
    law_replacing_leaves_the_rest(s, p, to);
}

proof fn lemma_whole_placeholder(p: Seq<char>, to: Seq<char>)
    requires
        p.len() > 0,
    ensures
        replaced(p, p, to) == to,
{
    let e = Seq::<char>::empty();
    law_replacing_leaves_the_rest(e, p, to);
    assert(p + e =~= p);
    assert(to + e =~= to);
}

proof fn lemma_other_placeholder(s: Seq<char>, p: Seq<char>, to: Seq<char>)
    requires
        s.len() > 2,
        p.len() > 2,
        s[0] == '_' && s[1] == '_',
        p[0] == '_' && p[1] == '_',
        s[2] != p[2],
        s[2] != '_' && p[2] != '_',
        s.len() < 14,
        p.len() >= 8,
        forall|i: int| 2 < i < s.len() - 2 ==> s[i] != '_',
        s[s.len() - 1] == '_' && s[s.len() - 2] == '_',
    ensures
        replaced(s, p, to) == s,
{
    assert(!has_part(s, p)) by {
        if has_part(s, p) {
            let i = choose|i: int| occurs_at(s, p, i);
            let w = s.subrange(i, i + p.len());
            assert(w[0] == s[i] && w[1] == s[i + 1] && w[2] == s[i + 2]);
            assert(s[i] == '_' && s[i + 1] == '_' && s[i + 2] == p[2]);
        }
    }
    law_replacing_leaves_the_rest(s, p, to);
}

proof fn lemma_digits_hold_no_placeholder(n: nat, p: Seq<char>, to: Seq<char>)
    requires
        p.len() > 0,
        p[0] == '_',
    ensures
        replaced(decimal(n), p, to) == decimal(n),
{
    let s = decimal(n);
    law_decimal_reads_back(n);
    assert(!has_part(s, p)) by {
        if has_part(s, p) {
            let i = choose|i: int| occurs_at(s, p, i);
            assert(s.subrange(i, i + p.len())[0] == s[i]);
        }
    }
    law_replacing_leaves_the_rest(s, p, to);
}

/// The inventory of a root holds what its manifests list: each file of each manifest
/// that the walk reaches and that is not left out, and nothing else.
pub proof fn law_inventory_holds_what_manifests_list(
    opts: &ScanOptions,
    root: Seq<char>,
    found: Seq<Found>,
    r: RecordView,
)
    ensures
        all_records(opts, root, found).contains(r) <==> exists|i: int|
            0 <= i < found.len() && reached(opts, root, (#[trigger] found[i]).dir@) && kept_records(
                opts,
                root,
                manifest_entries(found[i].dir@, root, found[i].files.keys(), found[i].files@),
            ).contains(r),
    decreases found.len(),
{
    if found.len() > 0 {
        let init = found.drop_last();
        let n = init.len() as int;
        let last = found.last();
        let own = kept_records(
            opts,
            root,
            manifest_entries(last.dir@, root, last.files.keys(), last.files@),
        );
        let (before, all) = (all_records(opts, root, init), all_records(opts, root, found));
        law_inventory_holds_what_manifests_list(opts, root, init, r);
        assert(found[n] == last);
        if all.contains(r) {
            let x = choose|x: int| 0 <= x < all.len() && all[x] == r;
            if x < before.len() {
                assert(before[x] == r);
                let i = choose|i: int|
                    0 <= i < init.len() && reached(opts, root, (#[trigger] init[i]).dir@)
                        && kept_records(
                        opts,
                        root,
                        manifest_entries(init[i].dir@, root, init[i].files.keys(), init[i].files@),
                    ).contains(r);
                assert(found[i] == init[i]);
            } else {
                assert(own[x - before.len()] == r);
            }
        }
        if exists|i: int|
            0 <= i < found.len() && reached(opts, root, (#[trigger] found[i]).dir@) && kept_records(
                opts,
                root,
                manifest_entries(found[i].dir@, root, found[i].files.keys(), found[i].files@),
            ).contains(r) {
            let i = choose|i: int|
                0 <= i < found.len() && reached(opts, root, (#[trigger] found[i]).dir@)
                    && kept_records(
                    opts,
                    root,
                    manifest_entries(found[i].dir@, root, found[i].files.keys(), found[i].files@),
                ).contains(r);
            if i < n {
                assert(init[i] == found[i]);
                let x = choose|x: int| 0 <= x < before.len() && before[x] == r;
                assert(all[x] == r);
            } else {
                let x = choose|x: int| 0 <= x < own.len() && own[x] == r;
                assert(all[before.len() + x] == r);
            }
        }
    }
}

/// A short hash is what the hash starts with: twelve characters of it, or all of it
/// where it has no more.
pub proof fn law_short_hash_starts_the_hash(hash: &str, r: String)
    requires
        call_ensures(short_hash, (hash,), r),
    ensures
        hash@.len() >= 12 ==> r@.len() == 12,
        hash@.len() < 12 ==> r@.len() == hash@.len(),
        r@ == hash@.take(r@.len() as int),
{
}

} // verus!
