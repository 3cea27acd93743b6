//! Comparing two trees by content.
use vstd::prelude::*;

use crate::inventory::{at_places, record_paths, record_views, InventoryRecord, RecordView};
use crate::manifest::copy_texts;
use crate::number::{decimal, usize_text};
use crate::order::{
    is_stable_order, law_sorted_items_ascend, law_sorted_texts_ascend, law_sorting_keeps_the_items, lemma_stable_sorted,
    sort_texts, sorted_texts, stable_sorted, text_keys, text_order,
};
use crate::text::{cut_to_bytes, text_eq, text_lt, views, within_bytes};
use crate::textmap::{
    group_places, grouped, in_order, key_values, law_lists_in_order_are_sets,
    law_members_are_listed, lemma_places, members, places_of, OrdMap, PairKey, Places, TextSet,
};

verus! {

#[derive(Clone, Copy, Debug, PartialEq, Eq, Structural)]
pub enum DiffFormat {
    /// The files unique to each side, in two sections.
    Grouped,
    /// One stream: `-` only in the first, `+` only in the second.
    Unified,
    /// Structured, for scripts.
    Json,
    /// Counts only.
    Summary,
}

pub struct DiffOptions {
    pub format: DiffFormat,
    pub show_common: bool,
    /// Scan both trees before comparing.
    pub scan_first: bool,
}

/// The files with one content, by path.
#[derive(Debug)]
pub struct PathList {
    pub paths: Vec<String>,
}

impl View for PathList {
    type V = Seq<Seq<char>>;

    open spec fn view(&self) -> Seq<Seq<char>> {
        views(self.paths@)
    }
}

/// The files of a tree, by algorithm and hash.
pub type HashIndex = OrdMap<PairKey, PathList>;

/// The algorithm and hash of each record.
pub open spec fn content_keys(records: Seq<RecordView>) -> Seq<(Seq<char>, Seq<char>)> {
    records.map_values(|r: RecordView| (r.algo, r.hash))
}

/// The files of some records, by algorithm and hash, each list in order.
pub open spec fn index_of(records: Seq<RecordView>) -> Map<
    (Seq<char>, Seq<char>),
    Seq<Seq<char>>,
> {
    Map::new(
        |k: (Seq<char>, Seq<char>)| content_keys(records).contains(k),
        |k: (Seq<char>, Seq<char>)|
            sorted_texts(
                record_paths(at_places(records, places_of(content_keys(records), k))),
            ),
    )
}

/// Indexes an inventory by content.
pub fn collect(records: &Vec<InventoryRecord>) -> (r: HashIndex)
    ensures
        r@ == index_of(record_views(records@)),
{
    let ghost rv = record_views(records@);
    let ghost ck = content_keys(rv);
    let n_records: usize = records.len();
    let mut keys: Vec<PairKey> = Vec::new();
    let mut i: usize = 0;
    while i < records.len()
        invariant
            i <= records@.len(),
            keys@.len() == i,
            forall|k: int|
                0 <= k < i ==> (#[trigger] keys@[k])@ == (records@[k].algo@, records@[k].hash@),
        decreases records@.len() - i,
    {
        keys.push(PairKey { first: records[i].algo.clone(), second: records[i].hash.clone() });
        i += 1;
    }
    assert(key_values(keys@) =~= ck);
    let groups: OrdMap<PairKey, Places> = group_places(keys);
    let n: usize = groups.len();
    let ghost gk = groups.keys();
    let mut out: HashIndex = OrdMap::new();
    let mut j: usize = 0;
    while j < n
        invariant
            n == gk.len(),
            j <= n,
            gk == groups.keys(),
            rv == record_views(records@),
            rv.len() == n_records,
            ck == content_keys(rv),
            groups@ == grouped(ck),
            forall|k: (Seq<char>, Seq<char>)| #[trigger]
                out@.dom().contains(k) ==> ck.contains(k) && out@[k] == index_of(rv)[k],
            forall|k: int| 0 <= k < j ==> out@.dom().contains(#[trigger] gk[k]),
        decreases n - j,
    {
        let key: PairKey = groups.key_at(j).copy();
        let places: &Places = groups.value_at(j);
        proof {
            lemma_places(ck, key@);
        }
        let m: usize = places.len();
        let ghost members = at_places(rv, places@);
        let mut names: Vec<String> = Vec::new();
        let mut x: usize = 0;
        while x < m
            invariant
                m == places@.len(),
                x <= m,
                rv == record_views(records@),
                members == at_places(rv, places@),
                forall|k: int| 0 <= k < places@.len() ==> #[trigger] places@[k] < records@.len(),
                names@.len() == x,
                forall|k: int| 0 <= k < x ==> (#[trigger] names@[k])@ == members[k].path,
            decreases m - x,
        {
            let p: usize = places.at(x);
            assert(rv[p as int] == records@[p as int]@);
            names.push(records[p].path.clone());
            x += 1;
        }
        assert(views(names@) =~= record_paths(members));
        let list: PathList = PathList { paths: sort_texts(&names) };
        out.insert(key, list);
        j += 1;
    }
    assert(out@ =~= index_of(rv)) by {
        assert forall|k: (Seq<char>, Seq<char>)| ck.contains(k) implies out@.dom().contains(k) by {
            assert(groups@.dom().contains(k));
            assert(gk.contains(k));
            let x = choose|x: int| 0 <= x < gk.len() && gk[x] == k;
            assert(out@.dom().contains(gk[x]));
        }
    }
    out
}

/// The beginning of a hash, for display: at most twelve bytes.
pub fn short(hash: &str) -> (r: String)
    ensures
        r@ == within_bytes(hash@, 12),
{
    cut_to_bytes(hash, 12)
}

/// `hash` or `hashes`.
pub open spec fn hashes_noun(n: nat) -> Seq<char> {
    if n == 1 {
        "hash"@
    } else {
        "hashes"@
    }
}

/// `file` or `files`.
pub open spec fn files_noun(n: nat) -> Seq<char> {
    if n == 1 {
        "file"@
    } else {
        "files"@
    }
}

pub fn hashes_word(n: usize) -> (r: &'static str)
    ensures
        r@ == hashes_noun(n as nat),
{
    if n == 1 {
        "hash"
    } else {
        "hashes"
    }
}

pub fn files_word(n: usize) -> (r: &'static str)
    ensures
        r@ == files_noun(n as nat),
{
    if n == 1 {
        "file"
    } else {
        "files"
    }
}

/// One content with its files on one side.
#[derive(Debug)]
pub struct GroupOut {
    pub algo: String,
    pub hash: String,
    pub files: Vec<String>,
}

/// One content with its files on both sides.
#[derive(Debug)]
pub struct CommonOut {
    pub algo: String,
    pub hash: String,
    pub path1_files: Vec<String>,
    pub path2_files: Vec<String>,
}

/// What a [`GroupOut`] holds.
#[verifier::ext_equal]
pub struct OneSide {
    pub algo: Seq<char>,
    pub hash: Seq<char>,
    pub files: Seq<Seq<char>>,
}

/// What a [`CommonOut`] holds.
#[verifier::ext_equal]
pub struct BothSides {
    pub algo: Seq<char>,
    pub hash: Seq<char>,
    pub files1: Seq<Seq<char>>,
    pub files2: Seq<Seq<char>>,
}

impl View for GroupOut {
    type V = OneSide;

    open spec fn view(&self) -> OneSide {
        OneSide { algo: self.algo@, hash: self.hash@, files: views(self.files@) }
    }
}

impl View for CommonOut {
    type V = BothSides;

    open spec fn view(&self) -> BothSides {
        BothSides {
            algo: self.algo@,
            hash: self.hash@,
            files1: views(self.path1_files@),
            files2: views(self.path2_files@),
        }
    }
}

pub open spec fn one_side_views(v: Seq<GroupOut>) -> Seq<OneSide> {
    v.map_values(|g: GroupOut| g@)
}

pub open spec fn both_sides_views(v: Seq<CommonOut>) -> Seq<BothSides> {
    v.map_values(|g: CommonOut| g@)
}

/// The contents of one side that the other lacks, in order.
pub open spec fn only_in(
    keys: Seq<(Seq<char>, Seq<char>)>,
    here: Map<(Seq<char>, Seq<char>), Seq<Seq<char>>>,
    there: Map<(Seq<char>, Seq<char>), Seq<Seq<char>>>,
) -> Seq<OneSide>
    decreases keys.len(),
{
    if keys.len() == 0 {
        Seq::empty()
    } else {
        let before = only_in(keys.drop_last(), here, there);
        let k = keys.last();
        if there.dom().contains(k) {
            before
        } else {
            before.push(OneSide { algo: k.0, hash: k.1, files: here[k] })
        }
    }
}

/// The contents that both sides have, in order.
pub open spec fn in_both(
    keys: Seq<(Seq<char>, Seq<char>)>,
    here: Map<(Seq<char>, Seq<char>), Seq<Seq<char>>>,
    there: Map<(Seq<char>, Seq<char>), Seq<Seq<char>>>,
) -> Seq<BothSides>
    decreases keys.len(),
{
    if keys.len() == 0 {
        Seq::empty()
    } else {
        let before = in_both(keys.drop_last(), here, there);
        let k = keys.last();
        if there.dom().contains(k) {
            before.push(BothSides { algo: k.0, hash: k.1, files1: here[k], files2: there[k] })
        } else {
            before
        }
    }
}

/// The contents of one side that the other lacks.
pub fn to_groups(here: &HashIndex, there: &HashIndex) -> (r: Vec<GroupOut>)
    ensures
        one_side_views(r@) == only_in(here.keys(), here@, there@),
{
    let n: usize = here.len();
    let ghost keys = here.keys();
    let mut out: Vec<GroupOut> = Vec::new();
    let mut i: usize = 0;
    assert(one_side_views(out@) =~= only_in(keys.take(0), here@, there@));
    while i < n
        invariant
            n == keys.len(),
            i <= n,
            keys == here.keys(),
            one_side_views(out@) == only_in(keys.take(i as int), here@, there@),
        decreases n - i,
    {
        let key: &PairKey = here.key_at(i);
        let list: &PathList = here.value_at(i);
        proof {
            assert(keys.take(i + 1).drop_last() =~= keys.take(i as int));
            assert(keys.take(i + 1).last() == key@);
        }
        if !there.contains(key) {
            let g: GroupOut = GroupOut {
                algo: key.first.clone(),
                hash: key.second.clone(),
                files: copy_texts(&list.paths),
            };
            assert(one_side_views(out@.push(g)) =~= one_side_views(out@).push(g@));
            out.push(g);
        }
        i += 1;
    }
    assert(keys.take(n as int) =~= keys);
    out
}

/// The contents that both sides have.
pub fn to_common(here: &HashIndex, there: &HashIndex) -> (r: Vec<CommonOut>)
    ensures
        both_sides_views(r@) == in_both(here.keys(), here@, there@),
{
    let n: usize = here.len();
    let ghost keys = here.keys();
    let mut out: Vec<CommonOut> = Vec::new();
    let mut i: usize = 0;
    assert(both_sides_views(out@) =~= in_both(keys.take(0), here@, there@));
    while i < n
        invariant
            n == keys.len(),
            i <= n,
            keys == here.keys(),
            both_sides_views(out@) == in_both(keys.take(i as int), here@, there@),
        decreases n - i,
    {
        let key: &PairKey = here.key_at(i);
        let list: &PathList = here.value_at(i);
        proof {
            assert(keys.take(i + 1).drop_last() =~= keys.take(i as int));
            assert(keys.take(i + 1).last() == key@);
        }
        if let Some(other) = there.get(key) {
            let g: CommonOut = CommonOut {
                algo: key.first.clone(),
                hash: key.second.clone(),
                path1_files: copy_texts(&list.paths),
                path2_files: copy_texts(&other.paths),
            };
            assert(both_sides_views(out@.push(g)) =~= both_sides_views(out@).push(g@));
            out.push(g);
        }
        i += 1;
    }
    assert(keys.take(n as int) =~= keys);
    out
}

/// A file and its hash.
#[derive(Debug)]
pub struct FileLine {
    pub file: String,
    pub hash: String,
}

impl View for FileLine {
    type V = (Seq<char>, Seq<char>);

    open spec fn view(&self) -> (Seq<char>, Seq<char>) {
        (self.file@, self.hash@)
    }
}

pub open spec fn file_line_views(v: Seq<FileLine>) -> Seq<(Seq<char>, Seq<char>)> {
    v.map_values(|l: FileLine| l@)
}

/// The files of some contents, each with its hash.
pub open spec fn flat_files(groups: Seq<OneSide>) -> Seq<(Seq<char>, Seq<char>)>
    decreases groups.len(),
{
    if groups.len() == 0 {
        Seq::empty()
    } else {
        let g = groups.last();
        flat_files(groups.drop_last()) + g.files.map_values(|f: Seq<char>| (f, g.hash))
    }
}

/// The files of some lines.
pub open spec fn line_files(lines: Seq<(Seq<char>, Seq<char>)>) -> Seq<Seq<char>> {
    lines.map_values(|l: (Seq<char>, Seq<char>)| l.0)
}

/// The files of some contents by path, each with its hash.
pub open spec fn files_by_path(groups: Seq<OneSide>) -> Seq<(Seq<char>, Seq<char>)> {
    stable_sorted(text_keys(line_files(flat_files(groups))), flat_files(groups))
}

/// The files of some contents, each with its hash.
fn flatten(groups: &Vec<GroupOut>) -> (r: Vec<FileLine>)
    ensures
        file_line_views(r@) == flat_files(one_side_views(groups@)),
{
    let ghost gv = one_side_views(groups@);
    let mut out: Vec<FileLine> = Vec::new();
    let mut i: usize = 0;
    assert(file_line_views(out@) =~= flat_files(gv.take(0)));
    while i < groups.len()
        invariant
            i <= groups@.len(),
            gv == one_side_views(groups@),
            file_line_views(out@) == flat_files(gv.take(i as int)),
        decreases groups@.len() - i,
    {
        let g: &GroupOut = &groups[i];
        let ghost before = file_line_views(out@);
        let ghost add = g@.files.map_values(|f: Seq<char>| (f, g@.hash));
        proof {
            assert(gv.take(i + 1).drop_last() =~= gv.take(i as int));
            assert(gv.take(i + 1).last() == g@);
        }
        let mut j: usize = 0;
        assert(before + add.take(0) =~= before);
        while j < g.files.len()
            invariant
                j <= g.files@.len(),
                add == g@.files.map_values(|f: Seq<char>| (f, g@.hash)),
                add.len() == g.files@.len(),
                file_line_views(out@) == before + add.take(j as int),
            decreases g.files@.len() - j,
        {
            let l: FileLine = FileLine { file: g.files[j].clone(), hash: g.hash.clone() };
            proof {
                assert(g@.files[j as int] == g.files@[j as int]@);
                assert(add[j as int] == l@);
                assert(file_line_views(out@.push(l)) =~= file_line_views(out@).push(l@));
                assert(before + add.take(j + 1) =~= (before + add.take(j as int)).push(l@));
            }
            out.push(l);
            j += 1;
        }
        assert(add.take(add.len() as int) =~= add);
        i += 1;
    }
    assert(gv.take(gv.len() as int) =~= gv);
    out
}

/// The files of some contents by path, each with its hash.
pub fn sorted_files(groups: &Vec<GroupOut>) -> (r: Vec<FileLine>)
    ensures
        file_line_views(r@) == files_by_path(one_side_views(groups@)),
        r@.len() == flat_files(one_side_views(groups@)).len(),
{
    let lines: Vec<FileLine> = flatten(groups);
    let ghost lv = file_line_views(lines@);
    let mut names: Vec<String> = Vec::new();
    let mut i: usize = 0;
    while i < lines.len()
        invariant
            i <= lines@.len(),
            names@.len() == i,
            forall|k: int| 0 <= k < i ==> (#[trigger] names@[k])@ == lines@[k].file@,
        decreases lines@.len() - i,
    {
        names.push(lines[i].file.clone());
        i += 1;
    }
    assert(views(names@) =~= line_files(lv));
    let order: Vec<usize> = text_order(&names);
    let mut out: Vec<FileLine> = Vec::new();
    let mut j: usize = 0;
    while j < order.len()
        invariant
            j <= order@.len(),
            lv == file_line_views(lines@),
            order@.len() == lines@.len(),
            is_stable_order(text_keys(line_files(lv)), order@),
            out@.len() == j,
            forall|k: int| 0 <= k < j ==> (#[trigger] out@[k])@ == lv[order@[k] as int],
        decreases order@.len() - j,
    {
        let p: usize = order[j];
        assert(lv[p as int] == lines@[p as int]@);
        out.push(FileLine { file: lines[p].file.clone(), hash: lines[p].hash.clone() });
        j += 1;
    }
    proof {
        lemma_stable_sorted(text_keys(line_files(lv)), lv, order@, file_line_views(out@));
    }
    out
}

/// The number of files of some contents together.
pub fn file_total(groups: &Vec<GroupOut>) -> (r: usize)
    ensures
        r == flat_files(one_side_views(groups@)).len(),
{
    let lines: Vec<FileLine> = flatten(groups);
    assert(file_line_views(lines@).len() == lines@.len());
    lines.len()
}

/// What two trees have in common and what they do not.
#[derive(Debug)]
pub struct Diff {
    pub only1: Vec<GroupOut>,
    pub only2: Vec<GroupOut>,
    pub common: Vec<CommonOut>,
    /// The number of files of `only1`.
    pub files1: usize,
    /// The number of files of `only2`.
    pub files2: usize,
}

/// Compares two inventories by content.
pub fn diff(records1: &Vec<InventoryRecord>, records2: &Vec<InventoryRecord>) -> (r: Diff)
    ensures
        one_side_views(r.only1@) == unique_to(record_views(records1@), record_views(records2@)),
        one_side_views(r.only2@) == unique_to(record_views(records2@), record_views(records1@)),
        both_sides_views(r.common@) == shared_by(record_views(records1@), record_views(records2@)),
        r.files1 == flat_files(one_side_views(r.only1@)).len(),
        r.files2 == flat_files(one_side_views(r.only2@)).len(),
{
    let m1: HashIndex = collect(records1);
    let m2: HashIndex = collect(records2);
    let n1: usize = m1.len();
    let n2: usize = m2.len();
    proof {
        lemma_lists_contents(m1.keys(), record_views(records1@), m1@);
        lemma_lists_contents(m2.keys(), record_views(records2@), m2@);
    }
    let only1: Vec<GroupOut> = to_groups(&m1, &m2);
    let only2: Vec<GroupOut> = to_groups(&m2, &m1);
    let common: Vec<CommonOut> = to_common(&m1, &m2);
    let files1: usize = file_total(&only1);
    let files2: usize = file_total(&only2);
    Diff { only1, only2, common, files1, files2 }
}

/// The contents of some records, in order, each once.
pub open spec fn contents_of(records: Seq<RecordView>) -> Seq<(Seq<char>, Seq<char>)> {
    members::<PairKey>(content_keys(records))
}

/// The contents of the first records that the second lack.
pub open spec fn unique_to(a: Seq<RecordView>, b: Seq<RecordView>) -> Seq<OneSide> {
    only_in(contents_of(a), index_of(a), index_of(b))
}

/// The contents that both have.
pub open spec fn shared_by(a: Seq<RecordView>, b: Seq<RecordView>) -> Seq<BothSides> {
    in_both(contents_of(a), index_of(a), index_of(b))
}

proof fn lemma_lists_contents(
    keys: Seq<(Seq<char>, Seq<char>)>,
    records: Seq<RecordView>,
    map: Map<(Seq<char>, Seq<char>), Seq<Seq<char>>>,
)
    requires
        in_order::<PairKey>(keys),
        map == index_of(records),
        forall|k: (Seq<char>, Seq<char>)| #[trigger]
            map.dom().contains(k) <==> keys.contains(k),
    ensures
        keys == contents_of(records),
{
    assert forall|k: (Seq<char>, Seq<char>)| keys.contains(k) <==> content_keys(records).contains(
        k,
    ) by {
        assert(map.dom().contains(k) <==> keys.contains(k));
    }
    law_members_are_listed::<PairKey>(content_keys(records));
    law_lists_in_order_are_sets::<PairKey>(keys, contents_of(records));
}

/// No algorithm of one tree occurs in the other, though both have files: then
/// everything differs.
pub open spec fn algos_apart(keys1: Seq<(Seq<char>, Seq<char>)>, keys2: Seq<(Seq<char>, Seq<char>)>) -> bool {
    &&& keys1.len() > 0
    &&& keys2.len() > 0
    &&& forall|i: int, j: int|
        0 <= i < keys1.len() && 0 <= j < keys2.len() ==> (#[trigger] keys1[i]).0 != (
        #[trigger] keys2[j]).0
}

/// Whether two trees share no algorithm, though both have files.
pub fn algorithms_differ(m1: &HashIndex, m2: &HashIndex) -> (r: bool)
    ensures
        r == algos_apart(m1.keys(), m2.keys()),
{
    let n1: usize = m1.len();
    let n2: usize = m2.len();
    if n1 == 0 || n2 == 0 {
        return false;
    }
    let mut i: usize = 0;
    while i < n1
        invariant
            n1 == m1.keys().len(),
            n2 == m2.keys().len(),
            i <= n1,
            forall|a: int, b: int|
                0 <= a < i && 0 <= b < n2 ==> (#[trigger] m1.keys()[a]).0 != (
                #[trigger] m2.keys()[b]).0,
        decreases n1 - i,
    {
        let a: &PairKey = m1.key_at(i);
        let mut j: usize = 0;
        while j < n2
            invariant
                n1 == m1.keys().len(),
                n2 == m2.keys().len(),
                i < n1,
                j <= n2,
                a@ == m1.keys()[i as int],
                forall|b: int| 0 <= b < j ==> m1.keys()[i as int].0 != (#[trigger] m2.keys()[b]).0,
            decreases n2 - j,
        {
            let b: &PairKey = m2.key_at(j);
            if text_eq(a.first.as_str(), b.first.as_str()) {
                assert(m1.keys()[i as int].0 == m2.keys()[j as int].0);
                return false;
            }
            j += 1;
        }
        i += 1;
    }
    true
}

/// The algorithms of a tree, in alphabetical order, each once.
pub fn algorithms(m: &HashIndex) -> (r: TextSet)
    ensures
        forall|a: Seq<char>|
            #![trigger r@.contains(a)]
            r@.contains(a) <==> exists|i: int| 0 <= i < m.keys().len() && (#[trigger] m.keys()[i]).0 == a,
{
    let n: usize = m.len();
    let mut out: TextSet = TextSet::new();
    let mut i: usize = 0;
    while i < n
        invariant
            n == m.keys().len(),
            i <= n,
            forall|a: Seq<char>|
                #![trigger out@.contains(a)]
                out@.contains(a) <==> exists|k: int| 0 <= k < i && (#[trigger] m.keys()[k]).0 == a,
        decreases n - i,
    {
        let key: &PairKey = m.key_at(i);
        let ghost before = out@;
        let _ = out.insert(key.first.clone());
        proof {
            assert forall|a: Seq<char>|
                #![trigger out@.contains(a)]
                out@.contains(a) <==> exists|k: int| 0 <= k < i + 1 && (#[trigger] m.keys()[k]).0 == a by {
                if before.contains(a) {
                    let k = choose|k: int| 0 <= k < i && (#[trigger] m.keys()[k]).0 == a;
                    assert(m.keys()[k].0 == a);
                }
                assert(m.keys()[i as int].0 == key.first@);
                if exists|k: int| 0 <= k < i + 1 && (#[trigger] m.keys()[k]).0 == a {
                    let k = choose|k: int| 0 <= k < i + 1 && (#[trigger] m.keys()[k]).0 == a;
                    if k < i {
                        assert(before.contains(a));
                    }
                }
            }
        }
        i += 1;
    }
    out
}

// ---- lines -----------------------------------------------------------------

/// `before`, the file, `between`, the short hash, `after`, for each file.
pub open spec fn file_rows(
    lines: Seq<(Seq<char>, Seq<char>)>,
    before: Seq<char>,
    between: Seq<char>,
    after: Seq<char>,
) -> Seq<Seq<char>> {
    lines.map_values(
        |l: (Seq<char>, Seq<char>)| before + l.0 + between + within_bytes(l.1, 12) + after,
    )
}

/// The heading of one side.
pub open spec fn side_heading(path: Seq<char>, hashes: nat, files: nat) -> Seq<char> {
    "Only in "@ + path + "  ("@ + decimal(hashes) + " "@ + hashes_noun(hashes) + ", "@ + decimal(
        files,
    ) + " "@ + files_noun(files) + "):"@
}

/// The section of one side.
pub open spec fn side_rows(path: Seq<char>, groups: Seq<OneSide>) -> Seq<Seq<char>> {
    seq![side_heading(path, groups.len(), flat_files(groups).len())] + file_rows(
        files_by_path(groups),
        "  "@,
        "   ["@,
        "]"@,
    )
}

/// The first of some files, or nothing.
pub open spec fn first_file(files: Seq<Seq<char>>) -> Seq<char> {
    if files.len() > 0 {
        files[0]
    } else {
        Seq::empty()
    }
}

/// The row of a common content, with one file of each side.
pub open spec fn pair_row(c: BothSides) -> Seq<char> {
    "  ["@ + within_bytes(c.hash, 12) + "]  "@ + first_file(c.files1) + "  <=>  "@ + first_file(
        c.files2,
    )
}

/// The row of a common content, with the number of files of each side.
pub open spec fn count_row(c: BothSides) -> Seq<char> {
    "= "@ + within_bytes(c.hash, 12) + "   "@ + decimal(c.files1.len()) + "|"@ + decimal(
        c.files2.len(),
    )
}

/// The section of the common contents.
pub open spec fn common_section(common: Seq<BothSides>) -> Seq<Seq<char>> {
    seq![
        Seq::<char>::empty(),
        "In both  ("@ + decimal(common.len()) + " "@ + hashes_noun(common.len()) + "):"@,
    ] + common.map_values(|c: BothSides| pair_row(c))
}

/// The grouped report.
pub open spec fn grouped_report(
    path1: Seq<char>,
    path2: Seq<char>,
    only1: Seq<OneSide>,
    only2: Seq<OneSide>,
    common: Seq<BothSides>,
    show_common: bool,
) -> Seq<Seq<char>> {
    side_rows(path1, only1) + seq![Seq::<char>::empty()] + side_rows(path2, only2) + (
    if show_common {
        common_section(common)
    } else {
        Seq::empty()
    }) + seq![
        Seq::<char>::empty(),
        "summary: <-only "@ + decimal(only1.len()) + "  >-only "@ + decimal(only2.len())
            + "  common "@ + decimal(common.len()),
    ]
}

/// The unified report.
pub open spec fn unified_report(
    only1: Seq<OneSide>,
    only2: Seq<OneSide>,
    common: Seq<BothSides>,
    show_common: bool,
) -> Seq<Seq<char>> {
    file_rows(files_by_path(only1), "- "@, "   "@, ""@) + file_rows(
        files_by_path(only2),
        "+ "@,
        "   "@,
        ""@,
    ) + (if show_common {
        common.map_values(|c: BothSides| count_row(c))
    } else {
        Seq::empty()
    }) + seq![
        Seq::<char>::empty(),
        "summary: "@ + decimal(flat_files(only1).len()) + " removed, "@ + decimal(
            flat_files(only2).len(),
        ) + " added, "@ + decimal(common.len()) + " common"@,
    ]
}

/// One side of the summary.
pub open spec fn summary_row(label: Seq<char>, path: Seq<char>, groups: Seq<OneSide>) -> Seq<char> {
    label + " ("@ + path + "):  only "@ + decimal(groups.len()) + " "@ + hashes_noun(groups.len())
        + " / "@ + decimal(flat_files(groups).len()) + " "@ + files_noun(flat_files(groups).len())
}

/// The summary.
pub open spec fn summary_report(
    path1: Seq<char>,
    path2: Seq<char>,
    only1: Seq<OneSide>,
    only2: Seq<OneSide>,
    common: Seq<BothSides>,
) -> Seq<Seq<char>> {
    seq![
        summary_row("path1"@, path1, only1),
        summary_row("path2"@, path2, only2),
        "common:      "@ + decimal(common.len()) + " "@ + hashes_noun(common.len()),
    ]
}

/// A text made of several.
fn text5(a: &str, b: &str, c: &str, d: &str, e: &str) -> (r: String)
    ensures
        r@ == a@ + b@ + c@ + d@ + e@,
{
    let mut out: String = a.to_owned();
    out.append(b);
    out.append(c);
    out.append(d);
    out.append(e);
    out
}

fn file_rows_of(lines: &Vec<FileLine>, before: &str, between: &str, after: &str) -> (r: Vec<String>)
    ensures
        views(r@) == file_rows(file_line_views(lines@), before@, between@, after@),
{
    let mut out: Vec<String> = Vec::new();
    let ghost rows = file_rows(file_line_views(lines@), before@, between@, after@);
    let mut i: usize = 0;
    while i < lines.len()
        invariant
            i <= lines@.len(),
            rows == file_rows(file_line_views(lines@), before@, between@, after@),
            out@.len() == i,
            forall|k: int| 0 <= k < i ==> (#[trigger] out@[k])@ == rows[k],
        decreases lines@.len() - i,
    {
        let l: &FileLine = &lines[i];
        let h: String = short(l.hash.as_str());
        let row: String = text5(before, l.file.as_str(), between, h.as_str(), after);
        assert(rows[i as int] == row@);
        out.push(row);
        i += 1;
    }
    assert(views(out@) =~= rows);
    out
}

/// The section of one side.
pub fn print_side(path: &str, groups: &Vec<GroupOut>) -> (r: Vec<String>)
    ensures
        views(r@) == side_rows(path@, one_side_views(groups@)),
{
    let lines: Vec<FileLine> = sorted_files(groups);
    let hashes: usize = groups.len();
    let files: usize = lines.len();
    let mut head: String = text5("Only in ", path, "  (", usize_text(hashes).as_str(), " ");
    head.append(hashes_word(hashes));
    head.append(", ");
    head.append(usize_text(files).as_str());
    head.append(" ");
    head.append(files_word(files));
    head.append("):");
    let ghost gv = one_side_views(groups@);
    assert(head@ =~= side_heading(path@, gv.len(), flat_files(gv).len()));
    let mut out: Vec<String> = Vec::new();
    out.push(head);
    let mut rows: Vec<String> = file_rows_of(&lines, "  ", "   [", "]");
    let ghost rv = views(rows@);
    let ghost rs = rows@;
    out.append(&mut rows);
    assert(views(out@) =~= seq![head@] + views(rs));
    out
}

fn pair_rows(common: &Vec<CommonOut>) -> (r: Vec<String>)
    ensures
        views(r@) == both_sides_views(common@).map_values(|c: BothSides| pair_row(c)),
{
    let mut out: Vec<String> = Vec::new();
    let mut i: usize = 0;
    while i < common.len()
        invariant
            i <= common@.len(),
            out@.len() == i,
            forall|k: int| 0 <= k < i ==> (#[trigger] out@[k])@ == pair_row(common@[k]@),
        decreases common@.len() - i,
    {
        let c: &CommonOut = &common[i];
        let h: String = short(c.hash.as_str());
        let a: String = first_of_list(&c.path1_files);
        let b: String = first_of_list(&c.path2_files);
        let mut row: String = text5("  [", h.as_str(), "]  ", a.as_str(), "  <=>  ");
        row.append(b.as_str());
        out.push(row);
        i += 1;
    }
    assert(views(out@) =~= both_sides_views(common@).map_values(|c: BothSides| pair_row(c)));
    out
}

fn first_of_list(files: &Vec<String>) -> (r: String)
    ensures
        r@ == first_file(views(files@)),
{
    if files.len() > 0 {
        files[0].clone()
    } else {
        let none: String = String::new();
        assert(none@ =~= Seq::<char>::empty());
        none
    }
}

fn count_rows(common: &Vec<CommonOut>) -> (r: Vec<String>)
    ensures
        views(r@) == both_sides_views(common@).map_values(|c: BothSides| count_row(c)),
{
    let mut out: Vec<String> = Vec::new();
    let mut i: usize = 0;
    while i < common.len()
        invariant
            i <= common@.len(),
            out@.len() == i,
            forall|k: int| 0 <= k < i ==> (#[trigger] out@[k])@ == count_row(common@[k]@),
        decreases common@.len() - i,
    {
        let c: &CommonOut = &common[i];
        let h: String = short(c.hash.as_str());
        let mut row: String = text5(
            "= ",
            h.as_str(),
            "   ",
            usize_text(c.path1_files.len()).as_str(),
            "|",
        );
        row.append(usize_text(c.path2_files.len()).as_str());
        out.push(row);
        i += 1;
    }
    assert(views(out@) =~= both_sides_views(common@).map_values(|c: BothSides| count_row(c)));
    out
}

/// A blank line.
fn blank() -> (r: String)
    ensures
        r@ == Seq::<char>::empty(),
{
    let none: String = String::new();
    assert(none@ =~= Seq::<char>::empty());
    none
}

impl Diff {
    /// The report in two sections.
    pub fn grouped_lines(&self, path1: &str, path2: &str, show_common: bool) -> (r: Vec<String>)
        ensures
            views(r@) == grouped_report(
                path1@,
                path2@,
                one_side_views(self.only1@),
                one_side_views(self.only2@),
                both_sides_views(self.common@),
                show_common,
            ),
    {
        let ghost o1 = one_side_views(self.only1@);
        let ghost o2 = one_side_views(self.only2@);
        let ghost cv = both_sides_views(self.common@);
        let mut out: Vec<String> = print_side(path1, &self.only1);
        let ghost a = out@;
        out.push(blank());
        let mut second: Vec<String> = print_side(path2, &self.only2);
        let ghost b = second@;
        out.append(&mut second);
        assert(views(out@) =~= views(a) + seq![Seq::<char>::empty()] + views(b));
        let ghost sides = out@;
        let n: usize = self.common.len();
        if show_common {
            let head: String = text5("In both  (", usize_text(n).as_str(), " ", hashes_word(n), "):");
            out.push(blank());
            out.push(head);
            let mut rows: Vec<String> = pair_rows(&self.common);
            let ghost rs = rows@;
            out.append(&mut rows);
            assert(views(out@) =~= views(sides) + (seq![Seq::<char>::empty(), head@] + views(rs)));
            assert(views(out@) == views(sides) + common_section(cv));
        } else {
            assert(views(out@) =~= views(sides) + Seq::<Seq<char>>::empty());
        }
        let ghost so_far = out@;
        let mut last: String = text5(
            "summary: <-only ",
            usize_text(self.only1.len()).as_str(),
            "  >-only ",
            usize_text(self.only2.len()).as_str(),
            "  common ",
        );
        last.append(usize_text(n).as_str());
        out.push(blank());
        out.push(last);
        assert(views(out@) =~= views(so_far) + seq![Seq::<char>::empty(), last@]);
        out
    }

    /// The report as one stream.
    pub fn unified_lines(&self, show_common: bool) -> (r: Vec<String>)
        ensures
            views(r@) == unified_report(
                one_side_views(self.only1@),
                one_side_views(self.only2@),
                both_sides_views(self.common@),
                show_common,
            ),
    {
        let minus: Vec<FileLine> = sorted_files(&self.only1);
        let plus: Vec<FileLine> = sorted_files(&self.only2);
        let mut out: Vec<String> = file_rows_of(&minus, "- ", "   ", "");
        let mut more: Vec<String> = file_rows_of(&plus, "+ ", "   ", "");
        let ghost a = out@;
        let ghost b = more@;
        out.append(&mut more);
        assert(views(out@) =~= views(a) + views(b));
        let ghost sides = out@;
        if show_common {
            let mut rows: Vec<String> = count_rows(&self.common);
            let ghost rs = rows@;
            out.append(&mut rows);
            assert(views(out@) =~= views(sides) + views(rs));
        } else {
            assert(views(out@) =~= views(sides) + Seq::<Seq<char>>::empty());
        }
        let ghost so_far = out@;
        let mut last: String = text5(
            "summary: ",
            usize_text(minus.len()).as_str(),
            " removed, ",
            usize_text(plus.len()).as_str(),
            " added, ",
        );
        last.append(usize_text(self.common.len()).as_str());
        last.append(" common");
        out.push(blank());
        out.push(last);
        assert(views(out@) =~= views(so_far) + seq![Seq::<char>::empty(), last@]);
        out
    }

    /// The counts.
    pub fn summary_lines(&self, path1: &str, path2: &str) -> (r: Vec<String>)
        ensures
            views(r@) == summary_report(
                path1@,
                path2@,
                one_side_views(self.only1@),
                one_side_views(self.only2@),
                both_sides_views(self.common@),
            ),
    {
        let n: usize = self.common.len();
        let mut out: Vec<String> = Vec::new();
        let a: String = summary_line("path1", path1, &self.only1);
        let b: String = summary_line("path2", path2, &self.only2);
        let c: String = text5("common:      ", usize_text(n).as_str(), " ", hashes_word(n), "");
        proof {
            reveal_strlit("");
            let cv = both_sides_views(self.common@);
            assert(c@ =~= "common:      "@ + decimal(cv.len()) + " "@ + hashes_noun(cv.len()));
        }
        out.push(a);
        out.push(b);
        out.push(c);
        assert(views(out@) =~= seq![a@, b@, c@]);
        out
    }
}

fn summary_line(label: &str, path: &str, groups: &Vec<GroupOut>) -> (r: String)
    ensures
        r@ == summary_row(label@, path@, one_side_views(groups@)),
{
    let hashes: usize = groups.len();
    let files: usize = file_total(groups);
    let mut out: String = text5(label, " (", path, "):  only ", usize_text(hashes).as_str());
    out.append(" ");
    out.append(hashes_word(hashes));
    out.append(" / ");
    out.append(usize_text(files).as_str());
    out.append(" ");
    out.append(files_word(files));
    out
}

// ---- laws ------------------------------------------------------------------

/// A content that only one side has is in its index and not in that of the other.
pub proof fn law_unique_content_is_on_one_side(
    keys: Seq<(Seq<char>, Seq<char>)>,
    here: Map<(Seq<char>, Seq<char>), Seq<Seq<char>>>,
    there: Map<(Seq<char>, Seq<char>), Seq<Seq<char>>>,
    i: int,
)
    requires
        0 <= i < only_in(keys, here, there).len(),
    ensures
        ({
            let g = only_in(keys, here, there)[i];
            &&& keys.contains((g.algo, g.hash))
            &&& !there.dom().contains((g.algo, g.hash))
            &&& g.files == here[(g.algo, g.hash)]
        }),
    decreases keys.len(),
{
    let init = keys.drop_last();
    if i < only_in(init, here, there).len() {
        law_unique_content_is_on_one_side(init, here, there, i);
        let g = only_in(init, here, there)[i];
        let x = choose|x: int| 0 <= x < init.len() && init[x] == (g.algo, g.hash);
        assert(keys[x] == (g.algo, g.hash));
    } else {
        assert(keys[keys.len() - 1] == keys.last());
    }
}

/// Every content of a tree is either unique to it or common to both: the two
/// lists together are as long as the list of its contents.
pub proof fn law_contents_are_unique_or_common(
    keys: Seq<(Seq<char>, Seq<char>)>,
    here: Map<(Seq<char>, Seq<char>), Seq<Seq<char>>>,
    there: Map<(Seq<char>, Seq<char>), Seq<Seq<char>>>,
)
    ensures
        only_in(keys, here, there).len() + in_both(keys, here, there).len() == keys.len(),
    decreases keys.len(),
{
    if keys.len() > 0 {
        law_contents_are_unique_or_common(keys.drop_last(), here, there);
    }
}

/// A tree does not differ from itself.
pub proof fn law_no_difference_to_itself(records: Seq<RecordView>)
    ensures
        unique_to(records, records).len() == 0,
{
    law_members_are_listed::<PairKey>(content_keys(records));
    assert forall|k: (Seq<char>, Seq<char>)| contents_of(records).contains(k) implies index_of(
        records,
    ).dom().contains(k) by {
        assert(content_keys(records).contains(k));
    }
    lemma_nothing_only_here(contents_of(records), index_of(records));
}

proof fn lemma_nothing_only_here(
    keys: Seq<(Seq<char>, Seq<char>)>,
    here: Map<(Seq<char>, Seq<char>), Seq<Seq<char>>>,
)
    requires
        forall|k: (Seq<char>, Seq<char>)| keys.contains(k) ==> here.dom().contains(k),
    ensures
        only_in(keys, here, here).len() == 0,
    decreases keys.len(),
{
    if keys.len() > 0 {
        let init = keys.drop_last();
        assert(keys.contains(keys[keys.len() - 1]));
        assert forall|k: (Seq<char>, Seq<char>)| init.contains(k) implies here.dom().contains(k) by {
            let x = choose|x: int| 0 <= x < init.len() && init[x] == k;
            assert(keys[x] == k);
            assert(keys.contains(k));
        }
        lemma_nothing_only_here(init, here);
    }
}

/// Trees are compared by content: one is unique to the first exactly where a file of
/// the first has it and none of the second, by algorithm and hash, wherever the files
/// are; it is common exactly where files of both have it.
pub proof fn law_trees_are_compared_by_content(
    a: Seq<RecordView>,
    b: Seq<RecordView>,
    algo: Seq<char>,
    hash: Seq<char>,
)
    ensures
        ({
            let here = exists|i: int|
                0 <= i < a.len() && (#[trigger] a[i]).algo == algo && a[i].hash == hash;
            let there = exists|j: int|
                0 <= j < b.len() && (#[trigger] b[j]).algo == algo && b[j].hash == hash;
            &&& (exists|g: int|
                0 <= g < unique_to(a, b).len() && (#[trigger] unique_to(a, b)[g]).algo == algo
                    && unique_to(a, b)[g].hash == hash) <==> here && !there
            &&& (exists|g: int|
                0 <= g < shared_by(a, b).len() && (#[trigger] shared_by(a, b)[g]).algo == algo
                    && shared_by(a, b)[g].hash == hash) <==> here && there
        }),
{
    let k = (algo, hash);
    let (keys, ia, ib) = (contents_of(a), index_of(a), index_of(b));
    law_members_are_listed::<PairKey>(content_keys(a));
    lemma_sides(keys, ia, ib, k);
    assert(keys.contains(k) <==> content_keys(a).contains(k));
    lemma_content_keys(a, k);
    lemma_content_keys(b, k);
    assert(ib.dom().contains(k) <==> content_keys(b).contains(k));
    assert(unique_to(a, b) == only_in(keys, ia, ib));
    assert(shared_by(a, b) == in_both(keys, ia, ib));
}

proof fn lemma_content_keys(records: Seq<RecordView>, k: (Seq<char>, Seq<char>))
    ensures
        content_keys(records).contains(k) <==> exists|i: int|
            0 <= i < records.len() && (#[trigger] records[i]).algo == k.0 && records[i].hash == k.1,
{
    let all = content_keys(records);
    if all.contains(k) {
        let i = choose|i: int| 0 <= i < all.len() && all[i] == k;
        assert(records[i].algo == k.0 && records[i].hash == k.1);
    }
    if exists|i: int|
        0 <= i < records.len() && (#[trigger] records[i]).algo == k.0 && records[i].hash == k.1 {
        let i = choose|i: int|
            0 <= i < records.len() && (#[trigger] records[i]).algo == k.0 && records[i].hash == k.1;
        assert(all[i] == k);
    }
}

proof fn lemma_sides(
    keys: Seq<(Seq<char>, Seq<char>)>,
    here: Map<(Seq<char>, Seq<char>), Seq<Seq<char>>>,
    there: Map<(Seq<char>, Seq<char>), Seq<Seq<char>>>,
    k: (Seq<char>, Seq<char>),
)
    ensures
        (exists|g: int|
            0 <= g < only_in(keys, here, there).len() && (#[trigger] only_in(
                keys,
                here,
                there,
            )[g]).algo == k.0 && only_in(keys, here, there)[g].hash == k.1) <==> keys.contains(k)
            && !there.dom().contains(k),
        (exists|g: int|
            0 <= g < in_both(keys, here, there).len() && (#[trigger] in_both(
                keys,
                here,
                there,
            )[g]).algo == k.0 && in_both(keys, here, there)[g].hash == k.1) <==> keys.contains(k)
            && there.dom().contains(k),
    decreases keys.len(),
{
    let (one, two) = (only_in(keys, here, there), in_both(keys, here, there));
    if keys.len() > 0 {
        let init = keys.drop_last();
        let (one0, two0) = (only_in(init, here, there), in_both(init, here, there));
        lemma_sides(init, here, there, k);
        if keys.contains(k) {
            let x = choose|x: int| 0 <= x < keys.len() && keys[x] == k;
            if x < init.len() {
                assert(init[x] == k);
                if there.dom().contains(k) {
                    let g = choose|g: int|
                        0 <= g < two0.len() && (#[trigger] two0[g]).algo == k.0 && two0[g].hash
                            == k.1;
                    assert(two[g] == two0[g]);
                } else {
                    let g = choose|g: int|
                        0 <= g < one0.len() && (#[trigger] one0[g]).algo == k.0 && one0[g].hash
                            == k.1;
                    assert(one[g] == one0[g]);
                }
            } else if there.dom().contains(k) {
                assert(two[two0.len() as int].algo == k.0 && two[two0.len() as int].hash == k.1);
            } else {
                assert(one[one0.len() as int].algo == k.0 && one[one0.len() as int].hash == k.1);
            }
        }
        if init.contains(k) {
            let x = choose|x: int| 0 <= x < init.len() && init[x] == k;
            assert(keys[x] == k);
        }
        assert(keys[keys.len() - 1] == keys.last());
        if exists|g: int| 0 <= g < one.len() && (#[trigger] one[g]).algo == k.0 && one[g].hash
            == k.1 {
            let g = choose|g: int|
                0 <= g < one.len() && (#[trigger] one[g]).algo == k.0 && one[g].hash == k.1;
            if g < one0.len() {
                assert(one0[g].algo == k.0);
            }
        }
        if exists|g: int| 0 <= g < two.len() && (#[trigger] two[g]).algo == k.0 && two[g].hash
            == k.1 {
            let g = choose|g: int|
                0 <= g < two.len() && (#[trigger] two[g]).algo == k.0 && two[g].hash == k.1;
            if g < two0.len() {
                assert(two0[g].algo == k.0);
            }
        }
    }
}

/// The files that a tree has of a content are those whose records have its algorithm
/// and hash, in the order of their paths.
pub proof fn law_content_has_its_files(
    records: Seq<RecordView>,
    k: (Seq<char>, Seq<char>),
    path: Seq<char>,
)
    requires
        records.len() <= usize::MAX,
        content_keys(records).contains(k),
    ensures
        index_of(records).dom().contains(k),
        index_of(records)[k].contains(path) <==> exists|i: int|
            0 <= i < records.len() && (#[trigger] records[i]).path == path && records[i].algo == k.0
                && records[i].hash == k.1,
        forall|i: int, j: int|
            0 <= i < j < index_of(records)[k].len() ==> !text_lt(
                #[trigger] index_of(records)[k][j],
                #[trigger] index_of(records)[k][i],
            ),
{
    let all = content_keys(records);
    let at = places_of(all, k);
    lemma_places(all, k);
    let paths = record_paths(at_places(records, at));
    let files = index_of(records)[k];
    assert(files == sorted_texts(paths));
    law_sorting_keeps_the_items(text_keys(paths), paths, path);
    if paths.contains(path) {
        let x = choose|x: int| 0 <= x < paths.len() && paths[x] == path;
        assert(all[at[x] as int] == k);
        assert(records[at[x] as int].path == path);
    }
    if exists|i: int|
        0 <= i < records.len() && (#[trigger] records[i]).path == path && records[i].algo == k.0
            && records[i].hash == k.1 {
        let i = choose|i: int|
            0 <= i < records.len() && (#[trigger] records[i]).path == path && records[i].algo == k.0
                && records[i].hash == k.1;
        assert(all[i] == k);
        assert(at.contains(i as usize));
        let x = choose|x: int| 0 <= x < at.len() && at[x] == i as usize;
        assert(paths[x] == path);
    }
    assert forall|i: int, j: int| 0 <= i < j < files.len() implies !text_lt(
        #[trigger] files[j],
        #[trigger] files[i],
    ) by {
        law_sorted_texts_ascend(paths, i, j);
    }
}

/// Trees of which no file of one has an algorithm of the other are not comparable, and
/// no others are: not where one has no files, nor where they share an algorithm.
pub proof fn law_trees_without_a_common_algorithm(
    a: Seq<(Seq<char>, Seq<char>)>,
    b: Seq<(Seq<char>, Seq<char>)>,
    i: int,
    j: int,
)
    requires
        0 <= i < a.len(),
        0 <= j < b.len(),
    ensures
        a[i].0 == b[j].0 ==> !algos_apart(a, b),
        algos_apart(a, b) == algos_apart(b, a),
        !algos_apart(a, Seq::empty()),
        !algos_apart(Seq::empty(), b),
{
    if algos_apart(a, b) {
        assert(a[i].0 != b[j].0);
        assert(algos_apart(b, a));
    }
    if algos_apart(b, a) {
        assert(b[j].0 != a[i].0);
        assert(algos_apart(a, b));
    }
}

/// A file is listed on a side with its hash exactly where a content of that side has it;
/// the files are in the order of their paths.
pub proof fn law_files_are_listed_with_their_hashes(
    groups: Seq<OneSide>,
    file: Seq<char>,
    hash: Seq<char>,
    i: int,
    j: int,
)
    requires
        flat_files(groups).len() <= usize::MAX,
    ensures
        files_by_path(groups).contains((file, hash)) <==> exists|g: int|
            0 <= g < groups.len() && (#[trigger] groups[g]).hash == hash && groups[g].files.contains(
                file,
            ),
        files_by_path(groups).len() == flat_files(groups).len(),
        0 <= i < j < files_by_path(groups).len() ==> !text_lt(
            files_by_path(groups)[j].0,
            files_by_path(groups)[i].0,
        ),
{
    let flat = flat_files(groups);
    let keys = text_keys(line_files(flat));
    lemma_flat_files(groups, file, hash);
    law_sorting_keeps_the_items(keys, flat, (file, hash));
    if 0 <= i < j < flat.len() {
        law_sorted_items_ascend(keys, i, j);
    }
}

proof fn lemma_flat_files(groups: Seq<OneSide>, file: Seq<char>, hash: Seq<char>)
    ensures
        flat_files(groups).contains((file, hash)) <==> exists|g: int|
            0 <= g < groups.len() && (#[trigger] groups[g]).hash == hash && groups[g].files.contains(
                file,
            ),
    decreases groups.len(),
{
    if groups.len() > 0 {
        let init = groups.drop_last();
        let n = init.len() as int;
        let last = groups.last();
        let own = last.files.map_values(|f: Seq<char>| (f, last.hash));
        let (before, all) = (flat_files(init), flat_files(groups));
        lemma_flat_files(init, file, hash);
        assert(groups[n] == last);
        if all.contains((file, hash)) {
            let x = choose|x: int| 0 <= x < all.len() && all[x] == (file, hash);
            if x < before.len() {
                assert(before[x] == (file, hash));
                let g = choose|g: int|
                    0 <= g < init.len() && (#[trigger] init[g]).hash == hash
                        && init[g].files.contains(file);
                assert(groups[g] == init[g]);
            } else {
                assert(own[x - before.len()] == (file, hash));
                assert(last.files[x - before.len()] == file);
            }
        }
        if exists|g: int|
            0 <= g < groups.len() && (#[trigger] groups[g]).hash == hash && groups[g].files.contains(
                file,
            ) {
            let g = choose|g: int|
                0 <= g < groups.len() && (#[trigger] groups[g]).hash == hash
                    && groups[g].files.contains(file);
            if g < n {
                assert(init[g] == groups[g]);
                let x = choose|x: int| 0 <= x < before.len() && before[x] == (file, hash);
                assert(all[x] == (file, hash));
            } else {
                let x = choose|x: int| 0 <= x < last.files.len() && last.files[x] == file;
                assert(own[x] == (file, hash));
                assert(all[before.len() + x] == (file, hash));
            }
        }
    }
}

/// The unified report: a line with `-` for each file of the first side, then one with
/// `+` for each of the second, then, where they are asked for, one with `=` for each
/// common content; a blank line, and the counts.
pub proof fn law_unified_report_has_a_line_for_each_file(
    only1: Seq<OneSide>,
    only2: Seq<OneSide>,
    common: Seq<BothSides>,
    show: bool,
    i: int,
)
    ensures
        ({
            let r = unified_report(only1, only2, common, show);
            let (a, b) = (files_by_path(only1), files_by_path(only2));
            let shown = if show {
                common.len()
            } else {
                0
            };
            &&& r.len() == a.len() + b.len() + shown + 2
            &&& 0 <= i < a.len() ==> r[i] == "- "@ + a[i].0 + "   "@ + within_bytes(a[i].1, 12)
            &&& 0 <= i < b.len() ==> r[a.len() + i] == "+ "@ + b[i].0 + "   "@ + within_bytes(
                b[i].1,
                12,
            )
            &&& 0 <= i < shown ==> r[a.len() + b.len() + i] == "= "@ + within_bytes(
                common[i].hash,
                12,
            ) + "   "@ + decimal(common[i].files1.len()) + "|"@ + decimal(common[i].files2.len())
            &&& r[r.len() - 2].len() == 0
            &&& r[r.len() - 1] == "summary: "@ + decimal(a.len()) + " removed, "@ + decimal(b.len())
                + " added, "@ + decimal(common.len()) + " common"@
        }),
{
    reveal_strlit("");
    assert(""@ =~= Seq::<char>::empty());
    let (a, b) = (files_by_path(only1), files_by_path(only2));
    let (ra, rb) = (file_rows(a, "- "@, "   "@, ""@), file_rows(b, "+ "@, "   "@, ""@));
    let rc = if show {
        common.map_values(|c: BothSides| count_row(c))
    } else {
        Seq::empty()
    };
    let r = unified_report(only1, only2, common, show);
    if 0 <= i < a.len() {
        assert(r[i] == ra[i]);
        let row = "- "@ + a[i].0 + "   "@ + within_bytes(a[i].1, 12);
        assert(row + ""@ =~= row);
    }
    if 0 <= i < b.len() {
        assert(r[a.len() + i] == rb[i]);
        let row = "+ "@ + b[i].0 + "   "@ + within_bytes(b[i].1, 12);
        assert(row + ""@ =~= row);
    }
    if show && 0 <= i < common.len() {
        assert(r[a.len() + b.len() + i] == rc[i]);
    }
}

/// The section of a side: how many contents and files it has, then a line for each file
/// with its short hash.
pub proof fn law_side_has_a_heading_and_its_files(path: Seq<char>, groups: Seq<OneSide>, i: int)
    ensures
        ({
            let r = side_rows(path, groups);
            let files = files_by_path(groups);
            &&& r.len() == files.len() + 1
            &&& r[0] == "Only in "@ + path + "  ("@ + decimal(groups.len()) + " "@ + hashes_noun(
                groups.len(),
            ) + ", "@ + decimal(files.len()) + " "@ + files_noun(files.len()) + "):"@
            &&& 0 <= i < files.len() ==> r[i + 1] == "  "@ + files[i].0 + "   ["@ + within_bytes(
                files[i].1,
                12,
            ) + "]"@
        }),
{
    let files = files_by_path(groups);
    let rows = file_rows(files, "  "@, "   ["@, "]"@);
    if 0 <= i < files.len() {
        assert(side_rows(path, groups)[i + 1] == rows[i]);
    }
}

/// The grouped report: the section of the first side, a blank line, that of the second,
/// what is common where it is asked for, a blank line, and the counts of contents.
pub proof fn law_grouped_report_has_both_sides(
    path1: Seq<char>,
    path2: Seq<char>,
    only1: Seq<OneSide>,
    only2: Seq<OneSide>,
    common: Seq<BothSides>,
    show: bool,
    i: int,
)
    ensures
        ({
            let r = grouped_report(path1, path2, only1, only2, common, show);
            let (a, b) = (side_rows(path1, only1), side_rows(path2, only2));
            let shown = if show {
                common.len() + 2
            } else {
                0
            };
            &&& r.len() == a.len() + b.len() + shown + 3
            &&& 0 <= i < a.len() ==> r[i] == a[i]
            &&& r[a.len() as int].len() == 0
            &&& 0 <= i < b.len() ==> r[a.len() + 1 + i] == b[i]
            &&& show ==> r[(a.len() + b.len() + 2) as int] == "In both  ("@ + decimal(common.len()) + " "@
                + hashes_noun(common.len()) + "):"@
            &&& show && 0 <= i < common.len() ==> r[a.len() + b.len() + 3 + i] == "  ["@
                + within_bytes(common[i].hash, 12) + "]  "@ + first_file(common[i].files1)
                + "  <=>  "@ + first_file(common[i].files2)
            &&& r[r.len() - 1] == "summary: <-only "@ + decimal(only1.len()) + "  >-only "@
                + decimal(only2.len()) + "  common "@ + decimal(common.len())
        }),
{
    let r = grouped_report(path1, path2, only1, only2, common, show);
    let (a, b) = (side_rows(path1, only1), side_rows(path2, only2));
    let section = common_section(common);
    if show && 0 <= i < common.len() {
        assert(r[a.len() + b.len() + 3 + i] == section[i + 2]);
        assert(section[i + 2] == pair_row(common[i]));
    }
    if show {
        assert(r[(a.len() + b.len() + 2) as int] == section[1]);
    }
}

/// One is told from several: a hash and a file alone, hashes and files otherwise.
pub proof fn law_nouns_are_counted(n: nat)
    ensures
        n == 1 ==> hashes_noun(n) == "hash"@ && files_noun(n) == "file"@,
        n != 1 ==> hashes_noun(n) == "hashes"@ && files_noun(n) == "files"@,
{
}

/// The summary: a line for each side with its contents and files, and one for what is
/// common.
pub proof fn law_summary_counts_both_sides(
    path1: Seq<char>,
    path2: Seq<char>,
    only1: Seq<OneSide>,
    only2: Seq<OneSide>,
    common: Seq<BothSides>,
)
    ensures
        ({
            let r = summary_report(path1, path2, only1, only2, common);
            let (f1, f2) = (flat_files(only1).len(), flat_files(only2).len());
            &&& r.len() == 3
            &&& r[0] == "path1"@ + " ("@ + path1 + "):  only "@ + decimal(only1.len()) + " "@
                + hashes_noun(only1.len()) + " / "@ + decimal(f1) + " "@ + files_noun(f1)
            &&& r[1] == "path2"@ + " ("@ + path2 + "):  only "@ + decimal(only2.len()) + " "@
                + hashes_noun(only2.len()) + " / "@ + decimal(f2) + " "@ + files_noun(f2)
            &&& r[2] == "common:      "@ + decimal(common.len()) + " "@ + hashes_noun(common.len())
        }),
{
}

} // verus!
