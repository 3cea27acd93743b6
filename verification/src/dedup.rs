//! Finding duplicates and removing all copies but one.
use vstd::prelude::*;

use crate::inventory::{record_views, InventoryRecord, RecordView};
use crate::number::{decimal, law_decimal_reads_back, number_of, parse_at_most, u64_text, usize_text};
use crate::order::{
    is_stable_order, key_lt, key_views, law_sorted_items_ascend, law_stable_order_exists,
    law_stable_order_is_complete, lemma_stable_sorted, stable_order, stable_sorted, the_order,
    KeyView, SortKey,
};
use crate::pathmap::{with_paths, PathSet};
use crate::paths::{
    absolute, components, comps, is_abs, is_under, join, joined_path, parent, parent_of, under,
};
use crate::scan::DEDUP_SUFFIX;
use crate::text::{
    chars_of, concat2, cut_to_bytes, digit_char, has_prefix, has_suffix, is_digit, join_all, joined,
    lemma_pieces_concat, lemma_pieces_of_plain, lemma_text_lt_irreflexive, pieces, split_all,
    starts_with, text_eq, text_lt, trim, trimmed, views, within_bytes,
};
use crate::textmap::{
    group_places, grouped, key_values, law_lists_in_order_are_sets, law_members_are_listed,
    lemma_places, members, places_of, OrdMap, PairKey, Places,
};

verus! {

/// How to remove duplicates.
pub struct DedupOptions {
    /// Ask for each set of duplicates; otherwise choose.
    pub interactive: bool,
    /// Leave a pointer for each removed file.
    pub write_links: bool,
    /// Only report.
    pub dry_run: bool,
}

/// One copy of a content, with what it is ranked by.
#[derive(Debug)]
pub struct Candidate {
    pub abs: String,
    /// The path below its root.
    pub rel: String,
    /// The path to show.
    pub display: String,
    pub size: u64,
    pub hidden: bool,
    pub slashes: u64,
}

/// What a candidate holds.
#[verifier::ext_equal]
pub struct CandidateView {
    pub abs: Seq<char>,
    pub rel: Seq<char>,
    pub display: Seq<char>,
    pub size: u64,
    pub hidden: bool,
    pub slashes: u64,
}

impl View for Candidate {
    type V = CandidateView;

    open spec fn view(&self) -> CandidateView {
        CandidateView {
            abs: self.abs@,
            rel: self.rel@,
            display: self.display@,
            size: self.size,
            hidden: self.hidden,
            slashes: self.slashes,
        }
    }
}

pub open spec fn candidate_views(v: Seq<Candidate>) -> Seq<CandidateView> {
    v.map_values(|c: Candidate| c@)
}

impl Candidate {
    pub fn copy(&self) -> (r: Candidate)
        ensures
            r@ == self@,
    {
        Candidate {
            abs: self.abs.clone(),
            rel: self.rel.clone(),
            display: self.display.clone(),
            size: self.size,
            hidden: self.hidden,
            slashes: self.slashes,
        }
    }
}

/// Some part of the path starts with a dot.
pub open spec fn hidden_path(rel: Seq<char>) -> bool {
    exists|i: int| 0 <= i < pieces(rel, '/').len() && has_prefix(#[trigger] pieces(rel, '/')[i], "."@)
}

/// Whether some part of a path starts with a dot.
pub fn rel_is_hidden(rel: &str) -> (r: bool)
    ensures
        r == hidden_path(rel@),
{
    let parts: Vec<String> = split_all(rel, '/');
    let ghost pv = pieces(rel@, '/');
    let mut i: usize = 0;
    while i < parts.len()
        invariant
            i <= parts@.len(),
            pv == pieces(rel@, '/'),
            views(parts@) == pv,
            forall|k: int| 0 <= k < i ==> !has_prefix(#[trigger] pv[k], "."@),
        decreases parts@.len() - i,
    {
        assert(pv[i as int] == parts@[i as int]@);
        if starts_with(parts[i].as_str(), ".") {
            return true;
        }
        i += 1;
    }
    false
}

/// The number of slashes of a path.
pub open spec fn slash_count(s: Seq<char>) -> nat
    decreases s.len(),
{
    if s.len() == 0 {
        0
    } else {
        slash_count(s.drop_last()) + if s.last() == '/' {
            1nat
        } else {
            0
        }
    }
}

/// The number of slashes of a path.
pub fn count_slashes(s: &str) -> (r: u64)
    ensures
        r == slash_count(s@),
{
    let c: Vec<char> = chars_of(s);
    let n: usize = c.len();
    let mut sum: u64 = 0;
    let mut i: usize = 0;
    assert(c@.take(0) =~= Seq::<char>::empty());
    while i < n
        invariant
            i <= n,
            n == c@.len(),
            sum <= i,
            sum == slash_count(c@.take(i as int)),
        decreases n - i,
    {
        assert(c@.take(i + 1).drop_last() =~= c@.take(i as int));
        if c[i] == '/' {
            sum = sum + 1;
        }
        i += 1;
    }
    assert(c@.take(n as int) =~= s@);
    sum
}

/// The candidate of a record below a root: shown by its whole path where there are
/// several roots.
pub open spec fn candidate_of(root: Seq<char>, r: RecordView, multi: bool) -> CandidateView {
    CandidateView {
        abs: joined_path(root, r.path),
        rel: r.path,
        display: if multi {
            joined_path(root, r.path)
        } else {
            r.path
        },
        size: r.size,
        hidden: hidden_path(r.path),
        slashes: slash_count(r.path) as u64,
    }
}

/// Makes the candidate of a record.
pub fn make_candidate(root: &str, r: &InventoryRecord, multi: bool) -> (c: Candidate)
    ensures
        c@ == candidate_of(root@, r@, multi),
{
    let abs: String = join(root, r.path.as_str());
    let display: String = if multi {
        abs.clone()
    } else {
        r.path.clone()
    };
    Candidate {
        abs,
        rel: r.path.clone(),
        display,
        size: r.size,
        hidden: rel_is_hidden(r.path.as_str()),
        slashes: count_slashes(r.path.as_str()),
    }
}

/// What a candidate is ranked by: not hidden first, then fewer slashes, then the
/// path.
pub open spec fn rank_key(c: CandidateView) -> KeyView {
    KeyView {
        major: if c.hidden {
            1
        } else {
            0
        },
        minor: c.slashes,
        text: c.rel,
    }
}

pub open spec fn rank_keys(cands: Seq<CandidateView>) -> Seq<KeyView> {
    cands.map_values(|c: CandidateView| rank_key(c))
}

/// The candidates, the one to keep first.
pub open spec fn ranked(cands: Seq<CandidateView>) -> Seq<CandidateView> {
    stable_sorted(rank_keys(cands), cands)
}

/// Ranks candidates: the first is the one to keep.
pub fn rank(cands: &mut Vec<Candidate>)
    ensures
        candidate_views(final(cands)@) == ranked(candidate_views(old(cands)@)),
        final(cands)@.len() == old(cands)@.len(),
{
    let ghost cv = candidate_views(cands@);
    let mut keys: Vec<SortKey> = Vec::new();
    let mut i: usize = 0;
    while i < cands.len()
        invariant
            i <= cands@.len(),
            keys@.len() == i,
            forall|k: int| 0 <= k < i ==> (#[trigger] keys@[k])@ == rank_key(cands@[k]@),
        decreases cands@.len() - i,
    {
        keys.push(
            SortKey {
                major: if cands[i].hidden {
                    1
                } else {
                    0
                },
                minor: cands[i].slashes,
                text: cands[i].rel.clone(),
            },
        );
        i += 1;
    }
    assert(key_views(keys@) =~= rank_keys(cv));
    let order: Vec<usize> = stable_order(&keys);
    let mut out: Vec<Candidate> = Vec::new();
    let mut j: usize = 0;
    while j < order.len()
        invariant
            j <= order@.len(),
            cv == candidate_views(cands@),
            order@.len() == cands@.len(),
            is_stable_order(rank_keys(cv), order@),
            out@.len() == j,
            forall|k: int| 0 <= k < j ==> (#[trigger] out@[k])@ == cv[order@[k] as int],
        decreases order@.len() - j,
    {
        let p: usize = order[j];
        assert(cv[p as int] == cands@[p as int]@);
        out.push(cands[p].copy());
        j += 1;
    }
    proof {
        lemma_stable_sorted(rank_keys(cv), cv, order@, candidate_views(out@));
    }
    *cands = out;
}

// ---- duplicate sets --------------------------------------------------------

/// A copy with its content.
#[derive(Debug)]
pub struct FileCopy {
    pub algo: String,
    pub hash: String,
    pub cand: Candidate,
}

/// What a copy holds.
pub struct CopyView {
    pub key: (Seq<char>, Seq<char>),
    pub cand: CandidateView,
}

impl View for FileCopy {
    type V = CopyView;

    open spec fn view(&self) -> CopyView {
        CopyView { key: (self.algo@, self.hash@), cand: self.cand@ }
    }
}

pub open spec fn copy_views(v: Seq<FileCopy>) -> Seq<CopyView> {
    v.map_values(|c: FileCopy| c@)
}

/// The copies of some records below a root.
pub open spec fn root_copies(root: Seq<char>, records: Seq<RecordView>, multi: bool) -> Seq<
    CopyView,
> {
    records.map_values(
        |r: RecordView| CopyView { key: (r.algo, r.hash), cand: candidate_of(root, r, multi) },
    )
}

/// The copies of all roots, in order.
pub open spec fn all_copies(
    roots: Seq<Seq<char>>,
    inventories: Seq<Vec<InventoryRecord>>,
    multi: bool,
) -> Seq<CopyView>
    decreases inventories.len(),
{
    if inventories.len() == 0 {
        Seq::empty()
    } else {
        let i = inventories.len() - 1;
        all_copies(roots, inventories.drop_last(), multi) + root_copies(
            roots[i],
            record_views(inventories[i]@),
            multi,
        )
    }
}

/// The contents of some copies.
pub open spec fn copy_keys(copies: Seq<CopyView>) -> Seq<(Seq<char>, Seq<char>)> {
    copies.map_values(|c: CopyView| c.key)
}

/// The candidates at some places.
pub open spec fn candidates_at(copies: Seq<CopyView>, places: Seq<usize>) -> Seq<CandidateView> {
    places.map_values(|p: usize| copies[p as int].cand)
}

/// All copies of one content, ranked.
#[derive(Debug)]
pub struct DupSet {
    pub algo: String,
    pub hash: String,
    pub cands: Vec<Candidate>,
}

/// What a set holds.
#[verifier::ext_equal]
pub struct SetView {
    pub key: (Seq<char>, Seq<char>),
    pub cands: Seq<CandidateView>,
}

impl View for DupSet {
    type V = SetView;

    open spec fn view(&self) -> SetView {
        SetView { key: (self.algo@, self.hash@), cands: candidate_views(self.cands@) }
    }
}

pub open spec fn set_views(v: Seq<DupSet>) -> Seq<SetView> {
    v.map_values(|s: DupSet| s@)
}

/// The sets of at least two copies, for some contents in order.
pub open spec fn sets_of(keys: Seq<(Seq<char>, Seq<char>)>, copies: Seq<CopyView>) -> Seq<SetView>
    decreases keys.len(),
{
    if keys.len() == 0 {
        Seq::empty()
    } else {
        let before = sets_of(keys.drop_last(), copies);
        let k = keys.last();
        let places = places_of(copy_keys(copies), k);
        if places.len() < 2 {
            before
        } else {
            before.push(SetView { key: k, cands: ranked(candidates_at(copies, places)) })
        }
    }
}

/// The copies of all roots.
pub fn gather_copies(roots: &Vec<String>, inventories: &Vec<Vec<InventoryRecord>>) -> (r: Vec<FileCopy>)
    requires
        roots@.len() == inventories@.len(),
    ensures
        copy_views(r@) == all_copies(views(roots@), inventories@, roots@.len() > 1),
{
    let multi: bool = roots.len() > 1;
    let ghost rv = views(roots@);
    let mut out: Vec<FileCopy> = Vec::new();
    let mut i: usize = 0;
    assert(copy_views(out@) =~= all_copies(rv, inventories@.take(0), multi));
    while i < roots.len()
        invariant
            i <= roots@.len(),
            roots@.len() == inventories@.len(),
            rv == views(roots@),
            copy_views(out@) == all_copies(rv, inventories@.take(i as int), multi),
        decreases roots@.len() - i,
    {
        let records: &Vec<InventoryRecord> = &inventories[i];
        let ghost before = copy_views(out@);
        let ghost add = root_copies(rv[i as int], record_views(records@), multi);
        proof {
            assert(inventories@.take(i + 1).drop_last() =~= inventories@.take(i as int));
            assert(rv[i as int] == roots@[i as int]@);
            assert(before + add.take(0) =~= before);
        }
        let mut j: usize = 0;
        while j < records.len()
            invariant
                i < roots@.len(),
                rv == views(roots@),
                j <= records@.len(),
                add == root_copies(rv[i as int], record_views(records@), multi),
                copy_views(out@) == before + add.take(j as int),
            decreases records@.len() - j,
        {
            let r: &InventoryRecord = &records[j];
            let c: FileCopy = FileCopy {
                algo: r.algo.clone(),
                hash: r.hash.clone(),
                cand: make_candidate(roots[i].as_str(), r, multi),
            };
            proof {
                assert(rv[i as int] == roots@[i as int]@);
                assert(record_views(records@)[j as int] == r@);
                assert(add[j as int] == c@);
                assert(copy_views(out@.push(c)) =~= copy_views(out@).push(c@));
                assert(before + add.take(j + 1) =~= (before + add.take(j as int)).push(c@));
            }
            out.push(c);
            j += 1;
        }
        assert(add.take(records@.len() as int) =~= add);
        i += 1;
    }
    assert(inventories@.take(i as int) =~= inventories@);
    out
}

/// The sets of duplicates among the inventories of some roots: the copies of each
/// content that has at least two, ranked. Different algorithms never share a set.
pub fn duplicate_sets(roots: &Vec<String>, inventories: &Vec<Vec<InventoryRecord>>) -> (r: Vec<
    DupSet,
>)
    requires
        roots@.len() == inventories@.len(),
    ensures
        ({
            let copies = all_copies(views(roots@), inventories@, roots@.len() > 1);
            set_views(r@) == sets_of(members::<PairKey>(copy_keys(copies)), copies)
        }),
        forall|i: int| 0 <= i < r@.len() ==> (#[trigger] r@[i]).cands@.len() >= 2,
{
    let copies: Vec<FileCopy> = gather_copies(roots, inventories);
    let n_copies: usize = copies.len();
    let ghost cv = copy_views(copies@);
    let ghost ck = copy_keys(cv);
    let mut keys: Vec<PairKey> = Vec::new();
    let mut i: usize = 0;
    while i < copies.len()
        invariant
            i <= copies@.len(),
            keys@.len() == i,
            forall|k: int| 0 <= k < i ==> (#[trigger] keys@[k])@ == copies@[k]@.key,
        decreases copies@.len() - i,
    {
        keys.push(PairKey { first: copies[i].algo.clone(), second: copies[i].hash.clone() });
        i += 1;
    }
    assert(key_values(keys@) =~= ck);
    let groups: OrdMap<PairKey, Places> = group_places(keys);
    let n: usize = groups.len();
    let ghost gk = groups.keys();
    proof {
        assert forall|k: (Seq<char>, Seq<char>)| gk.contains(k) <==> ck.contains(k) by {
            assert(groups@.dom().contains(k) <==> gk.contains(k));
        }
        law_members_are_listed::<PairKey>(ck);
        law_lists_in_order_are_sets::<PairKey>(gk, members::<PairKey>(ck));
    }
    let mut out: Vec<DupSet> = Vec::new();
    let mut j: usize = 0;
    assert(set_views(out@) =~= sets_of(gk.take(0), cv));
    while j < n
        invariant
            n == gk.len(),
            j <= n,
            gk == groups.keys(),
            cv == copy_views(copies@),
            cv.len() == n_copies,
            ck == copy_keys(cv),
            groups@ == grouped(ck),
            set_views(out@) == sets_of(gk.take(j as int), cv),
            forall|i: int| 0 <= i < out@.len() ==> (#[trigger] out@[i]).cands@.len() >= 2,
        decreases n - j,
    {
        let key: &PairKey = groups.key_at(j);
        let places: &Places = groups.value_at(j);
        proof {
            lemma_places(ck, key@);
            assert(gk.take(j + 1).drop_last() =~= gk.take(j as int));
            assert(gk.take(j + 1).last() == key@);
        }
        let m: usize = places.len();
        if m >= 2 {
            let mut cands: Vec<Candidate> = Vec::new();
            let ghost members = candidates_at(cv, places@);
            let mut x: usize = 0;
            while x < m
                invariant
                    m == places@.len(),
                    x <= m,
                    cv == copy_views(copies@),
                    members == candidates_at(cv, places@),
                    forall|k: int| 0 <= k < places@.len() ==> #[trigger] places@[k] < copies@.len(),
                    cands@.len() == x,
                    forall|k: int| 0 <= k < x ==> (#[trigger] cands@[k])@ == members[k],
                decreases m - x,
            {
                let p: usize = places.at(x);
                assert(cv[p as int] == copies@[p as int]@);
                cands.push(copies[p].cand.copy());
                x += 1;
            }
            assert(candidate_views(cands@) =~= members);
            rank(&mut cands);
            let set: DupSet = DupSet { algo: key.first.clone(), hash: key.second.clone(), cands };
            assert(set_views(out@.push(set)) =~= set_views(out@).push(set@));
            out.push(set);
        }
        j += 1;
    }
    assert(gk.take(n as int) =~= gk);
    out
}

// ---- choosing --------------------------------------------------------------

/// What to do with a set.
#[derive(Clone, Copy, Debug, PartialEq, Eq, Structural)]
pub enum Choice {
    /// Keep the candidate at a place.
    Keep(usize),
    /// Leave the set alone.
    Skip,
    /// Keep the first, here and from now on.
    Auto,
}

/// A key that was pressed.
#[derive(Clone, Copy, Debug, PartialEq, Eq, Structural)]
pub enum Key {
    Char(char),
    Backspace,
    Enter,
    Other,
}

/// What a key does: it may add a digit, take one back, or settle the choice.
#[derive(Clone, Copy, Debug, PartialEq, Eq, Structural)]
pub struct KeyStep {
    /// The number typed so far, 0 for none.
    pub typed: usize,
    /// A digit to echo.
    pub echo: Option<char>,
    /// Take the last digit off the screen.
    pub erase: bool,
    pub choice: Option<Choice>,
}

/// The value of a digit.
pub open spec fn digit(c: char) -> int {
    c as int - '0' as int
}

/// What a key does while a number between 1 and `n` is typed. A digit that would
/// make the number 0 or too large is ignored; one that no longer number in range
/// can follow settles the choice.
pub open spec fn key_step_of(typed: int, key: Key, n: int) -> KeyStep {
    let stay = KeyStep { typed: typed as usize, echo: None, erase: false, choice: None };
    match key {
        Key::Char(c) => if typed == 0 && (c == 's' || c == 'S') {
            KeyStep { choice: Some(Choice::Skip), ..stay }
        } else if typed == 0 && (c == 'a' || c == 'A') {
            KeyStep { choice: Some(Choice::Auto), ..stay }
        } else if is_digit(c) {
            let v = typed * 10 + digit(c);
            if v == 0 || v > n {
                stay
            } else {
                KeyStep {
                    typed: v as usize,
                    echo: Some(c),
                    erase: false,
                    choice: if v * 10 > n {
                        Some(Choice::Keep((v - 1) as usize))
                    } else {
                        None
                    },
                }
            }
        } else {
            stay
        },
        Key::Backspace => KeyStep { typed: (typed / 10) as usize, erase: typed > 0, ..stay },
        Key::Enter => if 1 <= typed <= n {
            KeyStep { choice: Some(Choice::Keep((typed - 1) as usize)), ..stay }
        } else {
            stay
        },
        Key::Other => stay,
    }
}

/// Takes one key while a number between 1 and `n` is typed.
pub fn prompt_choice_key(typed: usize, key: Key, n: usize) -> (r: KeyStep)
    requires
        typed <= n,
    ensures
        r == key_step_of(typed as int, key, n as int),
        r.typed <= n,
        r.choice matches Some(Choice::Keep(i)) ==> i < n,
{
    let stay: KeyStep = KeyStep { typed, echo: None, erase: false, choice: None };
    match key {
        Key::Char(c) => {
            if typed == 0 && (c == 's' || c == 'S') {
                return KeyStep { typed, echo: None, erase: false, choice: Some(Choice::Skip) };
            }
            if typed == 0 && (c == 'a' || c == 'A') {
                return KeyStep { typed, echo: None, erase: false, choice: Some(Choice::Auto) };
            }
            if !digit_char(c) {
                return stay;
            }
            let v: u128 = typed as u128 * 10 + (c as u32 - '0' as u32) as u128;
            if v == 0 || v > n as u128 {
                return stay;
            }
            let choice: Option<Choice> = if v * 10 > n as u128 {
                Some(Choice::Keep(v as usize - 1))
            } else {
                None
            };
            KeyStep { typed: v as usize, echo: Some(c), erase: false, choice }
        },
        Key::Backspace => KeyStep { typed: typed / 10, echo: None, erase: typed > 0, choice: None },
        Key::Enter => if typed >= 1 {
            KeyStep { typed, echo: None, erase: false, choice: Some(Choice::Keep(typed - 1)) }
        } else {
            stay
        },
        Key::Other => stay,
    }
}

/// What a line of input says.
#[derive(Clone, Debug, PartialEq, Eq)]
pub enum Answer {
    Chosen(Choice),
    /// The line is no choice.
    Invalid(String),
}

/// What a line of input says, without the whitespace around it: `s`, `a`, or a
/// number between 1 and `n`.
pub open spec fn answer_of(t: Seq<char>, n: int) -> Option<Choice> {
    if t == "s"@ || t == "S"@ || t == "skip"@ {
        Some(Choice::Skip)
    } else if t == "a"@ || t == "A"@ || t == "auto"@ {
        Some(Choice::Auto)
    } else {
        match number_of(t) {
            Some(i) if 1 <= i <= n => Some(Choice::Keep((i - 1) as usize)),
            _ => None,
        }
    }
}

/// Takes a line of input; the end of the input skips rather than deletes.
pub fn prompt_choice_line(line: Option<&str>, n: usize) -> (r: Answer)
    ensures
        match line {
            None => r == Answer::Chosen(Choice::Skip),
            Some(s) => match answer_of(trimmed(s@), n as int) {
                Some(c) => r == Answer::Chosen(c),
                None => r matches Answer::Invalid(t) && t@ == trimmed(s@),
            },
        },
        r matches Answer::Chosen(Choice::Keep(i)) ==> i < n,
{
    let input: &str = match line {
        None => return Answer::Chosen(Choice::Skip),
        Some(s) => s,
    };
    let t: String = trim(input);
    let w: &str = t.as_str();
    if text_eq(w, "s") || text_eq(w, "S") || text_eq(w, "skip") {
        return Answer::Chosen(Choice::Skip);
    }
    if text_eq(w, "a") || text_eq(w, "A") || text_eq(w, "auto") {
        return Answer::Chosen(Choice::Auto);
    }
    match parse_at_most(w, n as u64) {
        Some(i) if i >= 1 => Answer::Chosen(Choice::Keep((i - 1) as usize)),
        _ => Answer::Invalid(t),
    }
}

// ---- removing --------------------------------------------------------------

/// The number of parts that two paths start with in common.
pub open spec fn common_len(a: Seq<Seq<char>>, b: Seq<Seq<char>>) -> nat
    decreases a.len(),
{
    if a.len() == 0 || b.len() == 0 || a[0] != b[0] {
        0
    } else {
        1 + common_len(a.skip(1), b.skip(1))
    }
}

/// `n` steps up.
pub open spec fn ups(n: nat) -> Seq<Seq<char>> {
    Seq::new(n, |i: int| ".."@)
}

/// The steps from a directory to a path with the same start: up to where they
/// part, then down.
pub open spec fn steps_between(from: Seq<Seq<char>>, to: Seq<Seq<char>>) -> Seq<Seq<char>> {
    let k = common_len(from, to);
    ups((from.len() - k) as nat) + to.skip(k as int)
}

/// The path of `to` seen from a directory.
pub open spec fn relative_path(from: Seq<char>, to: Seq<char>) -> Seq<char> {
    if is_abs(from) == is_abs(to) {
        joined(steps_between(comps(from), comps(to)), "/"@)
    } else if is_abs(to) {
        "/"@ + joined(comps(to), "/"@)
    } else {
        joined(ups(comps(from).len() + 1) + comps(to), "/"@)
    }
}

proof fn lemma_common_len_bound(a: Seq<Seq<char>>, b: Seq<Seq<char>>)
    ensures
        common_len(a, b) <= a.len(),
        common_len(a, b) <= b.len(),
        a.take(common_len(a, b) as int) == b.take(common_len(a, b) as int),
    decreases a.len(),
{
    if a.len() > 0 && b.len() > 0 && a[0] == b[0] {
        lemma_common_len_bound(a.skip(1), b.skip(1));
        let k = common_len(a, b) as int;
        assert forall|i: int| 0 <= i < k implies a.take(k)[i] == b.take(k)[i] by {
            if i > 0 {
                assert(a.skip(1).take(k - 1)[i - 1] == b.skip(1).take(k - 1)[i - 1]);
            }
        }
        assert(a.take(k) =~= b.take(k));
    } else {
        assert(a.take(0) =~= b.take(0));
    }
}

proof fn lemma_common_len(a: Seq<Seq<char>>, b: Seq<Seq<char>>, k: int)
    requires
        0 <= k <= a.len(),
        k <= b.len(),
        forall|i: int| 0 <= i < k ==> #[trigger] a[i] == b[i],
        k == a.len() || k == b.len() || a[k] != b[k],
    ensures
        common_len(a, b) == k,
    decreases a.len(),
{
    if k > 0 {
        assert(a[0] == b[0]);
        assert forall|i: int| 0 <= i < k - 1 implies #[trigger] a.skip(1)[i] == b.skip(1)[i] by {
            assert(a[i + 1] == b[i + 1]);
        }
        lemma_common_len(a.skip(1), b.skip(1), k - 1);
    }
}

/// Adds steps up, then the parts of a path from `k` on.
fn push_steps(ups_n: usize, to: &Vec<String>, k: usize) -> (r: Vec<String>)
    requires
        k <= to@.len(),
    ensures
        views(r@) == ups(ups_n as nat) + views(to@).skip(k as int),
{
    let mut out: Vec<String> = Vec::new();
    let mut i: usize = 0;
    while i < ups_n
        invariant
            i <= ups_n,
            out@.len() == i,
            forall|x: int| 0 <= x < i ==> (#[trigger] out@[x])@ == ".."@,
        decreases ups_n - i,
    {
        out.push("..".to_owned());
        i += 1;
    }
    let mut j: usize = k;
    while j < to.len()
        invariant
            k <= j <= to@.len(),
            out@.len() == ups_n + (j - k),
            forall|x: int| 0 <= x < ups_n ==> (#[trigger] out@[x])@ == ".."@,
            forall|x: int|
                ups_n <= x < out@.len() ==> (#[trigger] out@[x])@ == to@[k + x - ups_n]@,
        decreases to@.len() - j,
    {
        out.push(to[j].clone());
        j += 1;
    }
    assert(views(out@) =~= ups(ups_n as nat) + views(to@).skip(k as int));
    out
}

/// The path of `to` seen from a directory.
pub fn relative_to(from_dir: &str, to: &str) -> (r: String)
    ensures
        r@ == relative_path(from_dir@, to@),
{
    let from: Vec<String> = components(from_dir);
    let dest: Vec<String> = components(to);
    let n: usize = from.len();
    assert(views(from@).len() == from@.len());
    if absolute(from_dir) != absolute(to) {
        if absolute(to) {
            let rest: String = join_all(&dest, "/");
            return concat2("/", rest.as_str());
        }
        let steps: Vec<String> = push_steps_up_one(n, &dest);
        return join_all(&steps, "/");
    }
    let mut k: usize = 0;
    while k < from.len() && k < dest.len() && text_eq(from[k].as_str(), dest[k].as_str())
        invariant
            k <= from@.len(),
            k <= dest@.len(),
            forall|i: int| 0 <= i < k ==> #[trigger] views(from@)[i] == views(dest@)[i],
        decreases from@.len() - k,
    {
        assert(views(from@)[k as int] == from@[k as int]@);
        assert(views(dest@)[k as int] == dest@[k as int]@);
        k += 1;
    }
    proof {
        if k < from@.len() && k < dest@.len() {
            assert(views(from@)[k as int] == from@[k as int]@);
            assert(views(dest@)[k as int] == dest@[k as int]@);
        }
        lemma_common_len(views(from@), views(dest@), k as int);
    }
    let steps: Vec<String> = push_steps(n - k, &dest, k);
    join_all(&steps, "/")
}

/// One step up more than `n`, then the whole path.
fn push_steps_up_one(n: usize, to: &Vec<String>) -> (r: Vec<String>)
    ensures
        views(r@) == ups(n as nat + 1) + views(to@),
{
    let mut out: Vec<String> = Vec::new();
    out.push("..".to_owned());
    let mut rest: Vec<String> = push_steps(n, to, 0);
    let ghost rs = rest@;
    out.append(&mut rest);
    assert(views(to@).skip(0) =~= views(to@));
    assert(views(out@) =~= seq![".."@] + views(rs));
    assert(seq![".."@] + (ups(n as nat) + views(to@)) =~= ups(n as nat + 1) + views(to@));
    out
}

/// The path of the pointer for a removed file.
pub fn pointer_path(removed: &str) -> (r: String)
    ensures
        r@ == removed@ + ".dedup"@,
        has_suffix(r@, ".dedup"@),
{
    let r: String = concat2(removed, DEDUP_SUFFIX);
    assert(r@.subrange(removed@.len() as int, r@.len() as int) =~= ".dedup"@);
    r
}

/// What to do about one duplicate.
#[derive(Debug, PartialEq, Eq)]
pub enum Removal {
    /// Nothing: this is a dry run.
    Nothing,
    /// Remove the file.
    Remove,
    /// Remove the file and leave a pointer with some content.
    RemoveAndPoint { pointer: String, content: String },
}

/// The directory of a path, or the current one.
pub open spec fn parent_or_here(p: Seq<char>) -> Seq<char> {
    match parent_of(p) {
        Some(d) => d,
        None => "."@,
    }
}

/// What to do about a duplicate of a file that is kept: the pointer stands beside
/// the removed file and holds the way to the kept one.
pub open spec fn is_removal(
    r: Removal,
    removed: Seq<char>,
    kept: Seq<char>,
    opts: &DedupOptions,
) -> bool {
    if opts.dry_run {
        r == Removal::Nothing
    } else if !opts.write_links {
        r == Removal::Remove
    } else {
        r matches Removal::RemoveAndPoint { pointer, content } && pointer@ == removed + ".dedup"@
            && content@ == relative_path(parent_or_here(removed), kept) + "\n"@
    }
}

/// What to do about a duplicate of a file that is kept.
pub fn remove_one(removed: &str, kept: &str, opts: &DedupOptions) -> (r: Removal)
    ensures
        is_removal(r, removed@, kept@, opts),
{
    if opts.dry_run {
        return Removal::Nothing;
    }
    if !opts.write_links {
        return Removal::Remove;
    }
    let from_dir: String = match parent(removed) {
        Some(d) => d,
        None => ".".to_owned(),
    };
    let target: String = relative_to(from_dir.as_str(), kept);
    Removal::RemoveAndPoint {
        pointer: pointer_path(removed),
        content: concat2(target.as_str(), "\n"),
    }
}

/// The root that a directory belongs to: of those that it lies under, one with the
/// most parts, the last such.
pub open spec fn owner_among(roots: Seq<Seq<char>>, dir: Seq<char>) -> Option<int>
    decreases roots.len(),
{
    if roots.len() == 0 {
        None
    } else {
        let before = owner_among(roots.drop_last(), dir);
        let last = roots.last();
        if !is_under(dir, last) {
            before
        } else {
            match before {
                Some(i) if comps(roots[i]).len() > comps(last).len() => Some(i),
                _ => Some(roots.len() - 1),
            }
        }
    }
}

/// The root that a directory belongs to.
pub fn owner_root(roots: &Vec<String>, dir: &str) -> (r: Option<usize>)
    ensures
        match r {
            Some(i) => i < roots@.len() && owner_among(views(roots@), dir@) == Some(i as int),
            None => owner_among(views(roots@), dir@) is None,
        },
{
    let ghost rv = views(roots@);
    let mut best: Option<usize> = None;
    let mut best_len: usize = 0;
    let mut i: usize = 0;
    assert(rv.take(0) =~= Seq::<Seq<char>>::empty());
    while i < roots.len()
        invariant
            i <= roots@.len(),
            rv == views(roots@),
            match best {
                Some(b) => b < i && owner_among(rv.take(i as int), dir@) == Some(b as int)
                    && best_len == comps(rv[b as int]).len(),
                None => owner_among(rv.take(i as int), dir@) is None,
            },
        decreases roots@.len() - i,
    {
        proof {
            assert(rv[i as int] == roots@[i as int]@);
            assert(rv.take(i + 1).drop_last() =~= rv.take(i as int));
            assert(rv.take(i + 1).last() == roots@[i as int]@);
        }
        if under(dir, roots[i].as_str()) {
            let parts: Vec<String> = components(roots[i].as_str());
            assert(views(parts@).len() == parts@.len());
            let len: usize = parts.len();
            if best.is_none() || best_len <= len {
                best = Some(i);
                best_len = len;
            }
        }
        i += 1;
    }
    assert(rv.take(rv.len() as int) =~= rv);
    best
}

// ---- the session -----------------------------------------------------------

/// How far a run over the duplicate sets has come.
#[derive(Clone, Copy, Debug, PartialEq, Eq, Structural)]
pub struct Session {
    /// Keep the first of each set without asking.
    pub auto: bool,
    pub sets: usize,
    pub kept: usize,
    pub removed: usize,
    pub skipped: usize,
}

impl Session {
    /// The counts can take one more set of `n` copies.
    pub open spec fn has_room(self, n: int) -> bool {
        &&& self.sets < usize::MAX
        &&& self.kept < usize::MAX
        &&& self.skipped < usize::MAX
        &&& self.removed + n <= usize::MAX
    }

    pub fn start(opts: &DedupOptions) -> (r: Session)
        ensures
            r == (Session { auto: !opts.interactive, sets: 0, kept: 0, removed: 0, skipped: 0 }),
    {
        Session { auto: !opts.interactive, sets: 0, kept: 0, removed: 0, skipped: 0 }
    }

    /// Whether the counts can take one more set of `n` copies.
    pub fn can_take(&self, n: usize) -> (r: bool)
        ensures
            r == self.has_room(n as int),
    {
        self.sets < usize::MAX && self.kept < usize::MAX && self.skipped < usize::MAX
            && self.removed <= usize::MAX - n
    }

    /// Settles a set of `n` copies: the place of the copy to keep, none where the
    /// set is skipped. Without asking the first is kept; `Auto` keeps the first and
    /// stops the asking.
    pub fn settle(&mut self, n: usize, choice: Choice) -> (r: Option<usize>)
        requires
            n >= 2,
            old(self).has_room(n as int),
            choice matches Choice::Keep(i) ==> i < n,
        ensures
            r == (if old(self).auto {
                Some(0usize)
            } else {
                match choice {
                    Choice::Keep(i) => Some(i),
                    Choice::Skip => None,
                    Choice::Auto => Some(0usize),
                }
            }),
            final(self).auto == (old(self).auto || choice == Choice::Auto),
            final(self).sets == old(self).sets + 1,
            r is Some ==> final(self).kept == old(self).kept + 1 && final(self).removed == old(
                self).removed + (n - 1) && final(self).skipped == old(self).skipped,
            r is None ==> final(self).kept == old(self).kept && final(self).removed == old(
                self).removed && final(self).skipped == old(self).skipped + 1,
            r matches Some(i) ==> i < n,
    {
        self.sets = self.sets + 1;
        let keep: Option<usize> = if self.auto {
            Some(0)
        } else {
            match choice {
                Choice::Keep(i) => Some(i),
                Choice::Skip => None,
                Choice::Auto => Some(0),
            }
        };
        if let Choice::Auto = choice {
            self.auto = true;
        }
        match keep {
            Some(_) => {
                self.kept = self.kept + 1;
                self.removed = self.removed + (n - 1);
            },
            None => {
                self.skipped = self.skipped + 1;
            },
        }
        keep
    }

    /// The summary line.
    pub fn summary(&self, dry_run: bool) -> (r: String)
        ensures
            r@ == (if dry_run {
                "dry-run: "@
            } else {
                ""@
            }) + decimal(self.sets as nat) + " duplicate sets — kept "@ + decimal(
                self.kept as nat,
            ) + ", removed "@ + decimal(self.removed as nat) + ", skipped "@ + decimal(
                self.skipped as nat,
            ),
    {
        let mut out: String = if dry_run {
            "dry-run: ".to_owned()
        } else {
            "".to_owned()
        };
        out.append(usize_text(self.sets).as_str());
        out.append(" duplicate sets — kept ");
        out.append(usize_text(self.kept).as_str());
        out.append(", removed ");
        out.append(usize_text(self.removed).as_str());
        out.append(", skipped ");
        out.append(usize_text(self.skipped).as_str());
        out
    }
}

/// The heading of a set, for the question which copy to keep.
pub open spec fn set_heading(set: SetView) -> Seq<char> {
    "Duplicate set ["@ + set.key.0 + ":"@ + within_bytes(set.key.1, 12) + "] — "@ + decimal(
        set.cands.len(),
    ) + " copies, "@ + decimal(set.cands[0].size as nat) + " bytes each:"@
}

/// The row of a candidate: the first is the one that is kept without asking.
pub open spec fn candidate_row(c: CandidateView, i: int) -> Seq<char> {
    "  "@ + decimal((i + 1) as nat) + ") "@ + c.display + if i == 0 {
        " (auto-keep)"@
    } else {
        ""@
    }
}

/// What to show before asking which copy of a set to keep.
pub fn question(set: &DupSet) -> (r: Vec<String>)
    requires
        set.cands@.len() > 0,
    ensures
        views(r@) == seq![set_heading(set@)] + Seq::new(
            set@.cands.len(),
            |i: int| candidate_row(set@.cands[i], i),
        ),
{
    let n: usize = set.cands.len();
    let mut head: String = concat2("Duplicate set [", set.algo.as_str());
    head.append(":");
    head.append(cut_to_bytes(set.hash.as_str(), 12).as_str());
    head.append("] — ");
    head.append(usize_text(n).as_str());
    head.append(" copies, ");
    head.append(u64_text(set.cands[0].size).as_str());
    head.append(" bytes each:");
    assert(head@ == set_heading(set@));
    let mut out: Vec<String> = Vec::new();
    out.push(head);
    let mut i: usize = 0;
    while i < n
        invariant
            n == set.cands@.len(),
            i <= n,
            out@.len() == i + 1,
            out@[0]@ == set_heading(set@),
            forall|k: int|
                1 <= k < out@.len() ==> (#[trigger] out@[k])@ == candidate_row(
                    set@.cands[k - 1],
                    k - 1,
                ),
        decreases n - i,
    {
        let mut row: String = concat2("  ", usize_text(i + 1).as_str());
        row.append(") ");
        row.append(set.cands[i].display.as_str());
        if i == 0 {
            row.append(" (auto-keep)");
        } else {
            row.append("");
        }
        assert(row@ == candidate_row(set@.cands[i as int], i as int));
        out.push(row);
        i += 1;
    }
    assert(views(out@) =~= seq![set_heading(set@)] + Seq::new(
        set@.cands.len(),
        |i: int| candidate_row(set@.cands[i], i),
    ));
    out
}

/// What to do about one copy of a settled set.
#[derive(Debug)]
pub struct CopyRemoval {
    pub abs: String,
    pub removal: Removal,
    /// The line that reports it.
    pub line: String,
}

/// How to settle a set.
#[derive(Debug)]
pub struct SetPlan {
    /// The line that reports the copy that is kept.
    pub keep_line: String,
    pub removals: Vec<CopyRemoval>,
}

/// The line that reports the copy that is kept.
pub open spec fn keep_text(display: Seq<char>, dry_run: bool) -> Seq<char> {
    (if dry_run {
        "  would keep "@
    } else {
        "  keep "@
    }) + display
}

/// The line that reports a copy that is removed.
pub open spec fn removed_text(display: Seq<char>, dry_run: bool) -> Seq<char> {
    (if dry_run {
        "  would remove "@
    } else {
        "  removed "@
    }) + display
}

/// Plans to settle a set: every copy but the one to keep is removed, in order.
pub fn plan_set(set: &DupSet, keep: usize, opts: &DedupOptions) -> (r: SetPlan)
    requires
        keep < set@.cands.len(),
    ensures
        r.keep_line@ == keep_text(set@.cands[keep as int].display, opts.dry_run),
        r.removals@.len() == set@.cands.len() - 1,
        forall|i: int|
            0 <= i < r.removals@.len() ==> ({
                let c = set@.cands[if i < keep {
                    i
                } else {
                    i + 1
                }];
                let p = #[trigger] r.removals@[i];
                &&& p.abs@ == c.abs
                &&& is_removal(p.removal, c.abs, set@.cands[keep as int].abs, opts)
                &&& p.line@ == removed_text(c.display, opts.dry_run)
            }),
{
    let ghost cv = set@.cands;
    let kept: &Candidate = &set.cands[keep];
    let keep_line: String = concat2(
        if opts.dry_run {
            "  would keep "
        } else {
            "  keep "
        },
        kept.display.as_str(),
    );
    let mut removals: Vec<CopyRemoval> = Vec::new();
    let mut j: usize = 0;
    while j < set.cands.len()
        invariant
            j <= set.cands@.len(),
            cv == candidate_views(set.cands@),
            keep < cv.len(),
            kept@ == cv[keep as int],
            removals@.len() == (if j <= keep {
                j as int
            } else {
                j - 1
            }),
            forall|i: int|
                0 <= i < removals@.len() ==> ({
                    let c = cv[if i < keep {
                        i
                    } else {
                        i + 1
                    }];
                    let p = #[trigger] removals@[i];
                    &&& p.abs@ == c.abs
                    &&& is_removal(p.removal, c.abs, cv[keep as int].abs, opts)
                    &&& p.line@ == removed_text(c.display, opts.dry_run)
                }),
        decreases set.cands@.len() - j,
    {
        let c: &Candidate = &set.cands[j];
        assert(cv[j as int] == c@);
        if j != keep {
            removals.push(
                CopyRemoval {
                    abs: c.abs.clone(),
                    removal: remove_one(c.abs.as_str(), kept.abs.as_str(), opts),
                    line: concat2(
                        if opts.dry_run {
                            "  would remove "
                        } else {
                            "  removed "
                        },
                        c.display.as_str(),
                    ),
                },
            );
        }
        j += 1;
    }
    SetPlan { keep_line, removals }
}

/// The directories of the copies that were not kept, in order.
pub open spec fn removed_dirs(cands: Seq<CandidateView>, keep: int) -> Seq<Seq<char>>
    decreases cands.len(),
{
    if cands.len() == 0 {
        Seq::empty()
    } else {
        let before = removed_dirs(cands.drop_last(), keep);
        match parent_of(cands.last().abs) {
            Some(d) if cands.len() - 1 != keep => before.push(d),
            _ => before,
        }
    }
}

/// Notes the directories that a settled set changes, whose manifests have to be
/// refreshed: those of the copies that were not kept.
pub fn note_dirs(affected: &mut PathSet, cands: &Vec<Candidate>, keep: usize)
    ensures
        final(affected)@ == with_paths(
            old(affected)@,
            removed_dirs(candidate_views(cands@), keep as int),
        ),
{
    let ghost cv = candidate_views(cands@);
    let ghost start = affected@;
    let mut i: usize = 0;
    assert(cv.take(0) =~= Seq::<CandidateView>::empty());
    while i < cands.len()
        invariant
            i <= cands@.len(),
            cv == candidate_views(cands@),
            affected@ == with_paths(start, removed_dirs(cv.take(i as int), keep as int)),
        decreases cands@.len() - i,
    {
        let ghost before = removed_dirs(cv.take(i as int), keep as int);
        proof {
            assert(cv[i as int] == cands@[i as int]@);
            assert(cv.take(i + 1).drop_last() =~= cv.take(i as int));
            assert(cv.take(i + 1).last() == cands@[i as int]@);
        }
        if i != keep {
            if let Some(d) = parent(cands[i].abs.as_str()) {
                assert(before.push(d@).drop_last() =~= before);
                let _ = affected.insert(d);
            }
        }
        i += 1;
    }
    assert(cv.take(cv.len() as int) =~= cv);
}

// ---- laws ------------------------------------------------------------------

/// Where steps lead from a directory: `..` goes up, anything else goes down.
pub open spec fn led_to(from: Seq<Seq<char>>, steps: Seq<Seq<char>>) -> Seq<Seq<char>>
    decreases steps.len(),
{
    if steps.len() == 0 {
        from
    } else {
        let here = led_to(from, steps.drop_last());
        if steps.last() == ".."@ {
            if here.len() == 0 {
                here
            } else {
                here.drop_last()
            }
        } else {
            here.push(steps.last())
        }
    }
}

proof fn lemma_up(from: Seq<Seq<char>>, n: nat)
    requires
        n <= from.len(),
    ensures
        led_to(from, ups(n)) == from.take(from.len() - n),
    decreases n,
{
    if n == 0 {
        assert(ups(0) =~= Seq::<Seq<char>>::empty());
        assert(from.take(from.len() as int) =~= from);
    } else {
        lemma_up(from, (n - 1) as nat);
        assert(ups(n).drop_last() =~= ups((n - 1) as nat));
        assert(from.take(from.len() - (n - 1)).drop_last() =~= from.take(from.len() - n));
    }
}

proof fn lemma_down(from: Seq<Seq<char>>, steps: Seq<Seq<char>>, rest: Seq<Seq<char>>)
    requires
        forall|i: int| 0 <= i < rest.len() ==> #[trigger] rest[i] != ".."@,
    ensures
        led_to(from, steps + rest) == led_to(from, steps) + rest,
    decreases rest.len(),
{
    if rest.len() == 0 {
        assert(steps + rest =~= steps);
        assert(led_to(from, steps) + rest =~= led_to(from, steps));
    } else {
        let init = rest.drop_last();
        assert((steps + rest).drop_last() =~= steps + init);
        assert forall|i: int| 0 <= i < init.len() implies #[trigger] init[i] != ".."@ by {
            assert(rest[i] != ".."@);
        }
        lemma_down(from, steps, init);
        assert(rest[rest.len() - 1] != ".."@);
        assert((led_to(from, steps) + init).push(rest.last()) =~= led_to(from, steps) + rest);
    }
}

/// A pointer leads to the kept file: from the directory of the removed file, the
/// steps that it holds lead to the path of the kept one, where that path holds no
/// `..` of its own.
pub proof fn law_pointer_leads_to_kept_file(from: Seq<Seq<char>>, to: Seq<Seq<char>>)
    requires
        forall|i: int| 0 <= i < to.len() ==> #[trigger] to[i] != ".."@,
    ensures
        led_to(from, steps_between(from, to)) == to,
{
    lemma_common_len_bound(from, to);
    let k = common_len(from, to) as int;
    let up = ups((from.len() - k) as nat);
    lemma_up(from, (from.len() - k) as nat);
    let rest = to.skip(k);
    assert forall|i: int| 0 <= i < rest.len() implies #[trigger] rest[i] != ".."@ by {
        assert(to[i + k] != ".."@);
    }
    lemma_down(from, up, rest);
    assert(from.take(k) + rest =~= to);
}

/// A number in range that is longer than `v` by one digit, or more, and may start
/// with it.
pub open spec fn continues(v: int, longer: int, n: int) -> bool {
    v * 10 <= longer <= n
}

/// Typing never leaves the range, and a digit settles the choice exactly where no
/// longer number in range starts with what was typed.
pub proof fn law_digit_settles_when_nothing_longer_fits(typed: int, c: char, n: int)
    requires
        0 <= typed <= n,
        n < usize::MAX / 10 - 10,
        is_digit(c),
        1 <= typed * 10 + digit(c) <= n,
    ensures
        ({
            let v = typed * 10 + digit(c);
            let step = key_step_of(typed, Key::Char(c), n);
            &&& step.typed == v
            &&& step.choice is Some <==> !(exists|longer: int| #[trigger] continues(v, longer, n))
            &&& step.choice matches Some(ch) ==> ch == Choice::Keep((v - 1) as usize)
            &&& key_step_of(v, Key::Enter, n).choice == Some(Choice::Keep((v - 1) as usize))
        }),
{
    let v = typed * 10 + digit(c);
    if v * 10 <= n {
        assert(continues(v, v * 10, n));
    }
}

/// The copy that is kept without asking is the best one: no other is less hidden, or
/// as hidden and less deep, or as both and before it in the alphabet.
pub proof fn law_first_candidate_is_best(cands: Seq<CandidateView>, i: int)
    requires
        cands.len() <= usize::MAX,
        0 <= i < cands.len(),
    ensures
        !key_lt(rank_key(ranked(cands)[i]), rank_key(ranked(cands)[0])),
{
    if i > 0 {
        law_sorted_items_ascend(rank_keys(cands), 0, i);
    } else {
        lemma_text_lt_irreflexive(ranked(cands)[0].rel);
    }
}

/// Of two ranked copies, a hidden one never comes before one that is not; of two that
/// are hidden alike, a deeper one never comes before a less deep one; and of two that
/// are as deep, none comes before one that is before it in the alphabet.
pub proof fn law_copies_are_ranked_by_hidden_depth_and_name(
    cands: Seq<CandidateView>,
    i: int,
    j: int,
)
    requires
        cands.len() <= usize::MAX,
        0 <= i <= j < cands.len(),
    ensures
        ({
            let (a, b) = (ranked(cands)[i], ranked(cands)[j]);
            &&& a.hidden ==> b.hidden
            &&& a.hidden == b.hidden ==> a.slashes <= b.slashes
            &&& a.hidden == b.hidden && a.slashes == b.slashes ==> !text_lt(b.rel, a.rel)
        }),
{
    if i < j {
        law_sorted_items_ascend(rank_keys(cands), i, j);
    } else {
        lemma_text_lt_irreflexive(ranked(cands)[i].rel);
    }
}

/// Ranking loses no copy and makes up none.
pub proof fn law_ranking_keeps_the_copies(cands: Seq<CandidateView>)
    requires
        cands.len() <= usize::MAX,
    ensures
        ranked(cands).len() == cands.len(),
        forall|c: CandidateView| #[trigger] ranked(cands).contains(c) <==> cands.contains(c),
{
    let keys = rank_keys(cands);
    let all = ranked(cands);
    law_stable_order_exists(keys);
    assert forall|c: CandidateView| #[trigger] all.contains(c) <==> cands.contains(c) by {
        if all.contains(c) {
            let i = choose|i: int| 0 <= i < all.len() && all[i] == c;
            assert(cands[the_order(keys)[i] as int] == c);
        }
        if cands.contains(c) {
            let p = choose|p: int| 0 <= p < cands.len() && cands[p] == c;
            law_stable_order_is_complete(keys, the_order(keys), p);
            let i = choose|i: int| 0 <= i < the_order(keys).len() && the_order(keys)[i] == p;
            assert(all[i] == c);
        }
    }
}

/// A copy is as deep as its path has slashes, one more for each name further down, and
/// hidden where a name on its path is: a path below a hidden directory is hidden, and so
/// is a hidden name in any directory.
pub proof fn law_depth_and_hiding_go_by_the_names(dir: Seq<char>, name: Seq<char>)
    requires
        !name.contains('/'),
    ensures
        slash_count(name) == 0,
        slash_count(dir + seq!['/'] + name) == slash_count(dir) + 1,
        hidden_path(dir + seq!['/'] + name) == (hidden_path(dir) || hidden_path(name)),
        hidden_path(name) == (name.len() > 0 && name[0] == '.'),
{
    reveal_strlit(".");
    assert("."@ =~= seq!['.']);
    let path = dir + seq!['/'] + name;
    lemma_slashes_add(dir, name);
    lemma_no_slashes(name);
    lemma_pieces_concat(dir, name, '/');
    lemma_pieces_of_plain(name, '/');
    let (dp, np) = (pieces(dir, '/'), pieces(name, '/'));
    let all = dp + np;
    assert(np =~= seq![name]);
    if hidden_path(name) {
        assert(has_prefix(np[0], "."@));
        assert(name.subrange(0, 1)[0] == name[0]);
        assert(has_prefix(all[dp.len() as int], "."@));
    }
    if name.len() > 0 && name[0] == '.' {
        assert(name.subrange(0, 1) =~= "."@);
        assert(has_prefix(np[0], "."@));
    }
    if hidden_path(dir) {
        let i = choose|i: int| 0 <= i < dp.len() && has_prefix(#[trigger] dp[i], "."@);
        assert(has_prefix(all[i], "."@));
    }
    if hidden_path(path) {
        let i = choose|i: int| 0 <= i < all.len() && has_prefix(#[trigger] all[i], "."@);
        if i < dp.len() {
            assert(has_prefix(dp[i], "."@));
        } else {
            assert(has_prefix(np[i - dp.len()], "."@));
        }
    }
}

proof fn lemma_slashes_add(dir: Seq<char>, name: Seq<char>)
    requires
        !name.contains('/'),
    ensures
        slash_count(dir + seq!['/'] + name) == slash_count(dir) + 1,
    decreases name.len(),
{
    let path = dir + seq!['/'] + name;
    if name.len() == 0 {
        assert(path.drop_last() =~= dir);
    } else {
        let init = name.drop_last();
        assert(name.contains(name.last()));
        assert(!init.contains('/')) by {
            if init.contains('/') {
                let k = choose|k: int| 0 <= k < init.len() && init[k] == '/';
                assert(name[k] == '/');
            }
        }
        lemma_slashes_add(dir, init);
        assert(path.drop_last() =~= dir + seq!['/'] + init);
        assert(path.last() == name.last());
    }
}

proof fn lemma_no_slashes(name: Seq<char>)
    requires
        !name.contains('/'),
    ensures
        slash_count(name) == 0,
    decreases name.len(),
{
    if name.len() > 0 {
        let init = name.drop_last();
        assert(name.contains(name.last()));
        assert(!init.contains('/')) by {
            if init.contains('/') {
                let k = choose|k: int| 0 <= k < init.len() && init[k] == '/';
                assert(name[k] == '/');
            }
        }
        lemma_no_slashes(init);
    }
}

/// A set of duplicates holds at least two copies: nothing that there is only one of is
/// ever removed.
pub proof fn law_sets_hold_two_copies(
    keys: Seq<(Seq<char>, Seq<char>)>,
    copies: Seq<CopyView>,
    i: int,
)
    requires
        0 <= i < sets_of(keys, copies).len(),
    ensures
        sets_of(keys, copies)[i].cands.len() >= 2,
    decreases keys.len(),
{
    let before = sets_of(keys.drop_last(), copies);
    if i < before.len() {
        law_sets_hold_two_copies(keys.drop_last(), copies, i);
    }
}

/// Every content with more than one copy is in a set.
pub proof fn law_every_duplicate_is_in_a_set(copies: Seq<CopyView>, a: int, b: int)
    requires
        copies.len() <= usize::MAX,
        0 <= a < b < copies.len(),
        copy_keys(copies)[a] == copy_keys(copies)[b],
    ensures
        exists|i: int|
            0 <= i < sets_of(members::<PairKey>(copy_keys(copies)), copies).len() && (
            #[trigger] sets_of(members::<PairKey>(copy_keys(copies)), copies)[i]).key == copy_keys(
                copies,
            )[a],
{
    let ck = copy_keys(copies);
    let k = ck[a];
    law_members_are_listed::<PairKey>(ck);
    assert(ck.contains(k));
    let keys = members::<PairKey>(ck);
    let p = choose|p: int| 0 <= p < keys.len() && keys[p] == k;
    let places = places_of(ck, k);
    lemma_places(ck, k);
    assert(places.contains(a as usize) && places.contains(b as usize));
    let x = choose|x: int| 0 <= x < places.len() && places[x] == a as usize;
    let y = choose|y: int| 0 <= y < places.len() && places[y] == b as usize;
    assert(x != y);
    lemma_set_of_key(keys, copies, p);
}

proof fn lemma_set_of_key(keys: Seq<(Seq<char>, Seq<char>)>, copies: Seq<CopyView>, p: int)
    requires
        0 <= p < keys.len(),
        places_of(copy_keys(copies), keys[p]).len() >= 2,
    ensures
        exists|i: int|
            0 <= i < sets_of(keys, copies).len() && (#[trigger] sets_of(keys, copies)[i]).key
                == keys[p],
    decreases keys.len(),
{
    let init = keys.drop_last();
    let before = sets_of(init, copies);
    let all = sets_of(keys, copies);
    if p < init.len() {
        lemma_set_of_key(init, copies, p);
        let i = choose|i: int| 0 <= i < before.len() && (#[trigger] before[i]).key == init[p];
        assert(all[i] == before[i]);
    } else {
        assert(all[all.len() - 1].key == keys[p]);
    }
}

/// A directory belongs to the root with the most parts among those that it lies under,
/// the last of those with as many; to none exactly where it lies under none.
pub proof fn law_owner_is_the_deepest_root(roots: Seq<Seq<char>>, dir: Seq<char>, j: int)
    requires
        0 <= j < roots.len(),
    ensures
        match owner_among(roots, dir) {
            Some(i) => {
                &&& 0 <= i < roots.len()
                &&& is_under(dir, roots[i])
                &&& is_under(dir, roots[j]) ==> comps(roots[j]).len() <= comps(roots[i]).len()
                &&& is_under(dir, roots[j]) && comps(roots[j]).len() == comps(roots[i]).len() ==> j
                    <= i
            },
            None => !is_under(dir, roots[j]),
        },
    decreases roots.len(),
{
    let init = roots.drop_last();
    if init.len() > 0 {
        law_owner_is_the_deepest_root(
            init,
            dir,
            if j < init.len() {
                j
            } else {
                0
            },
        );
        if let Some(i) = owner_among(init, dir) {
            assert(init[i] == roots[i]);
        }
        if j < init.len() {
            assert(init[j] == roots[j]);
        }
    }
    assert(roots[roots.len() - 1] == roots.last());
}

/// A copy is a file of a root: where it is, what it is called below the root, and what
/// it is ranked by. It is shown with its root where there are several.
pub proof fn law_copy_is_a_file_of_its_root(root: Seq<char>, r: RecordView, multi: bool)
    requires
        slash_count(r.path) <= u64::MAX,
    ensures
        candidate_of(root, r, multi).abs == joined_path(root, r.path),
        candidate_of(root, r, multi).rel == r.path,
        candidate_of(root, r, multi).size == r.size,
        candidate_of(root, r, true).display == joined_path(root, r.path),
        candidate_of(root, r, false).display == r.path,
        candidate_of(root, r, multi).slashes == slash_count(r.path),
        candidate_of(root, r, multi).hidden <==> exists|i: int|
            0 <= i < pieces(r.path, '/').len() && (#[trigger] pieces(r.path, '/')[i]).len() > 0
                && pieces(r.path, '/')[i][0] == '.',
{
    reveal_strlit(".");
    assert("."@ =~= seq!['.']);
    let parts = pieces(r.path, '/');
    assert forall|i: int| 0 <= i < parts.len() implies has_prefix(#[trigger] parts[i], "."@) == (
    parts[i].len() > 0 && parts[i][0] == '.') by {
        let p = parts[i];
        if p.len() > 0 {
            assert(p.subrange(0, 1)[0] == p[0]);
            if p[0] == '.' {
                assert(p.subrange(0, 1) =~= "."@);
            }
        }
    }
}

/// The keys of the prompt. A digit is taken where a copy has a number that starts so,
/// and is shown; `s` and `a` settle the choice before a digit, in either case; a step
/// back takes the last digit off; enter settles a number that a copy has. Nothing else
/// does anything.
pub proof fn law_keys_of_the_prompt(typed: int, c: char, n: int)
    requires
        0 <= typed <= n,
        n < usize::MAX / 10 - 10,
    ensures
        c == 's' || c == 'S' ==> (key_step_of(typed, Key::Char(c), n).choice == Some(Choice::Skip)
            <==> typed == 0),
        c == 'a' || c == 'A' ==> (key_step_of(typed, Key::Char(c), n).choice == Some(Choice::Auto)
            <==> typed == 0),
        '0' <= c <= '9' && 1 <= typed * 10 + (c as int - 48) <= n ==> {
            &&& key_step_of(typed, Key::Char(c), n).typed == typed * 10 + (c as int - 48)
            &&& key_step_of(typed, Key::Char(c), n).echo == Some(c)
        },
        '0' <= c <= '9' && !(1 <= typed * 10 + (c as int - 48) <= n) ==> {
            &&& key_step_of(typed, Key::Char(c), n).typed == typed
            &&& key_step_of(typed, Key::Char(c), n).echo is None
            &&& key_step_of(typed, Key::Char(c), n).choice is None
        },
        !('0' <= c <= '9') && c != 's' && c != 'S' && c != 'a' && c != 'A' ==> key_step_of(
            typed,
            Key::Char(c),
            n,
        ) == key_step_of(typed, Key::Other, n),
        key_step_of(typed, Key::Backspace, n).typed == typed / 10,
        key_step_of(typed, Key::Backspace, n).erase <==> typed > 0,
        key_step_of(typed, Key::Backspace, n).choice is None,
        key_step_of(typed, Key::Enter, n).choice == (if typed >= 1 {
            Some(Choice::Keep((typed - 1) as usize))
        } else {
            None
        }),
        key_step_of(typed, Key::Enter, n).typed == typed,
        key_step_of(typed, Key::Other, n) == (KeyStep {
            typed: typed as usize,
            echo: None,
            erase: false,
            choice: None,
        }),
{
}

/// A line answers with the number of a copy, counted from one, or with `s` or `skip`,
/// or with `a` or `auto`; no other number is an answer.
pub proof fn law_answers_of_a_line(i: nat, n: int)
    requires
        0 <= n <= usize::MAX,
    ensures
        1 <= i <= n ==> answer_of(decimal(i), n) == Some(Choice::Keep((i - 1) as usize)),
        i == 0 || i > n ==> answer_of(decimal(i), n) is None,
        answer_of("s"@, n) == Some(Choice::Skip),
        answer_of("S"@, n) == Some(Choice::Skip),
        answer_of("skip"@, n) == Some(Choice::Skip),
        answer_of("a"@, n) == Some(Choice::Auto),
        answer_of("A"@, n) == Some(Choice::Auto),
        answer_of("auto"@, n) == Some(Choice::Auto),
{
    reveal_strlit("s");
    reveal_strlit("S");
    reveal_strlit("skip");
    reveal_strlit("a");
    reveal_strlit("A");
    reveal_strlit("auto");
    assert("s"@[0] == 's' && "S"@[0] == 'S' && "skip"@[0] == 's' && "a"@[0] == 'a' && "A"@[0] == 'A'
        && "auto"@[0] == 'a');
    law_decimal_reads_back(i);
    assert(is_digit(decimal(i)[0]));
}

/// What becomes of a removed copy: nothing in a dry run; otherwise it is removed, and a
/// pointer beside it says where the kept copy is, unless no pointers are wanted.
pub proof fn law_removed_copies_leave_pointers(
    removed: &str,
    kept: &str,
    opts: &DedupOptions,
    r: Removal,
)
    requires
        call_ensures(remove_one, (removed, kept, opts), r),
    ensures
        r is Nothing <==> opts.dry_run,
        r is Remove <==> !opts.dry_run && !opts.write_links,
        r is RemoveAndPoint <==> !opts.dry_run && opts.write_links,
        r is RemoveAndPoint ==> r->pointer@ == removed@ + ".dedup"@ && r->content@ == relative_path(
            parent_or_here(removed@),
            kept@,
        ) + "\n"@,
{
}

/// Of a set all copies but the kept one are removed, and the kept one is not.
pub proof fn law_all_copies_but_one_are_removed(
    set: &DupSet,
    keep: usize,
    opts: &DedupOptions,
    r: SetPlan,
    i: int,
)
    requires
        keep < set@.cands.len(),
        call_ensures(plan_set, (set, keep, opts), r),
        0 <= i < set@.cands.len(),
    ensures
        r.removals@.len() + 1 == set@.cands.len(),
        i != keep ==> exists|k: int|
            0 <= k < r.removals@.len() && (#[trigger] r.removals@[k]).abs@ == set@.cands[i].abs,
        (forall|j: int|
            0 <= j < set@.cands.len() && j != keep ==> (#[trigger] set@.cands[j]).abs
                != set@.cands[keep as int].abs) ==> forall|k: int|
            0 <= k < r.removals@.len() ==> (#[trigger] r.removals@[k]).abs@
                != set@.cands[keep as int].abs,
        opts.dry_run ==> forall|k: int|
            0 <= k < r.removals@.len() ==> (#[trigger] r.removals@[k]).removal is Nothing,
{
    if i != keep {
        let k = if i < keep {
            i
        } else {
            i - 1
        };
        assert(r.removals@[k].abs@ == set@.cands[i].abs);
    }
    assert forall|k: int| 0 <= k < r.removals@.len() implies exists|j: int|
        0 <= j < set@.cands.len() && j != keep && (#[trigger] set@.cands[j]).abs == (
        #[trigger] r.removals@[k]).abs@ by {
        let j = if k < keep {
            k
        } else {
            k + 1
        };
        assert(set@.cands[j].abs == r.removals@[k].abs@);
    }
}

/// The directories to look at again are those that a copy was removed from.
pub proof fn law_directories_of_removed_copies(cands: Seq<CandidateView>, keep: int, dir: Seq<char>)
    ensures
        removed_dirs(cands, keep).contains(dir) <==> exists|i: int|
            0 <= i < cands.len() && i != keep && parent_of((#[trigger] cands[i]).abs) == Some(dir),
    decreases cands.len(),
{
    if cands.len() > 0 {
        let init = cands.drop_last();
        let n = init.len() as int;
        let (before, all) = (removed_dirs(init, keep), removed_dirs(cands, keep));
        law_directories_of_removed_copies(init, keep, dir);
        assert(cands[n] == cands.last());
        if all.contains(dir) {
            let x = choose|x: int| 0 <= x < all.len() && all[x] == dir;
            if x < before.len() {
                assert(before[x] == dir);
                let i = choose|i: int|
                    0 <= i < init.len() && i != keep && parent_of((#[trigger] init[i]).abs) == Some(
                        dir,
                    );
                assert(cands[i] == init[i]);
            }
        }
        if exists|i: int|
            0 <= i < cands.len() && i != keep && parent_of((#[trigger] cands[i]).abs) == Some(dir) {
            let i = choose|i: int|
                0 <= i < cands.len() && i != keep && parent_of((#[trigger] cands[i]).abs) == Some(
                    dir,
                );
            if i < n {
                assert(init[i] == cands[i]);
                let x = choose|x: int| 0 <= x < before.len() && before[x] == dir;
                assert(all[x] == dir);
            } else {
                assert(all[before.len() as int] == dir);
            }
        }
    }
}

/// A line for each copy of a set names it by the number that it is chosen by, and says
/// of the first alone that it is kept without asking.
pub proof fn law_question_numbers_the_copies(set: &DupSet, r: Vec<String>, i: int)
    requires
        set.cands@.len() > 0,
        call_ensures(question, (set,), r),
        0 <= i < set@.cands.len(),
    ensures
        r@.len() == set@.cands.len() + 1,
        i == 0 ==> r@[i + 1]@ == "  "@ + decimal(1) + ") "@ + set@.cands[i].display
            + " (auto-keep)"@,
        i > 0 ==> r@[i + 1]@ == "  "@ + decimal((i + 1) as nat) + ") "@ + set@.cands[i].display,
{
    reveal_strlit("");
    let all = views(r@);
    assert(all.len() == r@.len());
    assert(all[i + 1] == r@[i + 1]@);
    assert(all[i + 1] == candidate_row(set@.cands[i], i));
    if i > 0 {
        assert(""@ =~= Seq::<char>::empty());
        let row = "  "@ + decimal((i + 1) as nat) + ") "@ + set@.cands[i].display;
        assert(row + ""@ =~= row);
    }
}

/// The copies of a set are reported one by one: the kept one, and each that is removed,
/// or would be in a dry run.
pub proof fn law_copies_are_reported(display: Seq<char>)
    ensures
        keep_text(display, false) == "  keep "@ + display,
        keep_text(display, true) == "  would keep "@ + display,
        removed_text(display, false) == "  removed "@ + display,
        removed_text(display, true) == "  would remove "@ + display,
{
}

/// The heading of a set names its content by the start of its hash, and says how many
/// copies there are and how large each is.
pub proof fn law_heading_names_the_content(set: SetView)
    requires
        set.cands.len() > 0,
    ensures
        set_heading(set) == "Duplicate set ["@ + set.key.0 + ":"@ + within_bytes(set.key.1, 12)
            + "] — "@ + decimal(set.cands.len()) + " copies, "@ + decimal(
            set.cands[0].size as nat,
        ) + " bytes each:"@,
{
}

/// What becomes of a set: without asking its best copy is kept, and so it is from the
/// moment on that this is chosen; a chosen copy is kept; a skipped set loses none. A
/// kept copy stands against all the others that are removed.
pub proof fn law_choice_settles_a_set(s: &mut Session, n: usize, choice: Choice, r: Option<usize>)
    requires
        n >= 2,
        call_ensures(Session::settle, (s, n, choice), r),
    ensures
        old(s).auto ==> r == Some(0usize) && final(s).auto,
        !old(s).auto && choice == Choice::Auto ==> r == Some(0usize) && final(s).auto,
        !old(s).auto && choice == Choice::Skip ==> r is None && !final(s).auto,
        !old(s).auto && choice is Keep ==> r == Some(choice->Keep_0) && !final(s).auto,
        final(s).sets == old(s).sets + 1,
        final(s).kept + final(s).skipped == old(s).kept + old(s).skipped + 1,
        r is Some ==> final(s).kept == old(s).kept + 1,
        r is Some ==> final(s).removed - old(s).removed == n - 1,
        r is None ==> final(s).removed == old(s).removed,
{
}

/// A session asks unless it is told not to, and starts with nothing counted.
pub proof fn law_session_starts_with_nothing(opts: &DedupOptions, r: Session)
    requires
        call_ensures(Session::start, (opts,), r),
    ensures
        r.auto <==> !opts.interactive,
        r.sets == 0 && r.kept == 0 && r.removed == 0 && r.skipped == 0,
{
}

/// The copies of some roots are all the files of their inventories, each with its
/// content and as a file of its root.
pub proof fn law_copies_are_the_files_of_the_roots(
    roots: Seq<Seq<char>>,
    inventories: Seq<Vec<InventoryRecord>>,
    multi: bool,
    i: int,
    k: int,
)
    requires
        roots.len() == inventories.len(),
        0 <= i < inventories.len(),
        0 <= k < inventories[i]@.len(),
    ensures
        exists|x: int|
            0 <= x < all_copies(roots, inventories, multi).len() && {
                let c = #[trigger] all_copies(roots, inventories, multi)[x];
                &&& c.key == (inventories[i]@[k].algo@, inventories[i]@[k].hash@)
                &&& c.cand.abs == joined_path(roots[i], inventories[i]@[k].path@)
                &&& c.cand.rel == inventories[i]@[k].path@
            },
    decreases inventories.len(),
{
    let init = inventories.drop_last();
    let n = init.len() as int;
    let all = all_copies(roots, inventories, multi);
    let before = all_copies(roots, init, multi);
    let own = root_copies(roots[n], record_views(inventories[n]@), multi);
    assert(all == before + own);
    if i < n {
        lemma_fewer_roots(roots, roots.drop_last(), init, multi);
        law_copies_are_the_files_of_the_roots(roots.drop_last(), init, multi, i, k);
        let x = choose|x: int|
            0 <= x < before.len() && {
                let c = #[trigger] before[x];
                &&& c.key == (init[i]@[k].algo@, init[i]@[k].hash@)
                &&& c.cand.abs == joined_path(roots.drop_last()[i], init[i]@[k].path@)
                &&& c.cand.rel == init[i]@[k].path@
            };
        assert(all[x] == before[x]);
    } else {
        assert(own[k].cand.rel == inventories[i]@[k].path@);
        assert(all[before.len() + k] == own[k]);
    }
}

proof fn lemma_fewer_roots(
    a: Seq<Seq<char>>,
    b: Seq<Seq<char>>,
    inventories: Seq<Vec<InventoryRecord>>,
    multi: bool,
)
    requires
        inventories.len() <= a.len(),
        inventories.len() <= b.len(),
        forall|i: int| 0 <= i < inventories.len() ==> #[trigger] a[i] == b[i],
    ensures
        all_copies(a, inventories, multi) == all_copies(b, inventories, multi),
    decreases inventories.len(),
{
    if inventories.len() > 0 {
        lemma_fewer_roots(a, b, inventories.drop_last(), multi);
        let n = inventories.len() - 1;
        assert(a[n] == b[n]);
    }
}

} // verus!
