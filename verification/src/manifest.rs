//! The per-directory manifest: one record for each file directly in a directory.
use vstd::arithmetic::div_mod::lemma_div_denominator;
use vstd::prelude::*;

use crate::civil::date_at;
use crate::number::{all_digits, digits_value};
use crate::pathmap::{path_id, with_value, PathId, PathMap};
use crate::paths::{file_name, file_name_of, parent, parent_of};
use crate::text::{
    has_prefix, is_digit, law_parts_are_what_stands_in_a_text, starts_with, text_eq, views,
};
use crate::textmap::TextMap;

verus! {

/// The name of the manifest file.
pub const MANIFEST_NAME: &'static str = ".hashit";

/// What the names of the files start with that an atomic save leaves for a moment.
pub const MANIFEST_TMP_PREFIX: &'static str = ".hashit.tmp.";

/// The name of the identity marker at the root of a drive.
pub const DRIVE_MARKER_NAME: &'static str = ".hashit-drive";

/// The version of the format on disk.
pub const MANIFEST_VERSION: u32 = 1;

/// The name is that of a manifest, of a file of an unfinished save, or of a drive
/// marker.
pub open spec fn managed_name(name: Seq<char>) -> bool {
    name == ".hashit"@ || name == ".hashit-drive"@ || has_prefix(name, ".hashit.tmp."@)
}

/// Whether a name is one that manifests never list.
pub fn is_manifest_file(name: &str) -> (r: bool)
    ensures
        r == managed_name(name@),
{
    text_eq(name, MANIFEST_NAME) || text_eq(name, DRIVE_MARKER_NAME) || starts_with(
        name,
        MANIFEST_TMP_PREFIX,
    )
}

/// The record of one file.
#[derive(Clone, Debug, PartialEq, Eq)]
pub struct FileEntry {
    pub size: u64,
    /// Modified time in nanoseconds since the Unix epoch, 0 if unavailable.
    pub mtime_ns: u64,
    pub hash: String,
    /// The algorithm of `hash`.
    pub algo: String,
    /// Attributes such as `symlink`, `executable`, `hidden`, `readonly`.
    pub flags: Vec<String>,
    /// When the hash was computed, RFC 3339.
    pub hashed_at: String,
}

/// What a record holds.
#[verifier::ext_equal]
pub struct EntryView {
    pub size: u64,
    pub mtime_ns: u64,
    pub hash: Seq<char>,
    pub algo: Seq<char>,
    pub flags: Seq<Seq<char>>,
    pub hashed_at: Seq<char>,
}

impl View for FileEntry {
    type V = EntryView;

    open spec fn view(&self) -> EntryView {
        EntryView {
            size: self.size,
            mtime_ns: self.mtime_ns,
            hash: self.hash@,
            algo: self.algo@,
            flags: views(self.flags@),
            hashed_at: self.hashed_at@,
        }
    }
}

/// A copy of a list of texts.
pub fn copy_texts(v: &Vec<String>) -> (r: Vec<String>)
    ensures
        views(r@) == views(v@),
{
    let mut out: Vec<String> = Vec::new();
    let mut i: usize = 0;
    while i < v.len()
        invariant
            i <= v@.len(),
            out@.len() == i,
            forall|k: int| 0 <= k < i ==> (#[trigger] out@[k])@ == v@[k]@,
        decreases v@.len() - i,
    {
        out.push(v[i].clone());
        i += 1;
    }
    assert(views(out@) =~= views(v@));
    out
}

/// Whether two lists hold the same texts.
pub fn same_texts(a: &Vec<String>, b: &Vec<String>) -> (r: bool)
    ensures
        r == (views(a@) == views(b@)),
{
    if a.len() != b.len() {
        assert(views(a@).len() != views(b@).len());
        return false;
    }
    let mut i: usize = 0;
    while i < a.len()
        invariant
            i <= a@.len() == b@.len(),
            forall|k: int| 0 <= k < i ==> (#[trigger] a@[k])@ == b@[k]@,
        decreases a@.len() - i,
    {
        if !text_eq(a[i].as_str(), b[i].as_str()) {
            assert(views(a@)[i as int] != views(b@)[i as int]);
            return false;
        }
        i += 1;
    }
    assert(views(a@) =~= views(b@));
    true
}

impl FileEntry {
    pub fn copy(&self) -> (r: FileEntry)
        ensures
            r@ == self@,
    {
        FileEntry {
            size: self.size,
            mtime_ns: self.mtime_ns,
            hash: self.hash.clone(),
            algo: self.algo.clone(),
            flags: copy_texts(&self.flags),
            hashed_at: self.hashed_at.clone(),
        }
    }

    /// Whether two records hold the same.
    pub fn same(&self, other: &FileEntry) -> (r: bool)
        ensures
            r == (self@ == other@),
    {
        self.size == other.size && self.mtime_ns == other.mtime_ns && text_eq(
            self.hash.as_str(),
            other.hash.as_str(),
        ) && text_eq(self.algo.as_str(), other.algo.as_str()) && same_texts(
            &self.flags,
            &other.flags,
        ) && text_eq(self.hashed_at.as_str(), other.hashed_at.as_str())
    }
}

/// Whether two sets of records hold the same.
pub fn same_files(a: &TextMap<FileEntry>, b: &TextMap<FileEntry>) -> (r: bool)
    ensures
        r == (a@ == b@),
{
    let n: usize = a.len();
    let m: usize = b.len();
    let mut i: usize = 0;
    while i < n
        invariant
            n == a.keys().len(),
            i <= n,
            forall|k: int|
                0 <= k < i ==> b@.dom().contains(#[trigger] a.keys()[k]) && b@[a.keys()[k]]
                    == a@[a.keys()[k]],
        decreases n - i,
    {
        let name: &String = a.key_at(i);
        let here: &FileEntry = a.value_at(i);
        match b.get(name.as_str()) {
            None => return false,
            Some(there) => if !here.same(there) {
                return false;
            },
        }
        i += 1;
    }
    let mut j: usize = 0;
    while j < m
        invariant
            m == b.keys().len(),
            j <= m,
            forall|k: int| 0 <= k < j ==> a@.dom().contains(#[trigger] b.keys()[k]),
        decreases m - j,
    {
        let name: &String = b.key_at(j);
        if !a.contains(name.as_str()) {
            return false;
        }
        j += 1;
    }
    assert(a@ =~= b@) by {
        assert forall|k: Seq<char>| a@.dom().contains(k) implies b@.dom().contains(k) && a@[k]
            == b@[k] by {
            let i = choose|i: int| 0 <= i < a.keys().len() && a.keys()[i] == k;
            assert(b@.dom().contains(a.keys()[i]));
        }
        assert forall|k: Seq<char>| b@.dom().contains(k) implies a@.dom().contains(k) by {
            let i = choose|i: int| 0 <= i < b.keys().len() && b.keys()[i] == k;
            assert(a@.dom().contains(b.keys()[i]));
        }
    }
    true
}

/// The records of one directory.
#[derive(Debug)]
pub struct Manifest {
    pub version: u32,
    pub updated_at: String,
    pub files: TextMap<FileEntry>,
}

impl Manifest {
    /// A manifest written at a given time.
    pub fn at(files: TextMap<FileEntry>, updated_at: String) -> (r: Self)
        ensures
            r.version == MANIFEST_VERSION,
            r.updated_at == updated_at,
            r.files == files,
    {
        Manifest { version: MANIFEST_VERSION, updated_at, files }
    }

    /// A manifest written now.
    pub fn new(files: TextMap<FileEntry>) -> (r: Self)
        ensures
            r.version == MANIFEST_VERSION,
            is_stamp(r.updated_at@),
            r.files == files,
    {
        Manifest::at(files, now_rfc3339())
    }
}

/// The text is a time as the clock gives it: in RFC 3339, UTC, with microseconds. A
/// year of more than four digits has a sign before it and makes the text longer.
pub open spec fn is_stamp(s: Seq<char>) -> bool {
    &&& s.len() >= 27
    &&& s.last() == 'Z'
    &&& s[0] != '+' ==> s.len() == 27 && exists|ns: int| 0 <= ns && s == #[trigger] utc_text(ns)
}

/// The current UTC time in RFC 3339 with microseconds, through `chrono::Utc::now`
/// and `to_rfc3339_opts`. Which time it is rests on the clock, and the form on the
/// year that the clock is in.
#[verifier::external_body]
pub fn now_rfc3339() -> (r: String)
    ensures
        is_stamp(r@),
{
    chrono::Utc::now().to_rfc3339_opts(chrono::SecondsFormat::Micros, true)
}

/// The last `width` digits of a number, with zeros in front where it has fewer.
pub open spec fn padded(n: int, width: nat) -> Seq<char>
    decreases width,
{
    if width == 0 {
        Seq::empty()
    } else {
        padded(n / 10, (width - 1) as nat).push((n % 10 + '0' as int) as char)
    }
}

/// The UTC time at some nanoseconds after the Unix epoch in RFC 3339, cut to
/// microseconds.
pub open spec fn utc_text(ns: int) -> Seq<char> {
    let date = date_at(719_163 + ns / 86_400_000_000_000);
    let secs = (ns / 1_000_000_000) % 86400;
    padded(date.year as int, 4) + seq!['-'] + padded(date.month as int, 2) + seq!['-'] + padded(
        date.day as int,
        2,
    ) + seq!['T'] + padded(secs / 3600, 2) + seq![':'] + padded((secs / 60) % 60, 2) + seq![':']
        + padded(secs % 60, 2) + seq!['.'] + padded((ns / 1000) % 1_000_000, 6) + seq!['Z']
}

/// A time after the Unix epoch in RFC 3339, through `DateTime::from_timestamp` and
/// `to_rfc3339_opts`: UTC, cut to microseconds. `None` would mean a time that is
/// out of range, which no number of nanoseconds in 64 bits is.
#[verifier::external_body]
fn timestamp_rfc3339(secs: i64, nanos: u32) -> (r: Option<String>)
    requires
        0 <= secs <= 18_446_744_074,
        nanos < 1_000_000_000,
    ensures
        r is Some,
        r matches Some(s) ==> s@ == utc_text(secs * 1_000_000_000 + nanos),
{
    let t = chrono::DateTime::from_timestamp(secs, nanos)?;
    Some(t.to_rfc3339_opts(chrono::SecondsFormat::Micros, true))
}

/// Nanoseconds after the Unix epoch in RFC 3339.
pub fn ns_to_rfc3339(ns: u64) -> (r: String)
    ensures
        r@ == utc_text(ns as int),
{
    let secs: i64 = (ns / 1_000_000_000) as i64;
    let nanos: u32 = (ns % 1_000_000_000) as u32;
    match timestamp_rfc3339(secs, nanos) {
        Some(s) => s,
        None => String::new(),
    }
}

/// The manifests of directories that were looked up before.
#[derive(Debug)]
pub struct ManifestCache {
    dirs: PathMap<TextMap<FileEntry>>,
}

impl View for ManifestCache {
    type V = Map<PathId, (Seq<char>, Map<Seq<char>, EntryView>)>;

    closed spec fn view(&self) -> Map<PathId, (Seq<char>, Map<Seq<char>, EntryView>)> {
        self.dirs@
    }
}

impl ManifestCache {
    pub fn new() -> (r: Self)
        ensures
            r@ == Map::<PathId, (Seq<char>, Map<Seq<char>, EntryView>)>::empty(),
    {
        ManifestCache { dirs: PathMap::new() }
    }

    /// The directory whose manifest has to be read before `file` can be looked up:
    /// none where it is cached, or where the path names no file in a directory.
    pub fn missing_dir(&self, file: &str) -> (r: Option<String>)
        ensures
            match r {
                Some(d) => parent_of(file@) == Some(d@) && file_name_of(file@) is Some
                    && !self@.dom().contains(path_id(d@)),
                None => parent_of(file@) is None || file_name_of(file@) is None
                    || self@.dom().contains(path_id(parent_of(file@)->0)),
            },
    {
        match (parent(file), file_name(file)) {
            (Some(d), Some(_)) => if self.dirs.contains(d.as_str()) {
                None
            } else {
                Some(d)
            },
            _ => None,
        }
    }

    /// Keeps the records of a directory; none where its manifest is missing or
    /// cannot be read.
    pub fn remember(&mut self, dir: String, files: Option<TextMap<FileEntry>>)
        ensures
            final(self)@ == with_value(
                old(self)@,
                dir@,
                match files {
                    Some(f) => f@,
                    None => Map::empty(),
                },
            ),
    {
        match files {
            Some(f) => self.dirs.insert(dir, f),
            None => self.dirs.insert(dir, TextMap::new()),
        }
    }

    /// The record of a file, where its directory is cached and has one.
    pub fn entry_for(&self, file: &str) -> (r: Option<FileEntry>)
        ensures
            match r {
                Some(e) => {
                    &&& parent_of(file@) is Some && file_name_of(file@) is Some
                    &&& self@.dom().contains(path_id(parent_of(file@)->0))
                    &&& self@[path_id(parent_of(file@)->0)].1.dom().contains(file_name_of(file@)->0)
                    &&& e@ == self@[path_id(parent_of(file@)->0)].1[file_name_of(file@)->0]
                },
                None => {
                    ||| parent_of(file@) is None
                    ||| file_name_of(file@) is None
                    ||| !self@.dom().contains(path_id(parent_of(file@)->0))
                    ||| !self@[path_id(parent_of(file@)->0)].1.dom().contains(file_name_of(file@)->0)
                },
            },
    {
        match (parent(file), file_name(file)) {
            (Some(d), Some(n)) => match self.dirs.get(d.as_str()) {
                Some(files) => match files.get(n.as_str()) {
                    Some(e) => Some(e.copy()),
                    None => None,
                },
                None => None,
            },
            _ => None,
        }
    }
}

/// A padded number has as many digits as its width, and denotes the number where that
/// fits; the digits stand from the highest to the lowest.
pub proof fn law_padded_numbers_read_back(n: int, width: nat)
    requires
        0 <= n,
    ensures
        padded(n, width).len() == width,
        all_digits(padded(n, width)),
        width > 0 ==> padded(n, width).last() as int == 48 + n % 10,
        width > 0 ==> padded(n, width).drop_last() == padded(n / 10, (width - 1) as nat),
        width >= 1 && n < 10 ==> digits_value(padded(n, width)) == n,
        width >= 2 && n < 100 ==> digits_value(padded(n, width)) == n,
        width >= 4 && n < 10_000 ==> digits_value(padded(n, width)) == n,
        width >= 6 && n < 1_000_000 ==> digits_value(padded(n, width)) == n,
    decreases width,
{
    if width > 0 {
        let rest = padded(n / 10, (width - 1) as nat);
        let all = padded(n, width);
        law_padded_numbers_read_back(n / 10, (width - 1) as nat);
        assert(all.drop_last() =~= rest);
        assert forall|i: int| 0 <= i < all.len() implies is_digit(#[trigger] all[i]) by {
            if i < rest.len() {
                assert(all[i] == rest[i]);
            }
        }
        assert(is_digit(all.last()));
        if digits_value(rest) == n / 10 {
            assert(digits_value(all) == (n / 10) * 10 + n % 10);
        }
        lemma_small_padded(n / 10, (width - 1) as nat);
        lemma_small_padded(n, width);
    }
}

/// What fits in its width reads back.
proof fn lemma_small_padded(n: int, width: nat)
    requires
        0 <= n,
    ensures
        n == 0 ==> digits_value(padded(n, width)) == 0,
        width >= 1 && n < 10 ==> digits_value(padded(n, width)) == n,
        width >= 2 && n < 100 ==> digits_value(padded(n, width)) == n,
        width >= 3 && n < 1000 ==> digits_value(padded(n, width)) == n,
        width >= 4 && n < 10_000 ==> digits_value(padded(n, width)) == n,
        width >= 5 && n < 100_000 ==> digits_value(padded(n, width)) == n,
        width >= 6 && n < 1_000_000 ==> digits_value(padded(n, width)) == n,
    decreases width,
{
    if width > 0 {
        let rest = padded(n / 10, (width - 1) as nat);
        let all = padded(n, width);
        assert(all.drop_last() =~= rest);
        lemma_small_padded(n / 10, (width - 1) as nat);
    }
}

proof fn lemma_two_digits(n: int)
    requires
        0 <= n < 100,
    ensures
        padded(n, 2).len() == 2,
        digits_value(padded(n, 2)) == n,
{
    law_padded_numbers_read_back(n, 2);
}

proof fn lemma_times_of_day(ns: int)
    requires
        0 <= ns,
    ensures
        ({
            let secs = (ns / 1_000_000_000) % 86400;
            &&& 0 <= secs / 3600 < 24
            &&& secs / 3600 == ns / 3_600_000_000_000 % 24
            &&& (secs / 60) % 60 == ns / 60_000_000_000 % 60
            &&& secs % 60 == ns / 1_000_000_000 % 60
        }),
{
    let t = ns / 1_000_000_000;
    lemma_div_denominator(ns, 1_000_000_000, 3600);
    lemma_div_denominator(ns, 1_000_000_000, 60);
    lemma_within_a_day(t, t / 86400, t % 86400);
}

proof fn lemma_within_a_day(t: int, days: int, r: int)
    requires
        t == 86400 * days + r,
        0 <= days,
        0 <= r < 86400,
    ensures
        0 <= r / 3600 < 24,
        r / 3600 == t / 3600 % 24,
        (r / 60) % 60 == t / 60 % 60,
        r % 60 == t % 60,
{
    assert(t / 3600 == 24 * days + r / 3600);
    assert(t / 60 == 1440 * days + r / 60);
    let m = r / 60;
    assert((1440 * days + m) % 60 == m % 60);
}

proof fn lemma_stamp_parts(
    year: Seq<char>,
    month: Seq<char>,
    day: Seq<char>,
    hour: Seq<char>,
    min: Seq<char>,
    sec: Seq<char>,
    micros: Seq<char>,
)
    requires
        year.len() == 4,
        month.len() == 2,
        day.len() == 2,
        hour.len() == 2,
        min.len() == 2,
        sec.len() == 2,
        micros.len() == 6,
    ensures
        ({
            let s = year + seq!['-'] + month + seq!['-'] + day + seq!['T'] + hour + seq![':'] + min
                + seq![':'] + sec + seq!['.'] + micros + seq!['Z'];
            &&& s.len() == 27
            &&& s[4] == '-' && s[7] == '-' && s[10] == 'T' && s[13] == ':' && s[16] == ':' && s[19]
                == '.' && s[26] == 'Z'
            &&& s.subrange(0, 4) == year
            &&& s.subrange(5, 7) == month
            &&& s.subrange(8, 10) == day
            &&& s.subrange(11, 13) == hour
            &&& s.subrange(14, 16) == min
            &&& s.subrange(17, 19) == sec
            &&& s.subrange(20, 26) == micros
        }),
{
    let date = year + seq!['-'] + month + seq!['-'] + day;
    let time = hour + seq![':'] + min + seq![':'] + sec;
    let s = year + seq!['-'] + month + seq!['-'] + day + seq!['T'] + hour + seq![':'] + min
        + seq![':'] + sec + seq!['.'] + micros + seq!['Z'];
    assert(s =~= date + seq!['T'] + time + seq!['.'] + micros + seq!['Z']);
    assert(s.subrange(0, 4) =~= year);
    assert(s.subrange(5, 7) =~= month);
    assert(s.subrange(8, 10) =~= day);
    assert(s.subrange(11, 13) =~= hour);
    assert(s.subrange(14, 16) =~= min);
    assert(s.subrange(17, 19) =~= sec);
    assert(s.subrange(20, 26) =~= micros);
}

/// A time is written as its date, a `T`, its time of day to the microsecond, and `Z`.
pub proof fn law_time_is_written_as_date_and_time(ns: int)
    requires
        0 <= ns,
        date_at(719_163 + ns / 86_400_000_000_000).valid(),
        0 <= date_at(719_163 + ns / 86_400_000_000_000).year <= 9999,
    ensures
        ({
            let s = utc_text(ns);
            let date = date_at(719_163 + ns / 86_400_000_000_000);
            &&& s.len() == 27
            &&& s[4] == '-' && s[7] == '-' && s[10] == 'T' && s[13] == ':' && s[16] == ':' && s[19]
                == '.' && s[26] == 'Z'
            &&& digits_value(s.subrange(0, 4)) == date.year
            &&& digits_value(s.subrange(5, 7)) == date.month
            &&& digits_value(s.subrange(8, 10)) == date.day
            &&& digits_value(s.subrange(11, 13)) == ns / 3_600_000_000_000 % 24
            &&& digits_value(s.subrange(14, 16)) == ns / 60_000_000_000 % 60
            &&& digits_value(s.subrange(17, 19)) == ns / 1_000_000_000 % 60
            &&& digits_value(s.subrange(20, 26)) == ns / 1000 % 1_000_000
        }),
{
    let date = date_at(719_163 + ns / 86_400_000_000_000);
    let secs = (ns / 1_000_000_000) % 86400;
    let micros = (ns / 1000) % 1_000_000;
    lemma_two_digits(date.month as int);
    lemma_two_digits(date.day as int);
    lemma_two_digits(secs / 3600);
    lemma_two_digits((secs / 60) % 60);
    lemma_two_digits(secs % 60);
    law_padded_numbers_read_back(date.year as int, 4);
    law_padded_numbers_read_back(micros, 6);
    lemma_stamp_parts(
        padded(date.year as int, 4),
        padded(date.month as int, 2),
        padded(date.day as int, 2),
        padded(secs / 3600, 2),
        padded((secs / 60) % 60, 2),
        padded(secs % 60, 2),
        padded(micros, 6),
    );
    lemma_times_of_day(ns);
}

/// The record of a file is what the manifest of its directory has under its name; a
/// file is asked for only where the manifest of its directory was read.
pub proof fn law_record_is_that_of_the_manifest(
    cache: &ManifestCache,
    file: &str,
    r: Option<FileEntry>,
    missing: Option<String>,
)
    requires
        call_ensures(ManifestCache::entry_for, (cache, file), r),
        call_ensures(ManifestCache::missing_dir, (cache, file), missing),
    ensures
        r is Some ==> missing is None,
        missing is Some ==> parent_of(file@) == Some(missing->0@),
        parent_of(file@) is Some && file_name_of(file@) is Some && cache@.dom().contains(
            path_id(parent_of(file@)->0),
        ) ==> {
            let files = cache@[path_id(parent_of(file@)->0)].1;
            &&& r is Some <==> files.dom().contains(file_name_of(file@)->0)
            &&& r is Some ==> r->0@ == files[file_name_of(file@)->0]
        },
        parent_of(file@) is Some && file_name_of(file@) is Some && !cache@.dom().contains(
            path_id(parent_of(file@)->0),
        ) ==> r is None && missing is Some,
{
}

/// A manifest is of the first version, with the files and the time that it is given.
pub proof fn law_manifest_holds_its_files(
    files: TextMap<FileEntry>,
    updated_at: String,
    r: Manifest,
)
    requires
        call_ensures(Manifest::at, (files, updated_at), r),
    ensures
        r.version == 1,
        r.files@ == files@,
        r.updated_at@ == updated_at@,
{
}

/// What manifests never list: manifests, the files of their unfinished saves, and drive
/// markers.
pub proof fn law_managed_names(name: Seq<char>)
    ensures
        managed_name(name) <==> name == ".hashit"@ || name == ".hashit-drive"@ || exists|
            rest: Seq<char>,
        |
            name == ".hashit.tmp."@ + rest,
{
    law_parts_are_what_stands_in_a_text(name, ".hashit.tmp."@);
}

/// Two records are the same where every part of them is, and a change of any part makes
/// them differ.
pub proof fn law_records_are_compared_by_every_part(a: &FileEntry, b: &FileEntry, r: bool)
    requires
        call_ensures(FileEntry::same, (a, b), r),
    ensures
        r <==> {
            &&& a.size == b.size
            &&& a.mtime_ns == b.mtime_ns
            &&& a.hash@ == b.hash@
            &&& a.algo@ == b.algo@
            &&& views(a.flags@) == views(b.flags@)
            &&& a.hashed_at@ == b.hashed_at@
        },
{
}

} // verus!
