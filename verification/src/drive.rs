//! The identity of drives.
//!
//! The root of a drive carries a marker with an id that travels with it, so that
//! the index can tell whether the drive is there.
use vstd::prelude::*;

use crate::manifest::DRIVE_MARKER_NAME;
use crate::paths::{components, comps, file_name, file_name_of, join, joined_path};
use crate::text::{text_eq, views};

verus! {

/// What the marker of a drive holds.
#[derive(Clone, Debug, PartialEq, Eq)]
pub struct DriveMarker {
    pub drive_id: String,
    pub label: String,
}

/// The path of the marker of a root.
pub fn marker_path(root: &str) -> (r: String)
    ensures
        r@ == joined_path(root@, DRIVE_MARKER_NAME@),
{
    join(root, DRIVE_MARKER_NAME)
}

/// What follows the first `Volumes` that something follows, from `i` on.
pub open spec fn volume_name(parts: Seq<Seq<char>>, i: int) -> Option<Seq<char>>
    decreases parts.len() - i,
{
    if i < 0 || i + 1 >= parts.len() {
        None
    } else if parts[i] == "Volumes"@ {
        Some(parts[i + 1])
    } else {
        volume_name(parts, i + 1)
    }
}

/// The label of a root: the name of the volume that it is on, else its own name.
pub open spec fn label_of(abs: Seq<char>) -> Seq<char> {
    match volume_name(comps(abs), 0) {
        Some(v) => v,
        None => match file_name_of(abs) {
            Some(n) => n,
            None => "root"@,
        },
    }
}

/// The label of a root, given by its absolute path.
pub fn derive_label(abs: &str) -> (r: String)
    ensures
        r@ == label_of(abs@),
{
    let parts: Vec<String> = components(abs);
    let n: usize = parts.len();
    let ghost pv = comps(abs@);
    assert(pv.len() == n) by {
        assert(views(parts@).len() == parts@.len());
    }
    let mut i: usize = 0;
    while i < n && i + 1 < n
        invariant
            n == parts@.len(),
            n == pv.len(),
            i <= n,
            pv == comps(abs@),
            views(parts@) == pv,
            volume_name(pv, 0) == volume_name(pv, i as int),
        decreases n - i,
    {
        assert(pv[i as int] == parts@[i as int]@);
        assert(pv[i + 1] == parts@[i + 1]@);
        if text_eq(parts[i].as_str(), "Volumes") {
            return parts[i + 1].clone();
        }
        i += 1;
    }
    match file_name(abs) {
        Some(f) => f,
        None => "root".to_owned(),
    }
}

/// A lowercase hexadecimal digit.
pub open spec fn is_hex_digit(c: char) -> bool {
    ('0' <= c && c <= '9') || ('a' <= c && c <= 'f')
}

/// The text is written as a random id is: lowercase hexadecimal digits in groups of 8,
/// 4, 4, 4 and 12 with hyphens between them, the third group starting with the version,
/// 4, and the fourth with the variant.
pub open spec fn is_random_id(s: Seq<char>) -> bool {
    &&& s.len() == 36
    &&& forall|i: int|
        0 <= i < 36 ==> if i == 8 || i == 13 || i == 18 || i == 23 {
            #[trigger] s[i] == '-'
        } else {
            is_hex_digit(s[i])
        }
    &&& s[14] == '4'
    &&& s[19] == '8' || s[19] == '9' || s[19] == 'a' || s[19] == 'b'
}

/// A random id for a drive or a group, through `Uuid::new_v4` and `to_string`: the
/// hyphenated form of a version 4 id. Which one it is rests on chance.
#[verifier::external_body]
pub(crate) fn fresh_id() -> (r: String)
    ensures
        is_random_id(r@),
{
    uuid::Uuid::new_v4().to_string()
}

/// A fresh id for a group of linked contents.
pub fn fresh_group_id() -> (r: String)
    ensures
        is_random_id(r@),
{
    fresh_id()
}

/// The marker of a drive with a given id.
pub fn new_marker(drive_id: String, abs_root: &str) -> (r: DriveMarker)
    ensures
        r.drive_id == drive_id,
        r.label@ == label_of(abs_root@),
{
    DriveMarker { drive_id, label: derive_label(abs_root) }
}

/// The marker of a root, and whether it has to be written: the one that was read,
/// where it has an id, else a new one.
pub fn load_or_create(found: Option<DriveMarker>, abs_root: &str) -> (r: (DriveMarker, bool))
    ensures
        match found {
            Some(m) => if m.drive_id@.len() > 0 {
                r == (m, false)
            } else {
                r.1 && is_random_id(r.0.drive_id@) && r.0.label@ == label_of(abs_root@)
            },
            None => r.1 && is_random_id(r.0.drive_id@) && r.0.label@ == label_of(abs_root@),
        },
{
    if let Some(m) = found {
        if !m.drive_id.as_str().is_empty() {
            return (m, false);
        }
    }
    (new_marker(fresh_id(), abs_root), true)
}

/// Whether a drive is there: its last root is known and carries a marker with its
/// id.
pub fn probe(last_root: &str, marker: &Option<DriveMarker>, drive_id: &str) -> (r: bool)
    ensures
        r == (last_root@.len() > 0 && (marker matches Some(m) && m.drive_id@ == drive_id@)),
{
    if last_root.is_empty() {
        return false;
    }
    match marker {
        Some(m) => text_eq(m.drive_id.as_str(), drive_id),
        None => false,
    }
}

/// The state to write for a drive, where it changed.
pub fn presence_change(online: bool, probed: bool) -> (r: Option<bool>)
    ensures
        r == (if online != probed {
            Some(probed)
        } else {
            None
        }),
{
    if online != probed {
        Some(probed)
    } else {
        None
    }
}

/// A drive is called as the volume that its root lies on, the name behind the first
/// `Volumes` of its path; without one as its root, and `root` where that has no name.
pub proof fn law_drive_is_called_as_its_volume(abs: Seq<char>, i: int)
    ensures
        0 <= i && i + 1 < comps(abs).len() && comps(abs)[i] == "Volumes"@ && (forall|k: int|
            0 <= k < i ==> #[trigger] comps(abs)[k] != "Volumes"@) ==> label_of(abs) == comps(
            abs,
        )[i + 1],
        (forall|k: int|
            0 <= k && k + 1 < comps(abs).len() ==> #[trigger] comps(abs)[k] != "Volumes"@)
            ==> label_of(abs) == (match file_name_of(abs) {
            Some(n) => n,
            None => "root"@,
        }),
{
    let parts = comps(abs);
    if 0 <= i && i + 1 < parts.len() && parts[i] == "Volumes"@ && (forall|k: int|
        0 <= k < i ==> #[trigger] parts[k] != "Volumes"@) {
        lemma_first_volume(parts, 0, i);
    }
    if forall|k: int| 0 <= k && k + 1 < parts.len() ==> #[trigger] parts[k] != "Volumes"@ {
        lemma_no_volume(parts, 0);
    }
}

proof fn lemma_first_volume(parts: Seq<Seq<char>>, from: int, i: int)
    requires
        0 <= from <= i,
        i + 1 < parts.len(),
        parts[i] == "Volumes"@,
        forall|k: int| from <= k < i ==> #[trigger] parts[k] != "Volumes"@,
    ensures
        volume_name(parts, from) == Some(parts[i + 1]),
    decreases i - from,
{
    if from < i {
        assert(parts[from] != "Volumes"@);
        lemma_first_volume(parts, from + 1, i);
    }
}

proof fn lemma_no_volume(parts: Seq<Seq<char>>, from: int)
    requires
        0 <= from,
        forall|k: int| from <= k && k + 1 < parts.len() ==> #[trigger] parts[k] != "Volumes"@,
    ensures
        volume_name(parts, from) is None,
    decreases parts.len() - from,
{
    if from + 1 < parts.len() {
        assert(parts[from] != "Volumes"@);
        lemma_no_volume(parts, from + 1);
    }
}

/// A drive is there where its root carries its own marker; its state changes where that
/// is not what is known of it, and then to what was found.
pub proof fn law_drive_is_where_its_marker_is(
    last_root: &str,
    marker: &Option<DriveMarker>,
    drive_id: &str,
    online: bool,
    probed: bool,
    change: Option<bool>,
)
    requires
        call_ensures(probe, (last_root, marker, drive_id), probed),
        call_ensures(presence_change, (online, probed), change),
    ensures
        probed ==> last_root@.len() > 0 && *marker is Some && (*marker)->0.drive_id@ == drive_id@,
        last_root@.len() == 0 || *marker is None ==> !probed,
        *marker is Some && (*marker)->0.drive_id@ == drive_id@ && last_root@.len() > 0 ==> probed,
        change is Some <==> online != probed,
        change is Some ==> change->0 == probed,
{
}

/// A marker that is found and has an id is kept; otherwise a new one is made and has to
/// be written.
pub proof fn law_found_marker_is_kept(
    found: Option<DriveMarker>,
    abs_root: &str,
    r: (DriveMarker, bool),
)
    requires
        call_ensures(load_or_create, (found, abs_root), r),
    ensures
        found is Some && found->0.drive_id@.len() > 0 ==> r.0 == found->0 && !r.1,
        found is None || found->0.drive_id@.len() == 0 ==> r.1 && r.0.drive_id@.len() == 36
            && r.0.label@ == label_of(abs_root@),
{
}

/// The marker of a drive lies in its root.
pub proof fn law_marker_lies_in_the_root(root: &str, r: String)
    requires
        call_ensures(marker_path, (root,), r),
    ensures
        r@ == joined_path(root@, ".hashit-drive"@),
{
}

} // verus!
