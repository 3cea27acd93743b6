//! Paths as texts, with `/` between their components.
//!
//! A path is absolute where it starts with `/`. Its components are what stands
//! between the slashes, without the empty ones and without `.`, but for a `.` that
//! the path starts with.
use vstd::prelude::*;

use crate::text::{
    chars_of, concat2, concat3, joined, join_all, law_joined_splits_back, lemma_pieces_concat,
    lemma_pieces_nonempty, lemma_pieces_of_plain, lemma_pieces_plain, lemma_views_push, pieces, split_all, text_between,
    text_eq, views,
};

verus! {

/// The path starts at the root.
pub open spec fn is_abs(p: Seq<char>) -> bool {
    p.len() > 0 && p[0] == '/'
}

/// The pieces from `i` on that are components.
pub open spec fn kept_pieces(parts: Seq<Seq<char>>, i: int) -> Seq<Seq<char>>
    decreases parts.len() - i,
{
    if i < 0 || i >= parts.len() {
        Seq::empty()
    } else if parts[i].len() == 0 || (parts[i] == "."@ && i > 0) {
        kept_pieces(parts, i + 1)
    } else {
        seq![parts[i]] + kept_pieces(parts, i + 1)
    }
}

/// The components of a path, without the root.
pub open spec fn comps(p: Seq<char>) -> Seq<Seq<char>> {
    kept_pieces(pieces(p, '/'), 0)
}

/// Two texts are the same path.
pub open spec fn same_path(a: Seq<char>, b: Seq<char>) -> bool {
    is_abs(a) == is_abs(b) && comps(a) == comps(b)
}

/// The path has neither a root nor components.
pub open spec fn is_nothing(p: Seq<char>) -> bool {
    !is_abs(p) && comps(p).len() == 0
}

/// The path lies at or under `base`; every path lies under the empty one.
pub open spec fn is_under(p: Seq<char>, base: Seq<char>) -> bool {
    &&& is_abs(p) == is_abs(base) || is_nothing(base)
    &&& comps(base).len() <= comps(p).len()
    &&& comps(p).take(comps(base).len() as int) == comps(base)
}

/// The piece at `i` is a component.
pub open spec fn is_comp(parts: Seq<Seq<char>>, i: int) -> bool {
    parts[i].len() > 0 && !(parts[i] == "."@ && i > 0)
}

/// The place of the component behind `n` others among the pieces from `i` on; behind
/// all pieces where there are no more.
pub open spec fn comp_place(parts: Seq<Seq<char>>, i: int, n: nat) -> int
    decreases parts.len() - i,
{
    if i < 0 || i >= parts.len() {
        parts.len() as int
    } else if !is_comp(parts, i) {
        comp_place(parts, i + 1, n)
    } else if n == 0 {
        i
    } else {
        comp_place(parts, i + 1, (n - 1) as nat)
    }
}

/// The place behind the last component among the first `k` pieces.
pub open spec fn comps_end(parts: Seq<Seq<char>>, k: int) -> int
    decreases k,
{
    if k <= 0 {
        0
    } else if is_comp(parts, k - 1) {
        k
    } else {
        comps_end(parts, k - 1)
    }
}

/// What a path holds behind its first `n` components, from the next component to the
/// last, as it is written there.
pub open spec fn below(p: Seq<char>, n: nat) -> Seq<char> {
    let parts = pieces(p, '/');
    let (from, to) = (comp_place(parts, 0, n), comps_end(parts, parts.len() as int));
    if from < to {
        joined(parts.subrange(from, to), "/"@)
    } else {
        Seq::empty()
    }
}

/// The path from `base` down to `p`, where `p` lies at or under it.
pub open spec fn relative(p: Seq<char>, base: Seq<char>) -> Option<Seq<char>> {
    if is_nothing(base) {
        Some(trim_tail(p))
    } else if is_under(p, base) {
        Some(below(p, comps(base).len()))
    } else {
        None
    }
}

/// The path from `base` down to `p`, or `p` itself where it does not lie under it.
pub open spec fn relative_or_whole(p: Seq<char>, base: Seq<char>) -> Seq<char> {
    match relative(p, base) {
        Some(r) => r,
        None => p,
    }
}

/// `b` seen from `a`.
pub open spec fn joined_path(a: Seq<char>, b: Seq<char>) -> Seq<char> {
    if is_abs(b) {
        b
    } else if a.len() > 0 && a.last() != '/' {
        a + "/"@ + b
    } else {
        a + b
    }
}

/// A component that names a file or directory.
pub open spec fn is_normal(c: Seq<char>) -> bool {
    c != "."@ && c != ".."@
}

/// The components that name something, from `i` on.
pub open spec fn normal_comps(parts: Seq<Seq<char>>, i: int) -> Seq<Seq<char>>
    decreases parts.len() - i,
{
    if i < 0 || i >= parts.len() {
        Seq::empty()
    } else if is_normal(parts[i]) {
        seq![parts[i]] + normal_comps(parts, i + 1)
    } else {
        normal_comps(parts, i + 1)
    }
}

/// The named components with single slashes between them.
pub open spec fn slashed(p: Seq<char>) -> Seq<char> {
    joined(normal_comps(comps(p), 0), "/"@)
}

/// The length of the root or of the `.` that a path starts with.
pub open spec fn head_len(p: Seq<char>) -> int {
    if p.len() > 0 && (p[0] == '/' || (p[0] == '.' && (p.len() == 1 || p[1] == '/'))) {
        1
    } else {
        0
    }
}

/// The path ends in a slash or in a `.` component.
pub open spec fn has_loose_tail(p: Seq<char>) -> bool {
    p.last() == '/' || (p.last() == '.' && (p.len() == 1 || p[p.len() - 2] == '/'))
}

/// The path without the slashes and `.` components at its end.
pub open spec fn trim_tail(p: Seq<char>) -> Seq<char>
    decreases p.len(),
{
    if p.len() > head_len(p) && has_loose_tail(p) {
        trim_tail(p.drop_last())
    } else {
        p
    }
}

/// Where the last component of a trimmed path starts: behind its last slash.
pub open spec fn last_start(p: Seq<char>) -> int
    decreases p.len(),
{
    if p.len() == 0 || p.last() == '/' {
        p.len() as int
    } else {
        last_start(p.drop_last())
    }
}

/// The last component, where it names a file or directory.
pub open spec fn file_name_of(p: Seq<char>) -> Option<Seq<char>> {
    let t = trim_tail(p);
    if t.len() <= head_len(t) || t.skip(last_start(t)) == ".."@ {
        None
    } else {
        Some(t.skip(last_start(t)))
    }
}

/// The path without its last component; none for the root and the empty path.
pub open spec fn parent_of(p: Seq<char>) -> Option<Seq<char>> {
    let t = trim_tail(p);
    if t.len() > head_len(t) {
        Some(trim_tail(t.take(last_start(t))))
    } else if t == "."@ {
        Some(Seq::empty())
    } else {
        None
    }
}

/// The directory that holds `p`: its parent, or the current directory where the
/// path has no parent or an empty one.
pub open spec fn dir_of(p: Seq<char>) -> Seq<char> {
    match parent_of(p) {
        Some(d) if d.len() > 0 => d,
        _ => "."@,
    }
}

/// Where the last dot of a name stands; -1 where there is none.
pub open spec fn last_dot(name: Seq<char>) -> int
    decreases name.len(),
{
    if name.len() == 0 {
        -1
    } else if name.last() == '.' {
        name.len() - 1
    } else {
        last_dot(name.drop_last())
    }
}

/// What stands behind the last dot of a name, unless the name starts with it.
pub open spec fn ext_of_name(name: Seq<char>) -> Option<Seq<char>> {
    let dot = last_dot(name);
    if dot <= 0 {
        None
    } else {
        Some(name.skip(dot + 1))
    }
}

/// What stands before the last dot of a name; the name itself where it has no
/// extension.
pub open spec fn stem_of_name(name: Seq<char>) -> Seq<char> {
    let dot = last_dot(name);
    if dot <= 0 {
        name
    } else {
        name.take(dot)
    }
}

/// The extension of a path's file name.
pub open spec fn extension_of(p: Seq<char>) -> Option<Seq<char>> {
    match file_name_of(p) {
        Some(n) => ext_of_name(n),
        None => None,
    }
}

/// Whether a path is absolute.
pub fn absolute(p: &str) -> (r: bool)
    ensures
        r == is_abs(p@),
{
    let c: Vec<char> = chars_of(p);
    c.len() > 0 && c[0] == '/'
}

/// The components of a path.
pub fn components(p: &str) -> (r: Vec<String>)
    ensures
        views(r@) == comps(p@),
{
    let parts: Vec<String> = split_all(p, '/');
    let ghost pv = pieces(p@, '/');
    let mut out: Vec<String> = Vec::new();
    let mut i: usize = 0;
    assert(views(out@) =~= Seq::<Seq<char>>::empty());
    assert(views(out@) + kept_pieces(pv, 0) =~= comps(p@));
    while i < parts.len()
        invariant
            i <= parts@.len(),
            pv == pieces(p@, '/'),
            views(parts@) == pv,
            views(out@) + kept_pieces(pv, i as int) == comps(p@),
        decreases parts@.len() - i,
    {
        let part: &String = &parts[i];
        assert(pv[i as int] == part@);
        if !(part.as_str().is_empty() || (i > 0 && text_eq(part.as_str(), "."))) {
            let ghost before = views(out@);
            let copy: String = part.clone();
            proof {
                lemma_views_push(out@, copy);
            }
            out.push(copy);
            assert(before + (seq![part@] + kept_pieces(pv, i + 1)) =~= views(out@) + kept_pieces(
                pv,
                i + 1,
            ));
        }
        i += 1;
    }
    assert(views(out@) + Seq::<Seq<char>>::empty() =~= views(out@));
    out
}

/// Whether the first list starts with the second.
fn list_starts(a: &Vec<String>, b: &Vec<String>) -> (r: bool)
    ensures
        r == (b@.len() <= a@.len() && views(a@).take(b@.len() as int) == views(b@)),
{
    if b.len() > a.len() {
        return false;
    }
    let mut i: usize = 0;
    while i < b.len()
        invariant
            i <= b@.len() <= a@.len(),
            forall|k: int| 0 <= k < i ==> views(a@)[k] == #[trigger] views(b@)[k],
        decreases b@.len() - i,
    {
        assert(views(a@)[i as int] == a@[i as int]@);
        assert(views(b@)[i as int] == b@[i as int]@);
        if !text_eq(a[i].as_str(), b[i].as_str()) {
            assert(views(a@).take(b@.len() as int)[i as int] != views(b@)[i as int]);
            return false;
        }
        i += 1;
    }
    assert(views(a@).take(b@.len() as int) =~= views(b@));
    true
}

/// Whether two texts are the same path.
pub fn path_eq(a: &str, b: &str) -> (r: bool)
    ensures
        r == same_path(a@, b@),
{
    let ca: Vec<String> = components(a);
    let cb: Vec<String> = components(b);
    let starts: bool = list_starts(&ca, &cb);
    assert(views(ca@).len() == ca@.len() && views(cb@).len() == cb@.len());
    assert(ca@.len() == cb@.len() ==> views(ca@).take(cb@.len() as int) =~= views(ca@));
    absolute(a) == absolute(b) && ca.len() == cb.len() && starts
}

/// Whether a path lies at or under another.
pub fn under(p: &str, base: &str) -> (r: bool)
    ensures
        r == is_under(p@, base@),
{
    let cp: Vec<String> = components(p);
    let cb: Vec<String> = components(base);
    let nothing: bool = !absolute(base) && cb.len() == 0;
    assert(views(cb@).len() == cb@.len());
    (absolute(p) == absolute(base) || nothing) && list_starts(&cp, &cb)
}

/// Whether the piece at a place is a component.
fn exec_is_comp(parts: &Vec<String>, i: usize) -> (r: bool)
    requires
        i < parts@.len(),
    ensures
        r == is_comp(views(parts@), i as int),
{
    let part: &String = &parts[i];
    assert(views(parts@)[i as int] == part@);
    !(part.as_str().is_empty() || (i > 0 && text_eq(part.as_str(), ".")))
}

/// What a path holds behind its first components.
fn below_text(p: &str, n: usize) -> (r: String)
    ensures
        r@ == below(p@, n as nat),
{
    let parts: Vec<String> = split_all(p, '/');
    let ghost pv = pieces(p@, '/');
    let len: usize = parts.len();
    let mut from: usize = 0;
    let mut left: usize = n;
    while from < len && !(left == 0 && exec_is_comp(&parts, from))
        invariant
            from <= len,
            len == parts@.len(),
            pv == views(parts@),
            comp_place(pv, from as int, left as nat) == comp_place(pv, 0, n as nat),
        decreases len - from,
    {
        if exec_is_comp(&parts, from) {
            left -= 1;
        }
        from += 1;
    }
    let mut to: usize = len;
    while to > 0 && !exec_is_comp(&parts, to - 1)
        invariant
            to <= len,
            len == parts@.len(),
            pv == views(parts@),
            comps_end(pv, to as int) == comps_end(pv, len as int),
        decreases to,
    {
        to -= 1;
    }
    let mut rest: Vec<String> = Vec::new();
    let mut i: usize = from;
    while i < to
        invariant
            from <= i,
            i <= to || i == from,
            to <= len,
            len == parts@.len(),
            pv == views(parts@),
            rest@.len() == i - from,
            forall|k: int| 0 <= k < rest@.len() ==> (#[trigger] rest@[k])@ == pv[from + k],
        decreases to - i,
    {
        assert(pv[i as int] == parts@[i as int]@);
        rest.push(parts[i].clone());
        i += 1;
    }
    proof {
        if from < to {
            assert(views(rest@) =~= pv.subrange(from as int, to as int));
        } else {
            assert(views(rest@) =~= Seq::<Seq<char>>::empty());
        }
    }
    join_all(&rest, "/")
}

/// The path from `base` down to `p`.
pub fn strip_prefix(p: &str, base: &str) -> (r: Option<String>)
    ensures
        match r {
            Some(s) => relative(p@, base@) == Some(s@),
            None => relative(p@, base@) is None,
        },
{
    let cb: Vec<String> = components(base);
    assert(views(cb@).len() == cb@.len());
    if !absolute(base) && cb.len() == 0 {
        let c: Vec<char> = chars_of(p);
        assert(c@.take(c@.len() as int) =~= p@);
        let n: usize = trimmed_len(&c, c.len());
        assert(c@.take(n as int) =~= c@.subrange(0, n as int));
        return Some(text_between(&c, 0, n));
    }
    if !under(p, base) {
        return None;
    }
    Some(below_text(p, cb.len()))
}

/// The path from `base` down to `p`, or `p` itself.
pub fn relative_to_or_whole(p: &str, base: &str) -> (r: String)
    ensures
        r@ == relative_or_whole(p@, base@),
{
    match strip_prefix(p, base) {
        Some(s) => s,
        None => p.to_owned(),
    }
}

/// `b` seen from `a`.
pub fn join(a: &str, b: &str) -> (r: String)
    ensures
        r@ == joined_path(a@, b@),
{
    if absolute(b) {
        return b.to_owned();
    }
    let c: Vec<char> = chars_of(a);
    if c.len() > 0 && c[c.len() - 1] != '/' {
        concat3(a, "/", b)
    } else {
        concat2(a, b)
    }
}

/// The named components with single slashes between them.
pub fn to_slash(p: &str) -> (r: String)
    ensures
        r@ == slashed(p@),
{
    let parts: Vec<String> = components(p);
    let ghost pv = comps(p@);
    let mut out: Vec<String> = Vec::new();
    let mut i: usize = 0;
    assert(views(out@) + normal_comps(pv, 0) =~= normal_comps(pv, 0));
    while i < parts.len()
        invariant
            i <= parts@.len(),
            pv == comps(p@),
            views(parts@) == pv,
            views(out@) + normal_comps(pv, i as int) == normal_comps(pv, 0),
        decreases parts@.len() - i,
    {
        let part: &String = &parts[i];
        assert(pv[i as int] == part@);
        if !text_eq(part.as_str(), ".") && !text_eq(part.as_str(), "..") {
            let ghost before = views(out@);
            let copy: String = part.clone();
            proof {
                lemma_views_push(out@, copy);
            }
            out.push(copy);
            assert(before + (seq![part@] + normal_comps(pv, i + 1)) =~= views(out@) + normal_comps(
                pv,
                i + 1,
            ));
        }
        i += 1;
    }
    assert(views(out@) + Seq::<Seq<char>>::empty() =~= views(out@));
    join_all(&out, "/")
}

fn exec_head_len(c: &Vec<char>, n: usize) -> (r: usize)
    requires
        n <= c@.len(),
    ensures
        r == head_len(c@.take(n as int)),
        r <= n,
{
    if n > 0 && (c[0] == '/' || (c[0] == '.' && (n == 1 || c[1] == '/'))) {
        1
    } else {
        0
    }
}

/// The length of a path's beginning without its loose tail.
fn trimmed_len(c: &Vec<char>, n: usize) -> (r: usize)
    requires
        n <= c@.len(),
    ensures
        r <= n,
        c@.take(r as int) == trim_tail(c@.take(n as int)),
{
    let mut k: usize = n;
    loop
        invariant
            k <= n <= c@.len(),
            trim_tail(c@.take(k as int)) == trim_tail(c@.take(n as int)),
        decreases k,
    {
        let h: usize = exec_head_len(c, k);
        let ghost t = c@.take(k as int);
        if k > h && (c[k - 1] == '/' || (c[k - 1] == '.' && (k == 1 || c[k - 2] == '/'))) {
            assert(t.drop_last() =~= c@.take(k - 1));
            assert(has_loose_tail(t));
            k -= 1;
        } else {
            assert(!(t.len() > head_len(t) && has_loose_tail(t)));
            return k;
        }
    }
}

/// Where the last component of a path's beginning starts.
fn exec_last_start(c: &Vec<char>, n: usize) -> (r: usize)
    requires
        n <= c@.len(),
    ensures
        r <= n,
        r == last_start(c@.take(n as int)),
{
    let mut k: usize = n;
    loop
        invariant
            k <= n <= c@.len(),
            last_start(c@.take(k as int)) == last_start(c@.take(n as int)),
        decreases k,
    {
        let ghost t = c@.take(k as int);
        if k == 0 || c[k - 1] == '/' {
            assert(t.len() == 0 || t.last() == '/');
            return k;
        }
        assert(t.drop_last() =~= c@.take(k - 1));
        k -= 1;
    }
}

/// The last component, where it names something.
pub fn file_name(p: &str) -> (r: Option<String>)
    ensures
        match r {
            Some(s) => file_name_of(p@) == Some(s@),
            None => file_name_of(p@) is None,
        },
{
    let c: Vec<char> = chars_of(p);
    assert(c@.take(c@.len() as int) =~= p@);
    let n: usize = trimmed_len(&c, c.len());
    let h: usize = exec_head_len(&c, n);
    if n <= h {
        return None;
    }
    let s: usize = exec_last_start(&c, n);
    let name: String = text_between(&c, s, n);
    assert(name@ =~= c@.take(n as int).skip(s as int));
    if text_eq(name.as_str(), "..") {
        None
    } else {
        Some(name)
    }
}

/// The path without its last component.
pub fn parent(p: &str) -> (r: Option<String>)
    ensures
        match r {
            Some(s) => parent_of(p@) == Some(s@),
            None => parent_of(p@) is None,
        },
{
    let c: Vec<char> = chars_of(p);
    assert(c@.take(c@.len() as int) =~= p@);
    let n: usize = trimmed_len(&c, c.len());
    let h: usize = exec_head_len(&c, n);
    let ghost t = c@.take(n as int);
    if n > h {
        let s: usize = exec_last_start(&c, n);
        let m: usize = trimmed_len(&c, s);
        assert(t.take(s as int) =~= c@.take(s as int));
        assert(c@.take(m as int) =~= c@.subrange(0, m as int));
        return Some(text_between(&c, 0, m));
    }
    proof {
        reveal_strlit(".");
        if n == 1 && c@[0] == '.' {
            assert(t =~= "."@);
        }
        if t == "."@ {
            assert(t[0] == '.');
        }
    }
    if n == 1 && c[0] == '.' {
        let r: String = String::new();
        assert(r@ =~= Seq::<char>::empty());
        Some(r)
    } else {
        None
    }
}

/// The directory that holds a path.
pub fn parent_dir(p: &str) -> (r: String)
    ensures
        r@ == dir_of(p@),
{
    match parent(p) {
        Some(d) => if d.as_str().is_empty() {
            ".".to_owned()
        } else {
            d
        },
        None => ".".to_owned(),
    }
}

/// Where the last dot of a name stands, if it has one.
fn exec_last_dot(c: &Vec<char>) -> (r: Option<usize>)
    ensures
        match r {
            Some(i) => i == last_dot(c@) && i < c@.len(),
            None => last_dot(c@) == -1,
        },
{
    let mut k: usize = c.len();
    assert(c@.take(k as int) =~= c@);
    while k > 0
        invariant
            k <= c@.len(),
            last_dot(c@.take(k as int)) == last_dot(c@),
        decreases k,
    {
        let ghost t = c@.take(k as int);
        assert(t.last() == c@[k - 1]);
        assert(t.drop_last() =~= c@.take(k - 1));
        if c[k - 1] == '.' {
            return Some(k - 1);
        }
        k -= 1;
    }
    None
}

/// The extension of a name.
pub fn name_extension(name: &str) -> (r: Option<String>)
    ensures
        match r {
            Some(s) => ext_of_name(name@) == Some(s@),
            None => ext_of_name(name@) is None,
        },
{
    let c: Vec<char> = chars_of(name);
    let n: usize = c.len();
    match exec_last_dot(&c) {
        Some(i) if i > 0 => {
            let s: String = text_between(&c, i + 1, n);
            assert(s@ =~= name@.skip(i + 1));
            Some(s)
        },
        _ => None,
    }
}

/// A name without its extension.
pub fn name_stem(name: &str) -> (r: String)
    ensures
        r@ == stem_of_name(name@),
{
    let c: Vec<char> = chars_of(name);
    match exec_last_dot(&c) {
        Some(i) if i > 0 => {
            assert(name@.take(i as int) =~= c@.subrange(0, i as int));
            text_between(&c, 0, i)
        },
        _ => name.to_owned(),
    }
}

/// The extension of a path's file name.
pub fn extension(p: &str) -> (r: Option<String>)
    ensures
        match r {
            Some(s) => extension_of(p@) == Some(s@),
            None => extension_of(p@) is None,
        },
{
    match file_name(p) {
        Some(n) => name_extension(n.as_str()),
        None => None,
    }
}

/// A list of names: each could be a component of a path and names something.
pub open spec fn are_names(names: Seq<Seq<char>>) -> bool {
    forall|i: int|
        0 <= i < names.len() ==> (#[trigger] names[i]).len() > 0 && !names[i].contains('/')
            && is_normal(names[i])
}

proof fn lemma_kept_skip(parts: Seq<Seq<char>>, i: int, n: nat)
    requires
        0 <= i,
        n <= kept_pieces(parts, i).len(),
    ensures
        kept_pieces(parts, i).skip(n as int) == kept_pieces(parts, comp_place(parts, i, n)),
        i <= comp_place(parts, i, n) || i >= parts.len(),
        comp_place(parts, i, n) < parts.len() ==> is_comp(parts, comp_place(parts, i, n)),
        n < kept_pieces(parts, i).len() <==> comp_place(parts, i, n) < parts.len(),
    decreases parts.len() - i,
{
    let all = kept_pieces(parts, i);
    if i < parts.len() {
        let rest = kept_pieces(parts, i + 1);
        if !is_comp(parts, i) {
            lemma_kept_skip(parts, i + 1, n);
        } else if n == 0 {
            assert(all.skip(0) =~= all);
        } else {
            lemma_kept_skip(parts, i + 1, (n - 1) as nat);
            assert(all.skip(n as int) =~= rest.skip(n - 1));
        }
    } else {
        assert(all.skip(0) =~= all);
    }
}

proof fn lemma_none_kept_behind(parts: Seq<Seq<char>>, k: int, i: int)
    requires
        0 <= k <= parts.len(),
        comps_end(parts, k) <= i <= k,
    ensures
        0 <= comps_end(parts, k) <= k,
        kept_pieces(parts, i) == kept_pieces(parts, k),
        comps_end(parts, k) > 0 ==> is_comp(parts, comps_end(parts, k) - 1),
    decreases k,
{
    lemma_comps_end(parts, k);
    if i < k {
        assert(!is_comp(parts, k - 1));
        lemma_none_kept_behind(parts, k - 1, i);
    }
}

proof fn lemma_comps_end(parts: Seq<Seq<char>>, k: int)
    requires
        0 <= k <= parts.len(),
    ensures
        0 <= comps_end(parts, k) <= k,
        comps_end(parts, k) > 0 ==> is_comp(parts, comps_end(parts, k) - 1),
        forall|j: int| 0 <= j < k && #[trigger] is_comp(parts, j) ==> j < comps_end(parts, k),
    decreases k,
{
    if k > 0 && !is_comp(parts, k - 1) {
        lemma_comps_end(parts, k - 1);
    }
}

proof fn lemma_kept_of_part(parts: Seq<Seq<char>>, from: int, to: int, j: int)
    requires
        0 < from < to <= parts.len(),
        is_comp(parts, from),
        0 <= j <= to - from,
        kept_pieces(parts, to).len() == 0,
    ensures
        kept_pieces(parts.subrange(from, to), j) == kept_pieces(parts, from + j),
    decreases to - from - j,
{
    let part = parts.subrange(from, to);
    if j < part.len() {
        lemma_kept_of_part(parts, from, to, j + 1);
        assert(part[j] == parts[from + j]);
        assert(is_comp(part, j) == is_comp(parts, from + j));
    } else {
        assert(kept_pieces(part, j) =~= kept_pieces(parts, to));
    }
}

/// What a path holds behind some components has the components behind them.
proof fn lemma_below_comps(p: Seq<char>, n: nat)
    requires
        n <= comps(p).len(),
        n > 0 || is_abs(p),
    ensures
        comps(below(p, n)) == comps(p).skip(n as int),
{
    reveal_strlit("/");
    assert("/"@ =~= seq!['/']);
    let parts = pieces(p, '/');
    let len = parts.len() as int;
    lemma_pieces_nonempty(p, '/');
    lemma_kept_skip(parts, 0, n);
    lemma_comps_end(parts, len);
    let (from, to) = (comp_place(parts, 0, n), comps_end(parts, len));
    if n < comps(p).len() {
        assert(is_comp(parts, from));
        assert(from < to);
        lemma_none_kept_behind(parts, len, to);
        assert(kept_pieces(parts, to).len() == 0);
        if from == 0 {
            lemma_first_piece(p);
            assert(n == 0) by {
                if n > 0 {
                    lemma_place_from(parts, 1, (n - 1) as nat);
                }
            }
        }
        let part = parts.subrange(from, to);
        assert forall|k: int| 0 <= k < part.len() implies !(#[trigger] part[k]).contains('/') by {
            lemma_pieces_plain(p, '/', from + k);
        }
        law_joined_splits_back(part, '/');
        lemma_kept_of_part(parts, from, to, 0);
    } else {
        lemma_nothing_in_nothing();
        assert(comps(p).skip(n as int) =~= Seq::<Seq<char>>::empty());
    }
}

proof fn lemma_place_from(parts: Seq<Seq<char>>, i: int, n: nat)
    requires
        0 <= i <= parts.len(),
    ensures
        comp_place(parts, i, n) >= i,
    decreases parts.len() - i,
{
    if i < parts.len() {
        if !is_comp(parts, i) {
            lemma_place_from(parts, i + 1, n);
        } else if n > 0 {
            lemma_place_from(parts, i + 1, (n - 1) as nat);
        }
    }
}

/// The first piece of a path from the root is empty.
proof fn lemma_first_piece(p: Seq<char>)
    requires
        is_abs(p),
    ensures
        pieces(p, '/')[0].len() == 0,
    decreases p.len(),
{
    let init = p.drop_last();
    lemma_pieces_nonempty(init, '/');
    if p.len() == 1 {
        assert(init =~= Seq::<char>::empty());
    } else {
        lemma_first_piece(init);
        if p.last() != '/' && pieces(init, '/').len() == 1 {
            lemma_two_pieces(init);
        }
    }
}

/// A path from the root has a piece before its first slash and one behind.
proof fn lemma_two_pieces(p: Seq<char>)
    requires
        is_abs(p),
    ensures
        pieces(p, '/').len() > 1,
    decreases p.len(),
{
    let init = p.drop_last();
    lemma_pieces_nonempty(init, '/');
    if p.len() > 1 {
        lemma_two_pieces(init);
    }
}

proof fn lemma_nothing_in_nothing()
    ensures
        comps(Seq::<char>::empty()) == Seq::<Seq<char>>::empty(),
{
    let none = Seq::<char>::empty();
    assert(pieces(none, '/') =~= seq![none]);
    assert(kept_pieces(seq![none], 1) =~= Seq::<Seq<char>>::empty());
}

proof fn lemma_kept_add(a: Seq<Seq<char>>, b: Seq<Seq<char>>, i: int)
    requires
        0 <= i <= a.len(),
        a.len() > 0,
        b.len() > 0,
        b[0] != "."@,
    ensures
        kept_pieces(a + b, i) == kept_pieces(a, i) + kept_pieces(b, 0),
    decreases a.len() - i,
{
    if i < a.len() {
        lemma_kept_add(a, b, i + 1);
        assert((a + b)[i] == a[i]);
        assert(kept_pieces(a + b, i) =~= kept_pieces(a, i) + kept_pieces(b, 0));
    } else {
        lemma_kept_shift(a, b, 0);
        assert(kept_pieces(a, i) =~= Seq::<Seq<char>>::empty());
        assert(kept_pieces(a + b, i) =~= kept_pieces(a, i) + kept_pieces(b, 0));
    }
}

proof fn lemma_kept_shift(a: Seq<Seq<char>>, b: Seq<Seq<char>>, j: int)
    requires
        0 <= j <= b.len(),
        a.len() > 0,
        b.len() > 0,
        b[0] != "."@,
    ensures
        kept_pieces(a + b, a.len() + j) == kept_pieces(b, j),
    decreases b.len() - j,
{
    if j < b.len() {
        lemma_kept_shift(a, b, j + 1);
        assert((a + b)[a.len() + j] == b[j]);
    }
}

/// A path that is trimmed at its end keeps its components.
proof fn lemma_trimmed_comps(p: Seq<char>)
    ensures
        comps(trim_tail(p)) == comps(p),
        is_abs(trim_tail(p)) == is_abs(p),
    decreases p.len(),
{
    if p.len() > head_len(p) && has_loose_tail(p) {
        let init = p.drop_last();
        let none = seq![Seq::<char>::empty()];
        lemma_trimmed_comps(init);
        lemma_nothing_in_nothing();
        reveal_strlit(".");
        assert(kept_pieces(none, 0) =~= Seq::<Seq<char>>::empty()) by {
            assert(kept_pieces(none, 1) =~= Seq::<Seq<char>>::empty());
        }
        if p.last() == '/' {
            lemma_pieces_nonempty(init, '/');
            lemma_kept_add(pieces(init, '/'), none, 0);
            assert(pieces(p, '/') =~= pieces(init, '/') + none);
            assert(comps(p) =~= comps(init));
            assert(p.len() == 1 ==> head_len(p) == 1);
        } else {
            assert(p.len() > 1);
            let dir = init.drop_last();
            assert(init.last() == '/');
            lemma_pieces_nonempty(dir, '/');
            let parts = pieces(dir, '/');
            assert(pieces(init, '/') =~= parts + none);
            lemma_kept_add(parts, none, 0);
            let dot = parts.push("."@);
            assert(pieces(init, '/').drop_last() =~= parts);
            assert(pieces(init, '/').last().push('.') =~= "."@);
            assert(pieces(p, '/') =~= dot);
            lemma_kept_without_dot(parts, 0);
            assert(comps(p) =~= comps(init));
        }
    }
}

proof fn lemma_kept_without_dot(parts: Seq<Seq<char>>, i: int)
    requires
        0 <= i <= parts.len(),
        parts.len() > 0,
    ensures
        kept_pieces(parts.push("."@), i) == kept_pieces(parts, i),
    decreases parts.len() - i,
{
    let dot = parts.push("."@);
    if i < parts.len() {
        lemma_kept_without_dot(parts, i + 1);
        assert(dot[i] == parts[i]);
    } else {
        assert(dot[i] == "."@);
        assert(kept_pieces(dot, i + 1) =~= Seq::<Seq<char>>::empty());
        assert(kept_pieces(parts, i) =~= Seq::<Seq<char>>::empty());
    }
}

/// The path from one place down to another under it has the components that the
/// other has behind those of the one.
pub proof fn law_relative_path_has_the_rest(p: Seq<char>, base: Seq<char>)
    requires
        is_under(p, base),
    ensures
        relative(p, base) matches Some(r) && comps(r) == comps(p).skip(comps(base).len() as int),
{
    if is_nothing(base) {
        lemma_trimmed_comps(p);
        assert(comps(p).skip(0) =~= comps(p));
    } else {
        lemma_below_comps(p, comps(base).len());
    }
}

/// A path joined to another has the components of both, the other's first.
pub proof fn law_joined_path_has_both(a: Seq<char>, names: Seq<Seq<char>>)
    requires
        are_names(names),
    ensures
        comps(joined(names, "/"@)) == names,
        comps(joined_path(a, joined(names, "/"@))) == comps(a) + names,
        is_abs(joined_path(a, joined(names, "/"@))) == is_abs(a),
{
    reveal_strlit("/");
    assert("/"@ =~= seq!['/']);
    let rel = joined(names, "/"@);
    let none = Seq::<char>::empty();
    lemma_nothing_in_nothing();
    if names.len() == 0 {
        assert(rel =~= none);
        assert(names =~= Seq::<Seq<char>>::empty());
        assert(pieces(rel, '/') =~= seq![none]);
        reveal_strlit(".");
        assert(pieces(rel, '/')[0] != "."@);
    } else {
        law_joined_splits_back(names, '/');
        lemma_names_kept(names, 0);
        assert(names.skip(0) =~= names);
        assert(is_normal(names[0]));
        if is_abs(rel) {
            lemma_first_piece(rel);
        }
    }
    let first = pieces(rel, '/');
    lemma_pieces_nonempty(a, '/');
    lemma_pieces_nonempty(rel, '/');
    if a.len() > 0 && a.last() != '/' {
        lemma_pieces_concat(a, rel, '/');
        lemma_kept_add(pieces(a, '/'), first, 0);
        assert(joined_path(a, rel) =~= a + seq!['/'] + rel);
    } else if a.len() > 0 {
        let dir = a.drop_last();
        assert(joined_path(a, rel) =~= dir + seq!['/'] + rel);
        lemma_pieces_concat(dir, rel, '/');
        lemma_pieces_nonempty(dir, '/');
        lemma_kept_add(pieces(dir, '/'), first, 0);
        reveal_strlit(".");
        lemma_kept_add(pieces(dir, '/'), seq![none], 0);
        assert(pieces(a, '/') =~= pieces(dir, '/') + seq![none]);
        assert(kept_pieces(seq![none], 0) =~= Seq::<Seq<char>>::empty()) by {
            assert(kept_pieces(seq![none], 1) =~= Seq::<Seq<char>>::empty());
        }
        assert(comps(a) =~= kept_pieces(pieces(dir, '/'), 0));
    } else {
        assert(a =~= none);
        assert(joined_path(a, rel) =~= rel);
        assert(comps(a) + names =~= names);
    }
}

proof fn lemma_names_kept(names: Seq<Seq<char>>, i: int)
    requires
        are_names(names),
        0 <= i <= names.len(),
    ensures
        kept_pieces(names, i) == names.skip(i),
        normal_comps(names, i) == names.skip(i),
    decreases names.len() - i,
{
    if i < names.len() {
        lemma_names_kept(names, i + 1);
        assert(names[i].len() > 0);
        assert(seq![names[i]] + names.skip(i + 1) =~= names.skip(i));
    } else {
        assert(names.skip(i) =~= Seq::<Seq<char>>::empty());
    }
}

/// Names that were joined to a root, seen from the root, are the names again.
pub proof fn law_joined_names_read_back(root: Seq<char>, names: Seq<Seq<char>>)
    requires
        are_names(names),
    ensures
        is_under(joined_path(root, joined(names, "/"@)), root),
        slashed(relative_or_whole(joined_path(root, joined(names, "/"@)), root)) == joined(
            names,
            "/"@,
        ),
{
    let p = joined_path(root, joined(names, "/"@));
    law_joined_path_has_both(root, names);
    assert(comps(p).take(comps(root).len() as int) =~= comps(root));
    assert(comps(p).skip(comps(root).len() as int) =~= names);
    law_relative_path_has_the_rest(p, root);
    lemma_names_kept(names, 0);
    assert(names.skip(0) =~= names);
}

/// A name joined to a directory has the directory as its parent.
pub proof fn law_parent_of_joined_name(dir: Seq<char>, name: Seq<char>)
    requires
        dir.len() > 0,
        trim_tail(dir) == dir,
        are_names(seq![name]),
    ensures
        parent_of(joined_path(dir, name)) == Some(dir),
        file_name_of(joined_path(dir, name)) == Some(name),
{
    assert(seq![name][0] == name);
    reveal_strlit(".");
    reveal_strlit("/");
    assert(!is_abs(name)) by {
        if is_abs(name) {
            assert(name.contains(name[0]));
        }
    }
    let p = joined_path(dir, name);
    let head = p.take(p.len() - name.len());
    assert(p =~= head + name);
    assert(head.last() == '/');
    assert(name.last() != '/') by {
        assert(name.contains(name.last()));
    }
    assert(!has_loose_tail(p)) by {
        if name.len() == 1 && name[0] == '.' {
            assert(name =~= "."@);
        }
        if name.len() > 1 {
            assert(p[p.len() - 2] == name[name.len() - 2]);
            assert(name.contains(name[name.len() - 2]));
        }
    }
    assert(trim_tail(p) == p);
    lemma_last_start(head, name);
    assert(p.skip(last_start(p)) =~= name);
    assert(p.take(last_start(p)) =~= head);
    assert(p.len() > head_len(p));
    lemma_trimmed_is_trimmed(dir);
    if dir.last() == '/' {
        assert(head =~= dir);
    } else {
        assert(head =~= dir.push('/'));
        assert(head.drop_last() =~= dir);
        assert(head_len(head) <= head_len(dir) || head_len(head) <= 1);
        assert(head.len() > head_len(head));
        assert(trim_tail(head) == trim_tail(dir));
    }
}

proof fn lemma_trimmed_is_trimmed(p: Seq<char>)
    requires
        trim_tail(p) == p,
    ensures
        p.len() <= head_len(p) || !has_loose_tail(p),
{
    if p.len() > head_len(p) && has_loose_tail(p) {
        lemma_trim_shortens(p.drop_last());
    }
}

proof fn lemma_trim_shortens(p: Seq<char>)
    ensures
        trim_tail(p).len() <= p.len(),
    decreases p.len(),
{
    if p.len() > head_len(p) && has_loose_tail(p) {
        lemma_trim_shortens(p.drop_last());
    }
}

proof fn lemma_last_start(head: Seq<char>, name: Seq<char>)
    requires
        head.len() > 0,
        head.last() == '/',
        !name.contains('/'),
    ensures
        last_start(head + name) == head.len(),
    decreases name.len(),
{
    let p = head + name;
    if name.len() == 0 {
        assert(p =~= head);
    } else {
        let init = name.drop_last();
        assert(name.contains(name.last()));
        assert(!init.contains('/')) by {
            if init.contains('/') {
                let k = choose|k: int| 0 <= k < init.len() && init[k] == '/';
                assert(name[k] == '/');
            }
        }
        lemma_last_start(head, init);
        assert(p.drop_last() =~= head + init);
        assert(p.last() == name.last());
    }
}

/// The named components of a list and more start with those of the list.
pub proof fn lemma_normal_comps_add(a: Seq<Seq<char>>, b: Seq<Seq<char>>, i: int)
    requires
        0 <= i <= a.len(),
    ensures
        normal_comps(a + b, i) == normal_comps(a, i) + normal_comps(b, 0),
    decreases a.len() - i,
{
    if i < a.len() {
        lemma_normal_comps_add(a, b, i + 1);
        assert((a + b)[i] == a[i]);
        assert(normal_comps(a + b, i) =~= normal_comps(a, i) + normal_comps(b, 0));
    } else {
        lemma_normal_comps_shift(a, b, 0);
        assert(normal_comps(a, i) =~= Seq::<Seq<char>>::empty());
        assert(normal_comps(a + b, i) =~= normal_comps(a, i) + normal_comps(b, 0));
    }
}

proof fn lemma_normal_comps_shift(a: Seq<Seq<char>>, b: Seq<Seq<char>>, j: int)
    requires
        0 <= j <= b.len(),
    ensures
        normal_comps(a + b, a.len() + j) == normal_comps(b, j),
    decreases b.len() - j,
{
    if j < b.len() {
        lemma_normal_comps_shift(a, b, j + 1);
        assert((a + b)[a.len() + j] == b[j]);
    }
}

/// The extension of a name is what stands behind its last dot, its stem what stands
/// before it; a name without a dot, or with one at its start alone, has no extension.
pub proof fn law_stem_and_extension(stem: Seq<char>, ext: Seq<char>)
    requires
        !ext.contains('.'),
    ensures
        stem.len() > 0 ==> ext_of_name(stem + seq!['.'] + ext) == Some(ext),
        stem.len() > 0 ==> stem_of_name(stem + seq!['.'] + ext) == stem,
        ext_of_name(ext) is None,
        stem_of_name(ext) == ext,
        ext_of_name(seq!['.'] + ext) is None,
        stem_of_name(seq!['.'] + ext) == seq!['.'] + ext,
{
    let name = stem + seq!['.'] + ext;
    lemma_last_dot(stem, ext);
    lemma_last_dot(Seq::empty(), ext);
    lemma_no_dot(ext);
    assert(Seq::<char>::empty() + seq!['.'] + ext =~= seq!['.'] + ext);
    assert(name.skip((stem.len() + 1) as int) =~= ext);
    assert(name.take(stem.len() as int) =~= stem);
}

proof fn lemma_last_dot(stem: Seq<char>, ext: Seq<char>)
    requires
        !ext.contains('.'),
    ensures
        last_dot(stem + seq!['.'] + ext) == stem.len(),
    decreases ext.len(),
{
    let name = stem + seq!['.'] + ext;
    if ext.len() == 0 {
        assert(name.last() == '.');
    } else {
        let less = ext.drop_last();
        assert(ext.contains(ext[ext.len() - 1]));
        assert(name.last() == ext.last());
        assert(name.drop_last() =~= stem + seq!['.'] + less);
        assert(!less.contains('.')) by {
            if less.contains('.') {
                let k = choose|k: int| 0 <= k < less.len() && less[k] == '.';
                assert(ext[k] == '.');
            }
        }
        lemma_last_dot(stem, less);
    }
}

proof fn lemma_no_dot(name: Seq<char>)
    requires
        !name.contains('.'),
    ensures
        last_dot(name) == -1,
    decreases name.len(),
{
    if name.len() > 0 {
        let less = name.drop_last();
        assert(name.contains(name[name.len() - 1]));
        assert(!less.contains('.')) by {
            if less.contains('.') {
                let k = choose|k: int| 0 <= k < less.len() && less[k] == '.';
                assert(name[k] == '.');
            }
        }
        lemma_no_dot(less);
    }
}

/// Joining goes below the first path, unless the second is absolute; there is one slash
/// between the two.
pub proof fn law_joining_puts_one_slash_between(a: Seq<char>, b: Seq<char>)
    ensures
        is_abs(b) ==> joined_path(a, b) == b,
        !is_abs(b) && a.len() > 0 && a.last() != '/' ==> joined_path(a, b) == a + seq!['/'] + b,
        !is_abs(b) && a.len() > 0 && a.last() == '/' ==> joined_path(a, b) == a + b,
        !is_abs(b) && a.len() == 0 ==> joined_path(a, b) == b,
{
    reveal_strlit("/");
    assert("/"@ =~= seq!['/']);
    if a.len() == 0 {
        assert(a + b =~= b);
    }
}

/// Slashes at the end of a path, doubled slashes and single dots behind a slash are no
/// parts of it; two dots are one, and so is any name.
pub proof fn law_empty_parts_and_dots_do_not_count(p: Seq<char>, name: Seq<char>)
    requires
        p.len() > 0,
        name.len() > 0,
        !name.contains('/'),
        name != "."@,
    ensures
        comps(p + seq!['/']) == comps(p),
        comps(p + seq!['/', '.']) == comps(p),
        comps(p + seq!['/'] + name) == comps(p).push(name),
        comps(p + seq!['/', '/'] + name) == comps(p).push(name),
{
    reveal_strlit(".");
    let (e, dot) = (Seq::<char>::empty(), seq!['.']);
    assert("."@ =~= dot);
    let parts = pieces(p, '/');
    lemma_pieces_nonempty(p, '/');
    lemma_pieces_of_plain(e, '/');
    lemma_pieces_of_plain(dot, '/');
    lemma_pieces_of_plain(name, '/');
    lemma_pieces_concat(p, e, '/');
    lemma_pieces_concat(p, dot, '/');
    lemma_pieces_concat(p, name, '/');
    lemma_pieces_concat(p + seq!['/'], name, '/');
    assert(p + seq!['/'] + e =~= p + seq!['/']);
    assert(p + seq!['/'] + dot =~= p + seq!['/', '.']);
    assert(p + seq!['/'] + seq!['/'] + name =~= p + seq!['/', '/'] + name);
    lemma_kept_push(parts, e, 0);
    lemma_kept_push(parts, dot, 0);
    lemma_kept_push(parts, name, 0);
    lemma_kept_push(parts.push(e), name, 0);
    assert(parts + seq![e] =~= parts.push(e));
    assert(parts + seq![dot] =~= parts.push(dot));
    assert(parts + seq![name] =~= parts.push(name));
    assert(parts.push(e) + seq![name] =~= parts.push(e).push(name));
}

proof fn lemma_kept_push(parts: Seq<Seq<char>>, last: Seq<char>, i: int)
    requires
        parts.len() > 0,
        0 <= i <= parts.len(),
    ensures
        kept_pieces(parts.push(last), i) == if last.len() == 0 || last == "."@ {
            kept_pieces(parts, i)
        } else {
            kept_pieces(parts, i).push(last)
        },
    decreases parts.len() - i,
{
    let all = parts.push(last);
    let n = parts.len() as int;
    if i == n {
        assert(kept_pieces(all, n + 1) =~= Seq::<Seq<char>>::empty());
        assert(kept_pieces(parts, n) =~= Seq::<Seq<char>>::empty());
        assert(all[n] == last);
        assert(seq![last] + Seq::<Seq<char>>::empty() =~= Seq::<Seq<char>>::empty().push(last));
    } else {
        assert(all[i] == parts[i]);
        lemma_kept_push(parts, last, i + 1);
        assert(seq![parts[i]] + kept_pieces(parts, i + 1).push(last) =~= (seq![parts[i]]
            + kept_pieces(parts, i + 1)).push(last));
    }
}

/// One path lies under another exactly where its names start with those of the other,
/// both below the same root; so it lies under itself and under every directory on its
/// way, and under no sibling.
pub proof fn law_under_goes_by_names(
    root: Seq<char>,
    names: Seq<Seq<char>>,
    others: Seq<Seq<char>>,
)
    requires
        are_names(names),
        are_names(others),
    ensures
        is_under(
            joined_path(root, joined(names, "/"@)),
            joined_path(root, joined(others, "/"@)),
        ) <==> others.len() <= names.len() && names.take(others.len() as int) == others,
{
    let (p, q) = (joined_path(root, joined(names, "/"@)), joined_path(root, joined(others, "/"@)));
    let n = comps(root).len() as int;
    law_joined_path_has_both(root, names);
    law_joined_path_has_both(root, others);
    let (a, b) = (comps(p), comps(q));
    if others.len() <= names.len() && names.take(others.len() as int) == others {
        assert(a.take(b.len() as int) =~= b) by {
            assert forall|i: int| 0 <= i < b.len() implies a[i] == b[i] by {
                if i >= n {
                    assert(names.take(others.len() as int)[i - n] == names[i - n]);
                }
            }
        }
    }
    if is_under(p, q) {
        assert forall|i: int| 0 <= i < others.len() implies names[i] == others[i] by {
            assert(a.take(b.len() as int)[n + i] == a[n + i]);
            assert(b[n + i] == others[i]);
        }
        assert(names.take(others.len() as int) =~= others);
    }
}

/// What lies under a path lies under all that the path lies under; an absolute path lies
/// under no relative one that has a name, and the other way round.
pub proof fn law_under_is_transitive(a: Seq<char>, b: Seq<char>, c: Seq<char>)
    ensures
        is_under(a, a),
        is_under(a, b) && is_under(b, c) ==> is_under(a, c),
        is_under(a, b) && is_under(b, a) ==> comps(a) == comps(b),
        is_abs(a) != is_abs(b) && !is_nothing(b) ==> !is_under(a, b),
        same_path(a, b) ==> is_under(a, b),
{
    assert(comps(a).take(comps(a).len() as int) =~= comps(a));
    if is_under(a, b) && is_under(b, c) {
        assert(comps(a).take(comps(c).len() as int) =~= comps(a).take(comps(b).len() as int).take(
            comps(c).len() as int,
        ));
    }
    if is_under(a, b) && is_under(b, a) {
        assert(comps(a).take(comps(b).len() as int) =~= comps(a));
    }
}

/// The directory of a path is its parent; a bare name is in the current one.
pub proof fn law_directory_of_a_path(dir: Seq<char>, name: Seq<char>)
    requires
        dir.len() > 0,
        trim_tail(dir) == dir,
        are_names(seq![name]),
    ensures
        dir_of(joined_path(dir, name)) == dir,
        parent_of(name) matches Some(d) ==> (d.len() == 0 ==> dir_of(name) == "."@),
{
    law_parent_of_joined_name(dir, name);
}

} // verus!
