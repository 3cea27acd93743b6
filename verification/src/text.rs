//! Text as sequences of characters: searching, splitting, joining, trimming,
//! comparing, and decimal numbers.
use vstd::prelude::*;

verus! {

/// `String::push` appends one character.
pub assume_specification[ String::push ](s: &mut String, c: char)
    ensures
        final(s)@ == old(s)@.push(c),
;

// ---- characters ---------------------------------------------------------------

/// An ASCII decimal digit.
pub open spec fn is_digit(c: char) -> bool {
    '0' <= c <= '9'
}

/// An ASCII letter or digit.
pub open spec fn is_alnum(c: char) -> bool {
    is_digit(c) || 'a' <= c <= 'z' || 'A' <= c <= 'Z'
}

/// A character with the Unicode `White_Space` property.
pub open spec fn is_space(c: char) -> bool {
    ||| 0x09 <= c as u32 <= 0x0d
    ||| c as u32 == 0x20
    ||| c as u32 == 0x85
    ||| c as u32 == 0xa0
    ||| c as u32 == 0x1680
    ||| 0x2000 <= c as u32 <= 0x200a
    ||| c as u32 == 0x2028
    ||| c as u32 == 0x2029
    ||| c as u32 == 0x202f
    ||| c as u32 == 0x205f
    ||| c as u32 == 0x3000
}

/// The lower-case form of an ASCII letter; any other character is itself.
pub open spec fn lower_char(c: char) -> char {
    if 'A' <= c <= 'Z' {
        ((c as u8 + 32) as u8) as char
    } else {
        c
    }
}

pub fn digit_char(c: char) -> (r: bool)
    ensures
        r == is_digit(c),
{
    '0' <= c && c <= '9'
}

pub fn alnum_char(c: char) -> (r: bool)
    ensures
        r == is_alnum(c),
{
    ('0' <= c && c <= '9') || ('a' <= c && c <= 'z') || ('A' <= c && c <= 'Z')
}

pub fn space_char(c: char) -> (r: bool)
    ensures
        r == is_space(c),
{
    let u: u32 = c as u32;
    (0x09 <= u && u <= 0x0d) || u == 0x20 || u == 0x85 || u == 0xa0 || u == 0x1680 || (0x2000 <= u
        && u <= 0x200a) || u == 0x2028 || u == 0x2029 || u == 0x202f || u == 0x205f || u == 0x3000
}

pub fn lowered_char(c: char) -> (r: char)
    ensures
        r == lower_char(c),
{
    if 'A' <= c && c <= 'Z' {
        let u: u8 = c as u8;
        (u + 32) as char
    } else {
        c
    }
}

// ---- conversions --------------------------------------------------------------

/// The characters of a text.
pub fn chars_of(s: &str) -> (r: Vec<char>)
    ensures
        r@ == s@,
{
    let mut out: Vec<char> = Vec::new();
    for c in it: s.chars()
        invariant
            out@ == s@.take(it.index()),
            it.seq() == s@,
    {
        out.push(c);
    }
    assert(s@.take(s@.len() as int) =~= s@);
    out
}

/// The text made of the characters from `from` up to, and without, `to`.
pub fn text_between(chars: &[char], from: usize, to: usize) -> (r: String)
    requires
        from <= to <= chars@.len(),
    ensures
        r@ == chars@.subrange(from as int, to as int),
{
    let mut out: String = String::new();
    let mut i: usize = from;
    while i < to
        invariant
            from <= i <= to <= chars@.len(),
            out@ == chars@.subrange(from as int, i as int),
        decreases to - i,
    {
        out.push(chars[i]);
        i += 1;
        assert(chars@.subrange(from as int, i as int) =~= chars@.subrange(
            from as int,
            i - 1,
        ).push(chars@[i - 1]));
    }
    out
}

/// Whether two texts are equal.
pub fn text_eq(a: &str, b: &str) -> (r: bool)
    ensures
        r == (a@ == b@),
{
    a.to_owned() == b.to_owned()
}

/// The concatenation of two texts.
pub fn concat2(a: &str, b: &str) -> (r: String)
    ensures
        r@ == a@ + b@,
{
    let mut out: String = a.to_owned();
    out.append(b);
    out
}

/// The concatenation of three texts.
pub fn concat3(a: &str, b: &str, c: &str) -> (r: String)
    ensures
        r@ == a@ + b@ + c@,
{
    let mut out: String = a.to_owned();
    out.append(b);
    out.append(c);
    out
}

// ---- searching ----------------------------------------------------------------

/// `part` stands in `s` at index `i`.
pub open spec fn occurs_at(s: Seq<char>, part: Seq<char>, i: int) -> bool {
    &&& 0 <= i
    &&& i + part.len() <= s.len()
    &&& s.subrange(i, i + part.len()) == part
}

/// `s` begins with `part`.
pub open spec fn has_prefix(s: Seq<char>, part: Seq<char>) -> bool {
    occurs_at(s, part, 0)
}

/// `s` ends with `part`.
pub open spec fn has_suffix(s: Seq<char>, part: Seq<char>) -> bool {
    occurs_at(s, part, s.len() - part.len())
}

/// `part` stands somewhere in `s`.
pub open spec fn has_part(s: Seq<char>, part: Seq<char>) -> bool {
    exists|i: int| occurs_at(s, part, i)
}

/// Whether `part` stands in `s` at index `i`.
pub fn part_at(s: &[char], part: &[char], i: usize) -> (r: bool)
    ensures
        r == occurs_at(s@, part@, i as int),
{
    if i > s.len() || part.len() > s.len() - i {
        return false;
    }
    let n: usize = s.len();
    let mut k: usize = 0;
    while k < part.len()
        invariant
            n == s@.len(),
            k <= part@.len(),
            i + part@.len() <= n,
            s@.subrange(i as int, i + k) == part@.take(k as int),
        decreases part@.len() - k,
    {
        if s[i + k] != part[k] {
            assert(s@.subrange(i as int, i + part@.len())[k as int] != part@[k as int]);
            return false;
        }
        assert(s@.subrange(i as int, i + k + 1) =~= s@.subrange(i as int, i + k).push(s@[i + k]));
        assert(part@.take(k + 1) =~= part@.take(k as int).push(part@[k as int]));
        k += 1;
    }
    assert(part@.take(part@.len() as int) =~= part@);
    true
}

/// Whether `s` begins with `part`.
pub fn starts_with(s: &str, part: &str) -> (r: bool)
    ensures
        r == has_prefix(s@, part@),
{
    let a: Vec<char> = chars_of(s);
    let b: Vec<char> = chars_of(part);
    part_at(a.as_slice(), b.as_slice(), 0)
}

/// Whether `s` ends with `part`.
pub fn ends_with(s: &str, part: &str) -> (r: bool)
    ensures
        r == has_suffix(s@, part@),
{
    let a: Vec<char> = chars_of(s);
    let b: Vec<char> = chars_of(part);
    if b.len() > a.len() {
        return false;
    }
    part_at(a.as_slice(), b.as_slice(), a.len() - b.len())
}

/// Whether `part` stands somewhere in `s`.
pub fn contains(s: &str, part: &str) -> (r: bool)
    ensures
        r == has_part(s@, part@),
{
    let a: Vec<char> = chars_of(s);
    let b: Vec<char> = chars_of(part);
    let mut i: usize = 0;
    while i <= a.len()
        invariant
            a@ == s@,
            b@ == part@,
            i <= a@.len() + 1,
            forall|j: int| 0 <= j < i ==> !occurs_at(s@, part@, j),
        decreases a@.len() + 1 - i,
    {
        if part_at(a.as_slice(), b.as_slice(), i) {
            assert(occurs_at(s@, part@, i as int));
            return true;
        }
        if i == a.len() {
            assert forall|j: int| !occurs_at(s@, part@, j) by {
                if j > i {
                    assert(j + part@.len() > s@.len());
                }
            }
            return false;
        }
        i += 1;
    }
    false
}

/// The index of the first `c` in `s`, or the length of `s` where there is none.
pub open spec fn index_or_len(s: Seq<char>, c: char) -> int
    decreases s.len(),
{
    if s.len() == 0 || s[0] == c {
        0
    } else {
        1 + index_or_len(s.skip(1), c)
    }
}

/// What characterises the first index of a character.
pub proof fn lemma_index_or_len(s: Seq<char>, c: char, i: int)
    requires
        0 <= i <= s.len(),
        forall|j: int| 0 <= j < i ==> s[j] != c,
        i < s.len() ==> s[i] == c,
    ensures
        index_or_len(s, c) == i,
    decreases s.len(),
{
    if s.len() > 0 && s[0] != c {
        assert forall|j: int| 0 <= j < i - 1 implies s.skip(1)[j] != c by {
            assert(s[j + 1] != c);
        }
        lemma_index_or_len(s.skip(1), c, i - 1);
    }
}

/// The first index of a character is in range, and no earlier character is it.
pub proof fn lemma_index_first(s: Seq<char>, c: char)
    ensures
        0 <= index_or_len(s, c) <= s.len(),
        forall|j: int| 0 <= j < index_or_len(s, c) ==> s[j] != c,
        index_or_len(s, c) < s.len() ==> s[index_or_len(s, c)] == c,
    decreases s.len(),
{
    if s.len() > 0 && s[0] != c {
        lemma_index_first(s.skip(1), c);
        let n = index_or_len(s, c);
        assert forall|j: int| 0 <= j < n implies s[j] != c by {
            if j > 0 {
                assert(s.skip(1)[j - 1] != c);
            }
        }
        if n < s.len() {
            assert(s.skip(1)[n - 1] == s[n]);
        }
    }
}

/// The index of the first `c`, or the length where there is none.
pub fn find_char(s: &[char], c: char) -> (r: usize)
    ensures
        r == index_or_len(s@, c),
        r <= s@.len(),
{
    let mut i: usize = 0;
    while i < s.len()
        invariant
            i <= s@.len(),
            forall|j: int| 0 <= j < i ==> s@[j] != c,
        decreases s@.len() - i,
    {
        if s[i] == c {
            proof {
                lemma_index_or_len(s@, c, i as int);
            }
            return i;
        }
        i += 1;
    }
    proof {
        lemma_index_or_len(s@, c, i as int);
    }
    i
}

/// A text split at its first `c`: what stands before it and what stands after it.
pub open spec fn split_first(s: Seq<char>, c: char) -> Option<(Seq<char>, Seq<char>)> {
    let n = index_or_len(s, c);
    if n < s.len() {
        Some((s.take(n), s.skip(n + 1)))
    } else {
        None
    }
}

/// Splits a text at its first `c`.
pub fn split_once(s: &str, c: char) -> (r: Option<(String, String)>)
    ensures
        match r {
            Some(p) => split_first(s@, c) == Some((p.0@, p.1@)),
            None => split_first(s@, c) is None,
        },
{
    let a: Vec<char> = chars_of(s);
    let n: usize = find_char(a.as_slice(), c);
    if n < a.len() {
        let head: String = text_between(a.as_slice(), 0, n);
        let tail: String = text_between(a.as_slice(), n + 1, a.len());
        assert(head@ =~= s@.take(n as int));
        assert(tail@ =~= s@.skip(n + 1));
        Some((head, tail))
    } else {
        None
    }
}

// ---- splitting and joining -----------------------------------------------------

/// The pieces of `s` between the separators `c`: one more than there are separators.
pub open spec fn pieces(s: Seq<char>, c: char) -> Seq<Seq<char>>
    decreases s.len(),
{
    if s.len() == 0 {
        seq![Seq::<char>::empty()]
    } else {
        let before = pieces(s.drop_last(), c);
        if s.last() == c {
            before.push(Seq::<char>::empty())
        } else {
            before.drop_last().push(before.last().push(s.last()))
        }
    }
}

/// The texts of a vector.
pub open spec fn views(v: Seq<String>) -> Seq<Seq<char>> {
    v.map_values(|s: String| s@)
}

/// Adding a text adds its view.
pub broadcast proof fn lemma_views_push(v: Seq<String>, s: String)
    ensures
        #[trigger] views(v.push(s)) == views(v).push(s@),
{
    assert(views(v.push(s)) =~= views(v).push(s@));
}

/// There is always at least one piece.
pub proof fn lemma_pieces_nonempty(s: Seq<char>, c: char)
    ensures
        pieces(s, c).len() > 0,
    decreases s.len(),
{
    if s.len() > 0 {
        lemma_pieces_nonempty(s.drop_last(), c);
    }
}

/// Splits a text at every `c`.
pub fn split_all(s: &str, c: char) -> (r: Vec<String>)
    ensures
        views(r@) == pieces(s@, c),
{
    broadcast use lemma_views_push;

    let a: Vec<char> = chars_of(s);
    let mut done: Vec<String> = Vec::new();
    let mut cur: String = String::new();
    let mut i: usize = 0;
    assert(s@.take(0) =~= Seq::<char>::empty());
    assert(views(done@).push(cur@) =~= pieces(s@.take(0), c));
    while i < a.len()
        invariant
            a@ == s@,
            i <= a@.len(),
            views(done@).push(cur@) == pieces(s@.take(i as int), c),
        decreases a@.len() - i,
    {
        let ch: char = a[i];
        let ghost before = views(done@).push(cur@);
        assert(s@.take(i + 1).drop_last() =~= s@.take(i as int));
        assert(before.drop_last() =~= views(done@));
        if ch == c {
            done.push(cur);
            cur = String::new();
        } else {
            cur.push(ch);
        }
        i += 1;
    }
    assert(s@.take(a@.len() as int) =~= s@);
    done.push(cur);
    done
}

/// The texts written one after another with `sep` between them.
pub open spec fn joined(parts: Seq<Seq<char>>, sep: Seq<char>) -> Seq<char>
    decreases parts.len(),
{
    if parts.len() == 0 {
        Seq::<char>::empty()
    } else if parts.len() == 1 {
        parts[0]
    } else {
        joined(parts.drop_last(), sep) + sep + parts.last()
    }
}

/// Joins texts with `sep` between them.
pub fn join_all(parts: &Vec<String>, sep: &str) -> (r: String)
    ensures
        r@ == joined(views(parts@), sep@),
{
    let mut out: String = String::new();
    let mut i: usize = 0;
    while i < parts.len()
        invariant
            i <= parts@.len(),
            out@ == joined(views(parts@).take(i as int), sep@),
        decreases parts@.len() - i,
    {
        let ghost next = views(parts@).take(i + 1);
        assert(next.drop_last() =~= views(parts@).take(i as int));
        if i > 0 {
            out.append(sep);
        }
        out.append(parts[i].as_str());
        assert(out@ =~= joined(next, sep@));
        i += 1;
    }
    assert(views(parts@).take(parts@.len() as int) =~= views(parts@));
    out
}

/// A piece holds no separator.
pub proof fn lemma_pieces_plain(s: Seq<char>, c: char, i: int)
    requires
        0 <= i < pieces(s, c).len(),
    ensures
        !pieces(s, c)[i].contains(c),
    decreases s.len(),
{
    if s.len() > 0 {
        let before = pieces(s.drop_last(), c);
        lemma_pieces_nonempty(s.drop_last(), c);
        if s.last() == c {
            if i < before.len() {
                lemma_pieces_plain(s.drop_last(), c, i);
            }
        } else {
            lemma_pieces_plain(s.drop_last(), c, i);
            let p = pieces(s, c)[i];
            if p.contains(c) {
                let k = choose|k: int| 0 <= k < p.len() && p[k] == c;
                assert(before[i][k] == c);
            }
        }
    }
}

proof fn lemma_pieces_add(a: Seq<char>, b: Seq<char>, c: char)
    requires
        !b.contains(c),
    ensures
        pieces(a + seq![c] + b, c) == pieces(a, c).push(b),
    decreases b.len(),
{
    let s = a + seq![c] + b;
    if b.len() == 0 {
        assert(s.drop_last() =~= a);
        assert(b =~= Seq::<char>::empty());
    } else {
        let init = b.drop_last();
        assert(!init.contains(c)) by {
            if init.contains(c) {
                let k = choose|k: int| 0 <= k < init.len() && init[k] == c;
                assert(b[k] == c);
            }
        }
        lemma_pieces_add(a, init, c);
        assert(s.drop_last() =~= a + seq![c] + init);
        assert(s.last() == b.last());
        assert(b[b.len() - 1] != c) by {
            if b[b.len() - 1] == c {
                assert(b.contains(c));
            }
        }
        let before = pieces(s.drop_last(), c);
        assert(before.drop_last() =~= pieces(a, c));
        assert(init.push(b.last()) =~= b);
    }
}

/// Joined texts split back, where none of them holds the separator.
pub proof fn law_joined_splits_back(parts: Seq<Seq<char>>, c: char)
    requires
        parts.len() > 0,
        forall|i: int| 0 <= i < parts.len() ==> !(#[trigger] parts[i]).contains(c),
    ensures
        pieces(joined(parts, seq![c]), c) == parts,
    decreases parts.len(),
{
    if parts.len() == 1 {
        lemma_pieces_of_plain(parts[0], c);
        assert(parts =~= seq![parts[0]]);
    } else {
        let init = parts.drop_last();
        assert forall|i: int| 0 <= i < init.len() implies !(#[trigger] init[i]).contains(c) by {
            assert(init[i] == parts[i]);
        }
        law_joined_splits_back(init, c);
        lemma_pieces_add(joined(init, seq![c]), parts.last(), c);
        assert(init.push(parts.last()) =~= parts);
    }
}

/// The pieces of two texts with a separator between them are those of both.
pub proof fn lemma_pieces_concat(a: Seq<char>, b: Seq<char>, c: char)
    ensures
        pieces(a + seq![c] + b, c) == pieces(a, c) + pieces(b, c),
    decreases b.len(),
{
    let s = a + seq![c] + b;
    if b.len() == 0 {
        assert(s.drop_last() =~= a);
        assert(pieces(s, c) =~= pieces(a, c) + pieces(b, c));
    } else {
        let init = b.drop_last();
        assert(s.drop_last() =~= a + seq![c] + init);
        lemma_pieces_concat(a, init, c);
        lemma_pieces_nonempty(init, c);
        let (before, last) = (pieces(a, c) + pieces(init, c), pieces(init, c).last());
        assert(before.last() == last);
        assert(before.drop_last() =~= pieces(a, c) + pieces(init, c).drop_last());
        assert(s.last() == b.last());
        assert(pieces(s, c) =~= pieces(a, c) + pieces(b, c));
    }
}

pub proof fn lemma_pieces_of_plain(s: Seq<char>, c: char)
    requires
        !s.contains(c),
    ensures
        pieces(s, c) == seq![s],
    decreases s.len(),
{
    if s.len() > 0 {
        let init = s.drop_last();
        assert(!init.contains(c)) by {
            if init.contains(c) {
                let k = choose|k: int| 0 <= k < init.len() && init[k] == c;
                assert(s[k] == c);
            }
        }
        lemma_pieces_of_plain(init, c);
        assert(s[s.len() - 1] != c) by {
            if s[s.len() - 1] == c {
                assert(s.contains(c));
            }
        }
        assert(init.push(s.last()) =~= s);
        assert(pieces(s, c) =~= seq![s]);
    } else {
        assert(s =~= Seq::<char>::empty());
    }
}

/// What is joined of more texts starts with what is joined of the first ones.
pub proof fn lemma_joined_prefix(a: Seq<Seq<char>>, b: Seq<Seq<char>>, sep: Seq<char>)
    ensures
        has_prefix(joined(a + b, sep), joined(a, sep)),
    decreases b.len(),
{
    if b.len() == 0 {
        assert(a + b =~= a);
        assert(joined(a, sep).subrange(0, joined(a, sep).len() as int) =~= joined(a, sep));
    } else {
        let init = b.drop_last();
        lemma_joined_prefix(a, init, sep);
        assert((a + b).drop_last() =~= a + init);
        let (p, q, r) = (joined(a, sep), joined(a + init, sep), joined(a + b, sep));
        if a.len() + b.len() == 1 {
            assert(p =~= Seq::<char>::empty());
            assert(r.subrange(0, 0) =~= p);
        } else {
            assert(r == q + sep + b.last());
            assert(r.subrange(0, p.len() as int) =~= q.subrange(0, p.len() as int));
        }
    }
}

// ---- trimming and lower case ----------------------------------------------------

/// A text without the leading characters that are in `drop`.
pub open spec fn trimmed_start(s: Seq<char>, drop: spec_fn(char) -> bool) -> Seq<char>
    decreases s.len(),
{
    if s.len() > 0 && drop(s[0]) {
        trimmed_start(s.skip(1), drop)
    } else {
        s
    }
}

/// A text without the trailing characters that are in `drop`.
pub open spec fn trimmed_end(s: Seq<char>, drop: spec_fn(char) -> bool) -> Seq<char>
    decreases s.len(),
{
    if s.len() > 0 && drop(s.last()) {
        trimmed_end(s.drop_last(), drop)
    } else {
        s
    }
}

/// A text without the white space at its ends.
pub open spec fn trimmed(s: Seq<char>) -> Seq<char> {
    trimmed_end(trimmed_start(s, |c: char| is_space(c)), |c: char| is_space(c))
}

/// The characters equal to `c`.
pub open spec fn only(c: char) -> spec_fn(char) -> bool {
    |x: char| x == c
}

/// A text without the occurrences of `c` at its ends.
pub open spec fn trimmed_of(s: Seq<char>, c: char) -> Seq<char> {
    trimmed_end(trimmed_start(s, only(c)), only(c))
}

/// Removes the white space at both ends.
pub fn trim(s: &str) -> (r: String)
    ensures
        r@ == trimmed(s@),
{
    let a: Vec<char> = chars_of(s);
    let ghost drop = |c: char| is_space(c);
    let mut i: usize = 0;
    assert(a@.skip(0) =~= a@);
    while i < a.len() && space_char(a[i])
        invariant
            i <= a@.len(),
            drop == (|c: char| is_space(c)),
            trimmed_start(a@, drop) == trimmed_start(a@.skip(i as int), drop),
        decreases a@.len() - i,
    {
        assert(a@.skip(i as int).skip(1) =~= a@.skip(i + 1));
        i += 1;
    }
    let mut j: usize = a.len();
    let ghost mid = a@.skip(i as int);
    assert(trimmed_start(a@, drop) == mid);
    assert(a@.subrange(i as int, j as int) =~= mid);
    while j > i && space_char(a[j - 1])
        invariant
            i <= j <= a@.len(),
            drop == (|c: char| is_space(c)),
            trimmed_end(mid, drop) == trimmed_end(a@.subrange(i as int, j as int), drop),
        decreases j,
    {
        assert(a@.subrange(i as int, j as int).drop_last() =~= a@.subrange(i as int, j - 1));
        j -= 1;
    }
    text_between(a.as_slice(), i, j)
}

/// Removes the occurrences of `c` at both ends.
pub fn trim_char(s: &str, c: char) -> (r: String)
    ensures
        r@ == trimmed_of(s@, c),
{
    let a: Vec<char> = chars_of(s);
    let ghost drop = only(c);
    let mut i: usize = 0;
    assert(a@.skip(0) =~= a@);
    while i < a.len() && a[i] == c
        invariant
            i <= a@.len(),
            drop == only(c),
            trimmed_start(a@, drop) == trimmed_start(a@.skip(i as int), drop),
        decreases a@.len() - i,
    {
        assert(a@.skip(i as int).skip(1) =~= a@.skip(i + 1));
        i += 1;
    }
    let mut j: usize = a.len();
    let ghost mid = a@.skip(i as int);
    assert(trimmed_start(a@, drop) == mid);
    assert(a@.subrange(i as int, j as int) =~= mid);
    while j > i && a[j - 1] == c
        invariant
            i <= j <= a@.len(),
            drop == only(c),
            trimmed_end(mid, drop) == trimmed_end(a@.subrange(i as int, j as int), drop),
        decreases j,
    {
        assert(a@.subrange(i as int, j as int).drop_last() =~= a@.subrange(i as int, j - 1));
        j -= 1;
    }
    text_between(a.as_slice(), i, j)
}

/// A text with its ASCII letters in lower case.
pub open spec fn lowered(s: Seq<char>) -> Seq<char> {
    s.map_values(|c: char| lower_char(c))
}

/// Puts the ASCII letters of a text in lower case.
pub fn to_lower(s: &str) -> (r: String)
    ensures
        r@ == lowered(s@),
{
    let a: Vec<char> = chars_of(s);
    let mut out: String = String::new();
    let mut i: usize = 0;
    while i < a.len()
        invariant
            a@ == s@,
            i <= a@.len(),
            out@ == lowered(s@.take(i as int)),
        decreases a@.len() - i,
    {
        out.push(lowered_char(a[i]));
        assert(lowered(s@.take(i + 1)) =~= lowered(s@.take(i as int)).push(lower_char(s@[i as int])));
        i += 1;
    }
    assert(s@.take(s@.len() as int) =~= s@);
    out
}

// ---- replacing ------------------------------------------------------------------

/// `s` with every `from`, found from left to right without overlap, replaced by `to`.
pub open spec fn replaced(s: Seq<char>, from: Seq<char>, to: Seq<char>) -> Seq<char>
    decreases s.len(),
{
    if s.len() == 0 || from.len() == 0 {
        s
    } else if has_prefix(s, from) {
        to + replaced(s.skip(from.len() as int), from, to)
    } else {
        seq![s[0]] + replaced(s.skip(1), from, to)
    }
}

/// Replaces every `from` by `to`, from left to right.
pub fn replace_all(s: &str, from: &str, to: &str) -> (r: String)
    requires
        from@.len() > 0,
    ensures
        r@ == replaced(s@, from@, to@),
{
    let a: Vec<char> = chars_of(s);
    let b: Vec<char> = chars_of(from);
    let mut out: String = String::new();
    let mut i: usize = 0;
    assert(a@.skip(0) =~= a@);
    assert(out@ + replaced(a@, from@, to@) =~= replaced(a@, from@, to@));
    while i < a.len()
        invariant
            a@ == s@,
            b@ == from@,
            from@.len() > 0,
            i <= a@.len(),
            out@ + replaced(a@.skip(i as int), from@, to@) == replaced(s@, from@, to@),
        decreases a@.len() - i,
    {
        let ghost rest = a@.skip(i as int);
        let ghost before = out@;
        let found: bool = part_at(a.as_slice(), b.as_slice(), i);
        proof {
            if i + from@.len() <= a@.len() {
                assert(rest.subrange(0, from@.len() as int) =~= a@.subrange(
                    i as int,
                    i + from@.len(),
                ));
            }
        }
        if found {
            assert(rest.skip(from@.len() as int) =~= a@.skip(i + from@.len()));
            out.append(to);
            i += b.len();
            assert(before + (to@ + replaced(a@.skip(i as int), from@, to@)) =~= out@ + replaced(
                a@.skip(i as int),
                from@,
                to@,
            ));
        } else {
            assert(rest.skip(1) =~= a@.skip(i + 1));
            out.push(a[i]);
            i += 1;
            assert(before + (seq![a@[i - 1]] + replaced(a@.skip(i as int), from@, to@)) =~= out@
                + replaced(a@.skip(i as int), from@, to@));
        }
    }
    assert(a@.skip(i as int) =~= Seq::<char>::empty());
    assert(out@ + Seq::<char>::empty() =~= out@);
    out
}

// ---- order ----------------------------------------------------------------------

/// The dictionary order of texts, character by character.
pub open spec fn text_lt(a: Seq<char>, b: Seq<char>) -> bool
    decreases b.len(),
{
    if b.len() == 0 {
        false
    } else if a.len() == 0 {
        true
    } else if a[0] != b[0] {
        a[0] < b[0]
    } else {
        text_lt(a.skip(1), b.skip(1))
    }
}

/// Where two texts first differ decides their order.
pub proof fn lemma_text_lt_at(a: Seq<char>, b: Seq<char>, i: int)
    requires
        0 <= i <= a.len(),
        i <= b.len(),
        a.take(i) == b.take(i),
    ensures
        text_lt(a, b) == text_lt(a.skip(i), b.skip(i)),
    decreases i,
{
    if i == 0 {
        assert(a.skip(0) =~= a);
        assert(b.skip(0) =~= b);
    } else {
        assert(a.take(i)[0] == a[0] && b.take(i)[0] == b[0]);
        assert(a.skip(1).take(i - 1) =~= a.take(i).skip(1));
        assert(b.skip(1).take(i - 1) =~= b.take(i).skip(1));
        lemma_text_lt_at(a.skip(1), b.skip(1), i - 1);
        assert(a.skip(1).skip(i - 1) =~= a.skip(i));
        assert(b.skip(1).skip(i - 1) =~= b.skip(i));
    }
}

/// No text is before itself.
pub proof fn lemma_text_lt_irreflexive(a: Seq<char>)
    ensures
        !text_lt(a, a),
    decreases a.len(),
{
    if a.len() > 0 {
        lemma_text_lt_irreflexive(a.skip(1));
    }
}

/// The order of texts is transitive.
pub proof fn lemma_text_lt_transitive(a: Seq<char>, b: Seq<char>, c: Seq<char>)
    requires
        text_lt(a, b),
        text_lt(b, c),
    ensures
        text_lt(a, c),
    decreases b.len(),
{
    if a.len() > 0 && b.len() > 0 && c.len() > 0 && a[0] == b[0] && b[0] == c[0] {
        lemma_text_lt_transitive(a.skip(1), b.skip(1), c.skip(1));
    }
}

/// Of two different texts one is before the other.
pub proof fn lemma_text_lt_total(a: Seq<char>, b: Seq<char>)
    ensures
        a == b || text_lt(a, b) || text_lt(b, a),
    decreases a.len(),
{
    if a.len() > 0 && b.len() > 0 && a[0] == b[0] {
        lemma_text_lt_total(a.skip(1), b.skip(1));
        if a.skip(1) == b.skip(1) {
            assert(a =~= seq![a[0]] + a.skip(1));
            assert(b =~= seq![b[0]] + b.skip(1));
        }
    } else if a.len() == 0 && b.len() == 0 {
        assert(a =~= b);
    }
}

/// The order has no two texts before each other.
pub proof fn lemma_text_lt_asymmetric(a: Seq<char>, b: Seq<char>)
    requires
        text_lt(a, b),
    ensures
        !text_lt(b, a),
        a != b,
{
    lemma_text_lt_irreflexive(a);
    if text_lt(b, a) {
        lemma_text_lt_transitive(a, b, a);
    }
}

/// Whether `a` is before `b` in the order of texts.
pub fn text_before(a: &str, b: &str) -> (r: bool)
    ensures
        r == text_lt(a@, b@),
{
    let x: Vec<char> = chars_of(a);
    let y: Vec<char> = chars_of(b);
    let mut i: usize = 0;
    while i < x.len() && i < y.len()
        invariant
            x@ == a@,
            y@ == b@,
            i <= x@.len(),
            i <= y@.len(),
            a@.take(i as int) == b@.take(i as int),
        decreases x@.len() - i,
    {
        if x[i] != y[i] {
            proof {
                lemma_text_lt_at(a@, b@, i as int);
            }
            return x[i] < y[i];
        }
        assert(a@.take(i + 1) =~= a@.take(i as int).push(a@[i as int]));
        assert(b@.take(i + 1) =~= b@.take(i as int).push(b@[i as int]));
        i += 1;
    }
    proof {
        lemma_text_lt_at(a@, b@, i as int);
    }
    i < y.len()
}

/// The number of bytes of a character in UTF-8.
pub open spec fn char_width(c: char) -> int {
    if (c as int) < 0x80 {
        1
    } else if (c as int) < 0x800 {
        2
    } else if (c as int) < 0x10000 {
        3
    } else {
        4
    }
}

/// The number of bytes of a text in UTF-8.
pub open spec fn byte_len(s: Seq<char>) -> int
    decreases s.len(),
{
    if s.len() == 0 {
        0
    } else {
        byte_len(s.drop_last()) + char_width(s.last())
    }
}

/// The first `n` bytes of a text, where a character ends there.
pub open spec fn byte_prefix(s: Seq<char>, n: int) -> Option<Seq<char>>
    decreases s.len(),
{
    if byte_len(s) == n {
        Some(s)
    } else if s.len() == 0 {
        None
    } else {
        byte_prefix(s.drop_last(), n)
    }
}

/// Beginnings of a text of the same number of bytes are the same.
pub proof fn lemma_byte_prefix(s: Seq<char>, i: int, n: int)
    requires
        0 <= i <= s.len(),
        byte_len(s.take(i)) == n,
    ensures
        byte_prefix(s, n) == Some(s.take(i)),
        byte_len(s) >= n,
        i < s.len() ==> byte_len(s) > n,
    decreases s.len(),
{
    if i == s.len() {
        assert(s.take(i) =~= s);
    } else {
        assert(s.drop_last().take(i) =~= s.take(i));
        lemma_byte_prefix(s.drop_last(), i, n);
    }
}

proof fn lemma_no_byte_prefix(s: Seq<char>, n: int, i: int)
    requires
        0 <= i <= s.len(),
        byte_len(s.take(i)) > n,
        forall|k: int| 0 <= k < i ==> byte_len(#[trigger] s.take(k)) != n,
    ensures
        byte_prefix(s, n) is None,
    decreases s.len(),
{
    if i == s.len() {
        assert(s.take(i) =~= s);
        if s.len() > 0 {
            lemma_none_below(s.drop_last(), n, s);
        }
    } else {
        assert(s.drop_last().take(i) =~= s.take(i));
        assert forall|k: int| 0 <= k < i implies byte_len(#[trigger] s.drop_last().take(k)) != n by {
            assert(s.drop_last().take(k) =~= s.take(k));
        }
        lemma_no_byte_prefix(s.drop_last(), n, i);
        lemma_byte_len_grows(s, i);
    }
}

proof fn lemma_none_below(t: Seq<char>, n: int, s: Seq<char>)
    requires
        t.len() < s.len(),
        t == s.take(t.len() as int),
        forall|k: int| 0 <= k < s.len() ==> byte_len(#[trigger] s.take(k)) != n,
    ensures
        byte_prefix(t, n) is None,
    decreases t.len(),
{
    assert(byte_len(s.take(t.len() as int)) != n);
    if t.len() > 0 {
        assert(t.drop_last() =~= s.take(t.len() - 1));
        lemma_none_below(t.drop_last(), n, s);
    }
}

proof fn lemma_byte_len_grows(s: Seq<char>, i: int)
    requires
        0 <= i <= s.len(),
    ensures
        byte_len(s.take(i)) <= byte_len(s),
    decreases s.len(),
{
    if i == s.len() {
        assert(s.take(i) =~= s);
    } else {
        assert(s.drop_last().take(i) =~= s.take(i));
        lemma_byte_len_grows(s.drop_last(), i);
    }
}

/// The longest beginning of a text that has at most `n` bytes.
pub open spec fn within_bytes(s: Seq<char>, n: int) -> Seq<char>
    decreases s.len(),
{
    if s.len() == 0 || byte_len(s) <= n {
        s
    } else {
        within_bytes(s.drop_last(), n)
    }
}

proof fn lemma_within_bytes(s: Seq<char>, i: int, n: int)
    requires
        0 <= i <= s.len(),
        byte_len(s.take(i)) <= n,
        i < s.len() ==> byte_len(s.take(i + 1)) > n,
    ensures
        within_bytes(s, n) == s.take(i),
    decreases s.len(),
{
    if i == s.len() {
        assert(s.take(i) =~= s);
    } else {
        lemma_byte_len_grows(s, i + 1);
        let t = s.drop_last();
        assert(t.take(i) =~= s.take(i));
        if i < t.len() {
            assert(t.take(i + 1) =~= s.take(i + 1));
        }
        lemma_within_bytes(t, i, n);
    }
}

/// The longest beginning of a text that has at most `n` bytes.
pub fn cut_to_bytes(s: &str, n: usize) -> (r: String)
    ensures
        r@ == within_bytes(s@, n as int),
{
    let c: Vec<char> = chars_of(s);
    let mut sum: usize = 0;
    let mut i: usize = 0;
    assert(byte_len(c@.take(0)) == 0);
    while i < c.len()
        invariant
            i <= c@.len(),
            c@ == s@,
            sum == byte_len(c@.take(i as int)),
            sum <= n,
        decreases c@.len() - i,
    {
        let w: usize = width(c[i]);
        assert(c@.take(i + 1).drop_last() =~= c@.take(i as int));
        if w > n - sum {
            proof {
                lemma_within_bytes(c@, i as int, n as int);
                assert(c@.take(i as int) =~= c@.subrange(0, i as int));
            }
            return text_between(&c, 0, i);
        }
        sum = sum + w;
        i += 1;
    }
    proof {
        lemma_within_bytes(c@, i as int, n as int);
        assert(c@.take(i as int) =~= s@);
    }
    s.to_owned()
}

/// The width of a character in UTF-8.
fn width(c: char) -> (r: usize)
    ensures
        r == char_width(c),
{
    let v: u32 = c as u32;
    if v < 0x80 {
        1
    } else if v < 0x800 {
        2
    } else if v < 0x10000 {
        3
    } else {
        4
    }
}

/// The number of bytes of a text, counted up to `max`.
pub fn bytes_up_to(c: &[char], max: usize) -> (r: usize)
    ensures
        r == (if byte_len(c@) < max {
            byte_len(c@)
        } else {
            max as int
        }),
{
    let mut sum: usize = 0;
    let mut i: usize = 0;
    while i < c.len()
        invariant
            i <= c@.len(),
            sum == byte_len(c@.take(i as int)),
            sum <= max,
        decreases c@.len() - i,
    {
        let w: usize = width(c[i]);
        proof {
            assert(c@.take(i + 1).drop_last() =~= c@.take(i as int));
            lemma_byte_len_grows(c@, i + 1);
        }
        if w > max - sum {
            return max;
        }
        sum = sum + w;
        i += 1;
    }
    assert(c@.take(c@.len() as int) =~= c@);
    sum
}

/// How many characters the first `n` bytes of a text hold, where a character ends
/// there.
pub fn chars_in_bytes(c: &[char], n: usize) -> (r: Option<usize>)
    ensures
        match r {
            Some(i) => i <= c@.len() && byte_prefix(c@, n as int) == Some(c@.take(i as int))
                && byte_len(c@.take(i as int)) == n,
            None => byte_prefix(c@, n as int) is None,
        },
{
    let mut left: usize = n;
    let mut i: usize = 0;
    assert(byte_len(c@.take(0)) == 0);
    while left > 0
        invariant
            i <= c@.len(),
            byte_len(c@.take(i as int)) == n - left,
            left <= n,
            forall|k: int| 0 <= k < i ==> byte_len(#[trigger] c@.take(k)) < n,
        decreases left,
    {
        if i == c.len() {
            proof {
                assert(c@.take(i as int) =~= c@);
                if c@.len() > 0 {
                    assert forall|k: int| 0 <= k < c@.len() implies byte_len(#[trigger] c@.take(k))
                        != n by {}
                    assert(c@.drop_last() =~= c@.take(c@.len() - 1));
                    lemma_none_below(c@.drop_last(), n as int, c@);
                }
            }
            return None;
        }
        let w: usize = width(c[i]);
        proof {
            assert(c@.take(i + 1).drop_last() =~= c@.take(i as int));
        }
        if w > left {
            proof {
                lemma_no_byte_prefix(c@, n as int, i + 1);
            }
            return None;
        }
        left = left - w;
        i += 1;
    }
    proof {
        lemma_byte_prefix(c@, i as int, n as int);
    }
    Some(i)
}

/// Some spaces.
pub open spec fn blanks(n: nat) -> Seq<char> {
    Seq::new(n, |i: int| ' ')
}

/// What a text lacks to a width.
pub open spec fn lack(s: Seq<char>, width: nat) -> nat {
    if s.len() < width {
        (width - s.len()) as nat
    } else {
        0
    }
}

/// A text with spaces behind it up to a width.
pub open spec fn left_aligned(s: Seq<char>, width: nat) -> Seq<char> {
    s + blanks(lack(s, width))
}

/// A text with spaces before it up to a width.
pub open spec fn right_aligned(s: Seq<char>, width: nat) -> Seq<char> {
    blanks(lack(s, width)) + s
}

fn filler(s: &str, width: usize) -> (r: String)
    ensures
        r@ == blanks(lack(s@, width as nat)),
{
    let c: Vec<char> = chars_of(s);
    let mut out: String = String::new();
    let mut i: usize = c.len();
    assert(out@ =~= blanks(0));
    while i < width
        invariant
            c@ == s@,
            c@.len() <= i,
            i <= width || i == c@.len(),
            out@ == blanks((i - c@.len()) as nat),
        decreases width - i,
    {
        out.push(' ');
        i += 1;
        assert(out@ =~= blanks((i - c@.len()) as nat));
    }
    out
}

/// Puts spaces behind a text up to a width.
pub fn align_left(s: &str, width: usize) -> (r: String)
    ensures
        r@ == left_aligned(s@, width as nat),
{
    let fill: String = filler(s, width);
    concat2(s, fill.as_str())
}

/// Puts spaces before a text up to a width.
pub fn align_right(s: &str, width: usize) -> (r: String)
    ensures
        r@ == right_aligned(s@, width as nat),
{
    let fill: String = filler(s, width);
    concat2(fill.as_str(), s)
}

/// A text begins with what stands before the rest of it, ends with what stands after
/// the rest, and has as a part whatever stands between two others; it begins, ends
/// or has a part in no other way.
pub proof fn law_parts_are_what_stands_in_a_text(s: Seq<char>, part: Seq<char>)
    ensures
        forall|rest: Seq<char>| s == part + rest ==> has_prefix(s, part),
        forall|rest: Seq<char>| s == rest + part ==> has_suffix(s, part),
        forall|a: Seq<char>, b: Seq<char>| s == a + part + b ==> has_part(s, part),
        has_prefix(s, part) ==> exists|rest: Seq<char>| s == part + rest,
        has_suffix(s, part) ==> exists|rest: Seq<char>| s == rest + part,
        has_part(s, part) ==> exists|a: Seq<char>, b: Seq<char>| s == a + part + b,
{
    let n = part.len() as int;
    assert forall|rest: Seq<char>| s == part + rest implies has_prefix(s, part) by {
        assert(s.subrange(0, n) =~= part);
    }
    assert forall|rest: Seq<char>| s == rest + part implies has_suffix(s, part) by {
        assert(s.subrange(s.len() - n, s.len() as int) =~= part);
    }
    assert forall|a: Seq<char>, b: Seq<char>| s == a + part + b implies has_part(s, part) by {
        assert(s.subrange(a.len() as int, a.len() + n) =~= part);
        assert(occurs_at(s, part, a.len() as int));
    }
    if has_prefix(s, part) {
        assert(s =~= part + s.skip(n)) by {
            assert(s =~= s.subrange(0, n) + s.skip(n));
        }
    }
    if has_suffix(s, part) {
        let k = s.len() - n;
        assert(s =~= s.take(k) + part) by {
            assert(s =~= s.take(k) + s.subrange(k, k + n));
        }
    }
    if has_part(s, part) {
        let i = choose|i: int| occurs_at(s, part, i);
        assert(s =~= s.take(i) + part + s.skip(i + n)) by {
            assert(s =~= s.take(i) + s.subrange(i, i + n) + s.skip(i + n));
        }
    }
}

/// The order of texts is that of a dictionary: where two differ first, the one with the
/// smaller character is before the other, and the beginning of a text is before it.
pub proof fn law_texts_are_ordered_as_in_a_dictionary(
    start: Seq<char>,
    x: char,
    y: char,
    a: Seq<char>,
    b: Seq<char>,
)
    ensures
        (x as u32) < (y as u32) ==> text_lt(start + seq![x] + a, start + seq![y] + b),
        text_lt(start, start + seq![y] + b),
        !text_lt(start + seq![y] + b, start),
        !text_lt(start, start),
{
    let (s, t) = (start + seq![x] + a, start + seq![y] + b);
    let n = start.len() as int;
    assert(s.take(n) =~= start && t.take(n) =~= start && start.take(n) =~= start);
    assert(s.skip(n) =~= seq![x] + a);
    assert(t.skip(n) =~= seq![y] + b);
    assert(s.skip(n)[0] == x && t.skip(n)[0] == y);
    assert(start.skip(n) =~= Seq::<char>::empty());
    lemma_text_lt_at(s, t, n);
    lemma_text_lt_at(start, t, n);
    lemma_text_lt_at(t, start, n);
    lemma_text_lt_irreflexive(start);
}

/// Lower case changes the ASCII letters `A` to `Z` into `a` to `z`, each in its place,
/// and nothing else.
pub proof fn law_lower_case_of_letters(s: Seq<char>, i: int)
    requires
        0 <= i < s.len(),
    ensures
        lowered(s).len() == s.len(),
        'A' <= s[i] <= 'Z' ==> lowered(s)[i] as u32 == s[i] as u32 + 32,
        !('A' <= s[i] <= 'Z') ==> lowered(s)[i] == s[i],
        lowered(lowered(s)) == lowered(s),
{
    assert forall|k: int| 0 <= k < s.len() implies lowered(lowered(s))[k] == lowered(s)[k] by {
        lemma_lower_char(s[k]);
    }
    lemma_lower_char(s[i]);
    assert(lowered(lowered(s)) =~= lowered(s));
}

proof fn lemma_lower_char(c: char)
    ensures
        'A' <= c <= 'Z' ==> lower_char(c) as u32 == c as u32 + 32,
        lower_char(lower_char(c)) == lower_char(c),
{
    if 'A' <= c <= 'Z' {
        let u: u8 = c as u8;
        assert(u as u32 == c as u32);
    }
}

/// Trimming takes off white space and nothing else: what is left stands in the text
/// between white space, and neither starts nor ends with any.
pub proof fn law_trimming_takes_off_white_space(s: Seq<char>)
    ensures
        exists|a: Seq<char>, b: Seq<char>|
            #![trigger a + trimmed(s) + b]
            s == a + trimmed(s) + b && (forall|i: int|
                0 <= i < a.len() ==> is_space(#[trigger] a[i])) && (forall|i: int|
                0 <= i < b.len() ==> is_space(#[trigger] b[i])),
        trimmed(s).len() > 0 ==> !is_space(trimmed(s)[0]) && !is_space(trimmed(s).last()),
{
    let drop = |c: char| is_space(c);
    let t = trimmed_start(s, drop);
    let a = lemma_trimmed_start(s, drop);
    let b = lemma_trimmed_end(t, drop);
    assert(s =~= a + trimmed(s) + b);
    assert(forall|i: int| 0 <= i < a.len() ==> drop(#[trigger] a[i]));
    assert(forall|i: int| 0 <= i < b.len() ==> drop(#[trigger] b[i]));
    if trimmed(s).len() > 0 {
        assert(trimmed(s)[0] == t[0]);
        assert(!drop(t[0]));
        assert(!drop(trimmed(s).last()));
    }
}

proof fn lemma_trimmed_start(s: Seq<char>, drop: spec_fn(char) -> bool) -> (a: Seq<char>)
    ensures
        s == a + trimmed_start(s, drop),
        forall|i: int| 0 <= i < a.len() ==> drop(#[trigger] a[i]),
        trimmed_start(s, drop).len() > 0 ==> !drop(trimmed_start(s, drop)[0]),
    decreases s.len(),
{
    if s.len() > 0 && drop(s[0]) {
        let rest = lemma_trimmed_start(s.skip(1), drop);
        let a = seq![s[0]] + rest;
        assert(s =~= seq![s[0]] + s.skip(1));
        assert(seq![s[0]] + (rest + trimmed_start(s, drop)) =~= a + trimmed_start(s, drop));
        assert forall|i: int| 0 <= i < a.len() implies drop(#[trigger] a[i]) by {
            if i > 0 {
                assert(a[i] == rest[i - 1]);
            }
        }
        a
    } else {
        assert(s =~= Seq::<char>::empty() + s);
        Seq::empty()
    }
}

proof fn lemma_trimmed_end(s: Seq<char>, drop: spec_fn(char) -> bool) -> (b: Seq<char>)
    ensures
        s == trimmed_end(s, drop) + b,
        forall|i: int| 0 <= i < b.len() ==> drop(#[trigger] b[i]),
        trimmed_end(s, drop).len() > 0 ==> !drop(trimmed_end(s, drop).last()),
    decreases s.len(),
{
    if s.len() > 0 && drop(s.last()) {
        let rest = lemma_trimmed_end(s.drop_last(), drop);
        let b = rest.push(s.last());
        assert(s =~= s.drop_last().push(s.last()));
        assert((trimmed_end(s, drop) + rest).push(s.last()) =~= trimmed_end(s, drop) + b);
        assert forall|i: int| 0 <= i < b.len() implies drop(#[trigger] b[i]) by {
            if i < rest.len() {
                assert(b[i] == rest[i]);
            }
        }
        b
    } else {
        assert(s =~= s + Seq::<char>::empty());
        Seq::empty()
    }
}

/// An ASCII text has as many bytes as characters: cutting it to a number of bytes cuts
/// it to as many characters.
pub proof fn law_ascii_texts_are_cut_by_characters(s: Seq<char>, n: int)
    requires
        forall|i: int| 0 <= i < s.len() ==> ((#[trigger] s[i]) as int) < 0x80,
        0 <= n,
    ensures
        byte_len(s) == s.len(),
        n <= s.len() ==> byte_prefix(s, n) == Some(s.take(n)),
        within_bytes(s, n) == (if s.len() <= n {
            s
        } else {
            s.take(n)
        }),
    decreases s.len(),
{
    if s.len() > 0 {
        let init = s.drop_last();
        assert forall|i: int| 0 <= i < init.len() implies ((#[trigger] init[i]) as int) < 0x80 by {
            assert(init[i] == s[i]);
        }
        law_ascii_texts_are_cut_by_characters(init, n);
        assert((s[s.len() - 1] as int) < 0x80);
        if n < s.len() {
            assert(init.take(n) =~= s.take(n));
            assert(init.len() <= n ==> init =~= s.take(n));
        } else {
            assert(s.take(n) =~= s || n > s.len());
        }
    } else if n == 0 {
        assert(s.take(n) =~= s);
    }
}

/// Replacing puts the new text in place of each occurrence of the old, from left to
/// right, and leaves the rest: a text that does not hold the old one stays as it is.
pub proof fn law_replacing_leaves_the_rest(s: Seq<char>, from: Seq<char>, to: Seq<char>)
    requires
        from.len() > 0,
    ensures
        replaced(from + s, from, to) == to + replaced(s, from, to),
        !has_part(s, from) ==> replaced(s, from, to) == s,
        from.len() > s.len() ==> replaced(s, from, to) == s,
    decreases s.len(),
{
    assert((from + s).subrange(0, from.len() as int) =~= from);
    assert((from + s).skip(from.len() as int) =~= s);
    if !has_part(s, from) && s.len() > 0 {
        let less = s.skip(1);
        assert(!has_part(less, from)) by {
            if has_part(less, from) {
                let i = choose|i: int| occurs_at(less, from, i);
                assert(s.subrange(i + 1, i + 1 + from.len()) =~= less.subrange(i, i + from.len()));
                assert(occurs_at(s, from, i + 1));
            }
        }
        assert(!occurs_at(s, from, 0));
        law_replacing_leaves_the_rest(less, from, to);
        assert(seq![s[0]] + less =~= s);
    }
    if from.len() > s.len() && s.len() > 0 {
        law_replacing_leaves_the_rest(s.skip(1), from, to);
        assert(seq![s[0]] + s.skip(1) =~= s);
    }
}

/// An aligned text is as wide as asked for, or as itself where it is wider; it stands at
/// its side, and what is filled in is blank.
pub proof fn law_aligned_texts_fill_their_width(s: Seq<char>, width: nat, i: int)
    ensures
        s.len() <= width ==> left_aligned(s, width).len() == width,
        s.len() <= width ==> right_aligned(s, width).len() == width,
        s.len() >= width ==> left_aligned(s, width) == s && right_aligned(s, width) == s,
        left_aligned(s, width).take(s.len() as int) == s,
        right_aligned(s, width).skip(right_aligned(s, width).len() - s.len()) == s,
        s.len() <= i < width ==> left_aligned(s, width)[i] == ' ',
        0 <= i < width - s.len() ==> right_aligned(s, width)[i] == ' ',
{
    assert(left_aligned(s, width).take(s.len() as int) =~= s);
    assert(right_aligned(s, width).skip(right_aligned(s, width).len() - s.len()) =~= s);
    if s.len() >= width {
        assert(left_aligned(s, width) =~= s);
        assert(right_aligned(s, width) =~= s);
    }
}

/// The digits are `0` to `9`; letters and digits are those of ASCII; blanks, tabs and
/// line ends are white space, as are the other spaces of Unicode, and no letter, digit
/// or mark of ASCII is.
pub proof fn law_kinds_of_characters(c: char)
    ensures
        is_digit(c) <==> 48 <= c as int <= 57,
        is_alnum(c) <==> 48 <= c as int <= 57 || 65 <= c as int <= 90 || 97 <= c as int <= 122,
        c == ' ' || c == '\t' || c == '\n' || c == '\r' ==> is_space(c),
        33 <= c as int <= 126 ==> !is_space(c),
        c as int == 0x85 || c as int == 0xa0 || c as int == 0x1680 || 0x2000 <= c as int <= 0x200a || c
            as int == 0x2028 || c as int == 0x2029 || c as int == 0x202f || c as int == 0x205f || c
            as int == 0x3000 ==> is_space(c),
        is_space(c) && c as int > 32 ==> c as int == 0x85 || c as int == 0xa0 || c as int == 0x1680
            || 0x2000 <= c as int <= 0x200a || c as int == 0x2028 || c as int == 0x2029 || c as int
            == 0x202f || c as int == 0x205f || c as int == 0x3000,
{
}

/// A text is split at the first of a character: into what stands before it, which does
/// not hold it, and all that stands behind it.
pub proof fn law_split_at_the_first(a: Seq<char>, c: char, b: Seq<char>)
    requires
        !a.contains(c),
    ensures
        split_first(a + seq![c] + b, c) == Some((a, b)),
        split_first(a, c) is None,
{
    let s = a + seq![c] + b;
    let n = a.len() as int;
    assert forall|j: int| 0 <= j < n implies a[j] != c by {
        if a[j] == c {
            assert(a.contains(c));
        }
    }
    assert forall|j: int| 0 <= j < n implies s[j] != c by {
        assert(s[j] == a[j]);
    }
    assert(s[n] == c);
    lemma_index_or_len(s, c, n);
    lemma_index_or_len(a, c, n);
    assert(s.take(n) =~= a);
    assert(s.skip(n + 1) =~= b);
}

/// Trimming a character takes it off both ends and nothing else.
pub proof fn law_trimming_takes_off_a_character(s: Seq<char>, c: char)
    ensures
        exists|a: Seq<char>, b: Seq<char>|
            #![trigger a + trimmed_of(s, c) + b]
            s == a + trimmed_of(s, c) + b && (forall|i: int|
                0 <= i < a.len() ==> (#[trigger] a[i]) == c) && (forall|i: int|
                0 <= i < b.len() ==> (#[trigger] b[i]) == c),
        trimmed_of(s, c).len() > 0 ==> trimmed_of(s, c)[0] != c && trimmed_of(s, c).last() != c,
{
    let drop = only(c);
    let t = trimmed_start(s, drop);
    let a = lemma_trimmed_start(s, drop);
    let b = lemma_trimmed_end(t, drop);
    assert(s =~= a + trimmed_of(s, c) + b);
    assert(forall|i: int| 0 <= i < a.len() ==> drop(#[trigger] a[i]));
    assert(forall|i: int| 0 <= i < b.len() ==> drop(#[trigger] b[i]));
    if trimmed_of(s, c).len() > 0 {
        assert(trimmed_of(s, c)[0] == t[0]);
        assert(!drop(t[0]));
        assert(!drop(trimmed_of(s, c).last()));
    }
}

} // verus!
