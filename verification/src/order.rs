//! Sorting: the stable order of keys made of two numbers and a text.
use vstd::prelude::*;

use crate::text::{
    lemma_text_lt_asymmetric, lemma_text_lt_irreflexive, lemma_text_lt_total,
    lemma_text_lt_transitive, text_before, text_lt, views,
};

verus! {

/// A sort key: compared by `major`, then `minor`, then `text`.
pub struct SortKey {
    pub major: u64,
    pub minor: u64,
    pub text: String,
}

/// What a sort key holds.
pub struct KeyView {
    pub major: u64,
    pub minor: u64,
    pub text: Seq<char>,
}

impl View for SortKey {
    type V = KeyView;

    open spec fn view(&self) -> KeyView {
        KeyView { major: self.major, minor: self.minor, text: self.text@ }
    }
}

/// The views of some keys.
pub open spec fn key_views(keys: Seq<SortKey>) -> Seq<KeyView> {
    keys.map_values(|k: SortKey| k@)
}

/// `a` is strictly before `b`.
pub open spec fn key_lt(a: KeyView, b: KeyView) -> bool {
    ||| a.major < b.major
    ||| a.major == b.major && a.minor < b.minor
    ||| a.major == b.major && a.minor == b.minor && text_lt(a.text, b.text)
}

/// Item `i` comes before item `j` in a stable sort: by key, equal keys by position.
pub open spec fn comes_before(keys: Seq<KeyView>, i: int, j: int) -> bool {
    key_lt(keys[i], keys[j]) || (keys[i] == keys[j] && i < j)
}

/// `order` lists positions from `lo` up to `hi` in the order of a stable sort.
pub open spec fn sorted_positions(
    keys: Seq<KeyView>,
    order: Seq<usize>,
    lo: int,
    hi: int,
) -> bool {
    &&& order.len() == hi - lo
    &&& forall|i: int| 0 <= i < order.len() ==> lo <= #[trigger] order[i] < hi
    &&& forall|i: int, j: int|
        0 <= i < j < order.len() ==> comes_before(
            keys,
            #[trigger] order[i] as int,
            #[trigger] order[j] as int,
        )
}

/// `order` is the stable sort of `keys`: every position once, smaller keys first,
/// equal keys in their order of appearance.
pub open spec fn is_stable_order(keys: Seq<KeyView>, order: Seq<usize>) -> bool {
    sorted_positions(keys, order, 0, keys.len() as int)
}

proof fn lemma_key_lt_transitive(a: KeyView, b: KeyView, c: KeyView)
    requires
        key_lt(a, b),
        key_lt(b, c),
    ensures
        key_lt(a, c),
{
    if text_lt(a.text, b.text) && text_lt(b.text, c.text) {
        lemma_text_lt_transitive(a.text, b.text, c.text);
    }
}

proof fn lemma_key_lt_total(a: KeyView, b: KeyView)
    ensures
        a == b || key_lt(a, b) || key_lt(b, a),
{
    lemma_text_lt_total(a.text, b.text);
}

proof fn lemma_key_lt_asymmetric(a: KeyView, b: KeyView)
    requires
        key_lt(a, b),
    ensures
        !key_lt(b, a),
        a != b,
{
    lemma_text_lt_irreflexive(a.text);
    if text_lt(a.text, b.text) {
        lemma_text_lt_asymmetric(a.text, b.text);
    }
}

/// The order of a stable sort is transitive.
pub proof fn lemma_comes_before_transitive(keys: Seq<KeyView>, i: int, j: int, k: int)
    requires
        comes_before(keys, i, j),
        comes_before(keys, j, k),
    ensures
        comes_before(keys, i, k),
{
    if key_lt(keys[i], keys[j]) && key_lt(keys[j], keys[k]) {
        lemma_key_lt_transitive(keys[i], keys[j], keys[k]);
    }
}

/// The order of a stable sort has no cycle of one or two positions.
pub proof fn lemma_comes_before_asymmetric(keys: Seq<KeyView>, i: int, j: int)
    requires
        comes_before(keys, i, j),
    ensures
        i != j,
        !comes_before(keys, j, i),
{
    if key_lt(keys[i], keys[j]) {
        lemma_key_lt_asymmetric(keys[i], keys[j]);
    } else if key_lt(keys[j], keys[i]) {
        lemma_key_lt_asymmetric(keys[j], keys[i]);
    }
}

/// Of two positions one comes before the other.
pub proof fn lemma_comes_before_total(keys: Seq<KeyView>, i: int, j: int)
    ensures
        i == j || comes_before(keys, i, j) || comes_before(keys, j, i),
{
    lemma_key_lt_total(keys[i], keys[j]);
}

/// Whether `a` is strictly before `b`.
pub fn key_before(a: &SortKey, b: &SortKey) -> (r: bool)
    ensures
        r == key_lt(a@, b@),
{
    if a.major != b.major {
        return a.major < b.major;
    }
    if a.minor != b.minor {
        return a.minor < b.minor;
    }
    text_before(a.text.as_str(), b.text.as_str())
}

/// Merges two sorted runs of neighbouring positions.
fn merge(keys: &Vec<SortKey>, left: &Vec<usize>, right: &Vec<usize>, lo: usize, mid: usize, hi: usize)
    -> (out: Vec<usize>)
    requires
        lo <= mid <= hi <= keys@.len(),
        sorted_positions(key_views(keys@), left@, lo as int, mid as int),
        sorted_positions(key_views(keys@), right@, mid as int, hi as int),
    ensures
        sorted_positions(key_views(keys@), out@, lo as int, hi as int),
{
    let ghost kv = key_views(keys@);
    let mut out: Vec<usize> = Vec::new();
    let mut i: usize = 0;
    let mut j: usize = 0;
    while i < left.len() || j < right.len()
        invariant
            kv == key_views(keys@),
            lo <= mid <= hi <= keys@.len(),
            sorted_positions(kv, left@, lo as int, mid as int),
            sorted_positions(kv, right@, mid as int, hi as int),
            i <= left@.len(),
            j <= right@.len(),
            out@.len() == i + j,
            forall|a: int| 0 <= a < out@.len() ==> lo <= #[trigger] out@[a] < hi,
            forall|a: int, b: int|
                0 <= a < b < out@.len() ==> comes_before(
                    kv,
                    #[trigger] out@[a] as int,
                    #[trigger] out@[b] as int,
                ),
            forall|a: int, b: int|
                0 <= a < out@.len() && i <= b < left@.len() ==> comes_before(
                    kv,
                    #[trigger] out@[a] as int,
                    #[trigger] left@[b] as int,
                ),
            forall|a: int, b: int|
                0 <= a < out@.len() && j <= b < right@.len() ==> comes_before(
                    kv,
                    #[trigger] out@[a] as int,
                    #[trigger] right@[b] as int,
                ),
        decreases left@.len() + right@.len() - i - j,
    {
        let from_left: bool = if j == right.len() {
            true
        } else if i == left.len() {
            false
        } else {
            let l: usize = left[i];
            let r: usize = right[j];
            !key_before(&keys[r], &keys[l])
        };
        if from_left {
            let l: usize = left[i];
            proof {
                assert forall|b: int| j <= b < right@.len() implies comes_before(
                    kv,
                    l as int,
                    #[trigger] right@[b] as int,
                ) by {
                    let r = right@[j as int] as int;
                    lemma_comes_before_total(kv, l as int, r);
                    if comes_before(kv, r, l as int) {
                        assert(key_lt(kv[r], kv[l as int]));
                    }
                    if b > j {
                        lemma_comes_before_transitive(kv, l as int, r, right@[b] as int);
                    }
                }
            }
            out.push(l);
            i += 1;
        } else {
            let r: usize = right[j];
            proof {
                assert forall|b: int| i <= b < left@.len() implies comes_before(
                    kv,
                    r as int,
                    #[trigger] left@[b] as int,
                ) by {
                    let l = left@[i as int] as int;
                    if b > i {
                        lemma_comes_before_transitive(kv, r as int, l, left@[b] as int);
                    }
                }
            }
            out.push(r);
            j += 1;
        }
    }
    out
}

fn sort_run(keys: &Vec<SortKey>, lo: usize, hi: usize) -> (out: Vec<usize>)
    requires
        lo <= hi <= keys@.len(),
    ensures
        sorted_positions(key_views(keys@), out@, lo as int, hi as int),
    decreases hi - lo,
{
    if hi - lo == 0 {
        return Vec::new();
    }
    if hi - lo == 1 {
        let mut out: Vec<usize> = Vec::new();
        out.push(lo);
        return out;
    }
    let mid: usize = lo + (hi - lo) / 2;
    let left: Vec<usize> = sort_run(keys, lo, mid);
    let right: Vec<usize> = sort_run(keys, mid, hi);
    merge(keys, &left, &right, lo, mid, hi)
}

/// The stable sort of some keys, as the list of their positions.
pub fn stable_order(keys: &Vec<SortKey>) -> (order: Vec<usize>)
    ensures
        is_stable_order(key_views(keys@), order@),
        order@.len() == keys@.len(),
{
    sort_run(keys, 0, keys.len())
}

/// A stable order lists every position.
pub proof fn law_stable_order_is_complete(keys: Seq<KeyView>, order: Seq<usize>, p: int)
    requires
        is_stable_order(keys, order),
        0 <= p < keys.len(),
    ensures
        exists|i: int| 0 <= i < order.len() && order[i] == p,
{
    assert(order.no_duplicates()) by {
        assert forall|i: int, j: int| 0 <= i < order.len() && 0 <= j < order.len() && i != j implies order[i]
            != order[j] by {
            if i < j {
                lemma_comes_before_asymmetric(keys, order[i] as int, order[j] as int);
            } else {
                lemma_comes_before_asymmetric(keys, order[j] as int, order[i] as int);
            }
        }
    }
    let ints = order.map_values(|u: usize| u as int);
    assert(ints.no_duplicates());
    ints.unique_seq_to_set();
    let all = vstd::set_lib::set_int_range(0, keys.len() as int);
    vstd::set_lib::lemma_int_range(0, keys.len() as int);
    assert(ints.to_set().subset_of(all));
    vstd::set_lib::lemma_subset_equality(ints.to_set(), all);
    assert(all.contains(p));
    assert(ints.contains(p));
    let i = choose|i: int| 0 <= i < ints.len() && ints[i] == p;
    assert(order[i] == p);
}

/// There is only one stable order of some keys.
pub proof fn law_stable_order_is_unique(keys: Seq<KeyView>, a: Seq<usize>, b: Seq<usize>)
    requires
        is_stable_order(keys, a),
        is_stable_order(keys, b),
    ensures
        a == b,
{
    assert forall|i: int| 0 <= i < a.len() implies a[i] == b[i] by {
        lemma_same_at(keys, a, b, i);
    }
    assert(a =~= b);
}

proof fn lemma_same_at(keys: Seq<KeyView>, a: Seq<usize>, b: Seq<usize>, i: int)
    requires
        is_stable_order(keys, a),
        is_stable_order(keys, b),
        0 <= i < a.len(),
    ensures
        a[i] == b[i],
    decreases i,
{
    assert forall|k: int| 0 <= k < i implies a[k] == b[k] by {
        lemma_same_at(keys, a, b, k);
    }
    law_stable_order_is_complete(keys, b, a[i] as int);
    law_stable_order_is_complete(keys, a, b[i] as int);
    let p = choose|p: int| 0 <= p < b.len() && b[p] == a[i];
    let q = choose|q: int| 0 <= q < a.len() && a[q] == b[i];
    if p < i {
        assert(a[p] == b[p]);
        lemma_comes_before_asymmetric(keys, a[p] as int, a[i] as int);
    }
    if q < i {
        assert(a[q] == b[q]);
        lemma_comes_before_asymmetric(keys, b[q] as int, b[i] as int);
    }
    if p > i && q > i {
        assert(comes_before(keys, b[i] as int, b[p] as int));
        assert(comes_before(keys, a[i] as int, a[q] as int));
        lemma_comes_before_asymmetric(keys, b[i] as int, b[p] as int);
    }
}

/// The stable order of some keys.
pub open spec fn the_order(keys: Seq<KeyView>) -> Seq<usize> {
    choose|order: Seq<usize>| is_stable_order(keys, order)
}

/// Items in the stable order of their keys.
pub open spec fn stable_sorted<T>(keys: Seq<KeyView>, items: Seq<T>) -> Seq<T> {
    Seq::new(items.len(), |i: int| items[the_order(keys)[i] as int])
}

/// Items listed by a stable order of their keys are sorted.
pub proof fn lemma_stable_sorted<T>(
    keys: Seq<KeyView>,
    items: Seq<T>,
    order: Seq<usize>,
    out: Seq<T>,
)
    requires
        is_stable_order(keys, order),
        keys.len() == items.len(),
        out.len() == items.len(),
        forall|i: int| 0 <= i < out.len() ==> #[trigger] out[i] == items[order[i] as int],
    ensures
        out == stable_sorted(keys, items),
{
    law_stable_order_is_unique(keys, order, the_order(keys));
    assert(out =~= stable_sorted(keys, items));
}

/// The key of a text.
pub open spec fn text_key(t: Seq<char>) -> KeyView {
    KeyView { major: 0, minor: 0, text: t }
}

/// The keys of some texts.
pub open spec fn text_keys(texts: Seq<Seq<char>>) -> Seq<KeyView> {
    texts.map_values(|t: Seq<char>| text_key(t))
}

/// Some texts in alphabetical order.
pub open spec fn sorted_texts(texts: Seq<Seq<char>>) -> Seq<Seq<char>> {
    stable_sorted(text_keys(texts), texts)
}

/// Some texts in alphabetical order.
pub fn sort_texts(texts: &Vec<String>) -> (r: Vec<String>)
    ensures
        views(r@) == sorted_texts(views(texts@)),
        r@.len() == texts@.len(),
{
    let order: Vec<usize> = text_order(texts);
    let ghost tv = views(texts@);
    let mut out: Vec<String> = Vec::new();
    let mut i: usize = 0;
    while i < order.len()
        invariant
            i <= order@.len(),
            tv == views(texts@),
            is_stable_order(text_keys(tv), order@),
            order@.len() == texts@.len(),
            out@.len() == i,
            forall|k: int| 0 <= k < i ==> (#[trigger] out@[k])@ == tv[order@[k] as int],
        decreases order@.len() - i,
    {
        let p: usize = order[i];
        assert(tv[p as int] == texts@[p as int]@);
        out.push(texts[p].clone());
        i += 1;
    }
    proof {
        lemma_stable_sorted(text_keys(tv), tv, order@, views(out@));
    }
    out
}

/// The alphabetical order of some texts, as the list of their places.
pub fn text_order(texts: &Vec<String>) -> (order: Vec<usize>)
    ensures
        is_stable_order(text_keys(views(texts@)), order@),
        order@.len() == texts@.len(),
{
    let mut keys: Vec<SortKey> = Vec::new();
    let mut i: usize = 0;
    while i < texts.len()
        invariant
            i <= texts@.len(),
            keys@.len() == i,
            forall|k: int| 0 <= k < i ==> (#[trigger] keys@[k])@ == text_key(texts@[k]@),
        decreases texts@.len() - i,
    {
        keys.push(SortKey { major: 0, minor: 0, text: texts[i].clone() });
        i += 1;
    }
    assert(key_views(keys@) =~= text_keys(views(texts@)));
    stable_order(&keys)
}

/// Where position `n` goes into the stable order of the positions before it: behind
/// those that come before it.
spec fn insertion(keys: Seq<KeyView>, order: Seq<usize>, n: int) -> int
    decreases order.len(),
{
    if order.len() == 0 || comes_before(keys, order.last() as int, n) {
        order.len() as int
    } else {
        insertion(keys, order.drop_last(), n)
    }
}

proof fn lemma_insertion(keys: Seq<KeyView>, order: Seq<usize>, n: int)
    requires
        forall|i: int| 0 <= i < order.len() ==> (#[trigger] order[i]) != n,
        forall|i: int, j: int|
            0 <= i < j < order.len() ==> comes_before(
                keys,
                #[trigger] order[i] as int,
                #[trigger] order[j] as int,
            ),
    ensures
        0 <= insertion(keys, order, n) <= order.len(),
        forall|i: int|
            0 <= i < insertion(keys, order, n) ==> comes_before(
                keys,
                #[trigger] order[i] as int,
                n,
            ),
        forall|i: int|
            insertion(keys, order, n) <= i < order.len() ==> comes_before(
                keys,
                n,
                #[trigger] order[i] as int,
            ),
    decreases order.len(),
{
    if order.len() > 0 {
        let last = order.len() - 1;
        if comes_before(keys, order[last] as int, n) {
            assert forall|i: int| 0 <= i < order.len() implies comes_before(
                keys,
                #[trigger] order[i] as int,
                n,
            ) by {
                if i < last {
                    lemma_comes_before_transitive(keys, order[i] as int, order[last] as int, n);
                }
            }
        } else {
            let init = order.drop_last();
            assert forall|i: int| 0 <= i < init.len() implies (#[trigger] init[i]) != n by {
                assert(init[i] == order[i]);
            }
            assert forall|i: int, j: int| 0 <= i < j < init.len() implies comes_before(
                keys,
                #[trigger] init[i] as int,
                #[trigger] init[j] as int,
            ) by {
                assert(init[i] == order[i] && init[j] == order[j]);
            }
            lemma_insertion(keys, init, n);
            let p = insertion(keys, init, n);
            assert forall|i: int| 0 <= i < p implies comes_before(
                keys,
                #[trigger] order[i] as int,
                n,
            ) by {
                assert(init[i] == order[i]);
            }
            assert forall|i: int| p <= i < order.len() implies comes_before(
                keys,
                n,
                #[trigger] order[i] as int,
            ) by {
                if i < last {
                    assert(init[i] == order[i]);
                } else {
                    lemma_comes_before_total(keys, order[last] as int, n);
                }
            }
        }
    }
}

/// Some keys always have a stable order.
pub proof fn law_stable_order_exists(keys: Seq<KeyView>)
    requires
        keys.len() <= usize::MAX,
    ensures
        is_stable_order(keys, the_order(keys)),
    decreases keys.len(),
{
    if keys.len() == 0 {
        assert(is_stable_order(keys, Seq::<usize>::empty()));
    } else {
        let init = keys.drop_last();
        let n = keys.len() - 1;
        law_stable_order_exists(init);
        let order = the_order(init);
        assert forall|i: int, j: int| 0 <= i < j < order.len() implies comes_before(
            keys,
            #[trigger] order[i] as int,
            #[trigger] order[j] as int,
        ) by {
            assert(comes_before(init, order[i] as int, order[j] as int));
        }
        lemma_insertion(keys, order, n);
        let p = insertion(keys, order, n);
        let all = order.insert(p, n as usize);
        assert forall|i: int| 0 <= i < all.len() implies 0 <= #[trigger] all[i] < keys.len() by {
            if i < p {
                assert(all[i] == order[i]);
            } else if i > p {
                assert(all[i] == order[i - 1]);
            }
        }
        assert forall|i: int, j: int| 0 <= i < j < all.len() implies comes_before(
            keys,
            #[trigger] all[i] as int,
            #[trigger] all[j] as int,
        ) by {
            let a = if i < p {
                i
            } else {
                i - 1
            };
            let b = if j < p {
                j
            } else {
                j - 1
            };
            if i == p {
                assert(all[j] == order[b]);
            } else if j == p {
                assert(all[i] == order[a]);
            } else {
                assert(all[i] == order[a] && all[j] == order[b]);
            }
        }
        assert(is_stable_order(keys, all));
    }
}

/// Sorted items are in the order of their keys: none has a key before that of one that
/// stands before it, and equal keys keep their places.
pub proof fn law_sorted_items_ascend(keys: Seq<KeyView>, i: int, j: int)
    requires
        keys.len() <= usize::MAX,
        0 <= i < j < keys.len(),
    ensures
        ({
            let (a, b) = (the_order(keys)[i] as int, the_order(keys)[j] as int);
            &&& 0 <= a < keys.len()
            &&& 0 <= b < keys.len()
            &&& !key_lt(keys[b], keys[a])
            &&& keys[a] == keys[b] ==> a < b
        }),
{
    law_stable_order_exists(keys);
    let (a, b) = (the_order(keys)[i] as int, the_order(keys)[j] as int);
    assert(comes_before(keys, a, b));
    if key_lt(keys[a], keys[b]) {
        lemma_key_lt_asymmetric(keys[a], keys[b]);
    } else {
        lemma_text_lt_irreflexive(keys[a].text);
    }
}

/// Sorted texts are in order: none is before one that stands before it.
pub proof fn law_sorted_texts_ascend(texts: Seq<Seq<char>>, i: int, j: int)
    requires
        texts.len() <= usize::MAX,
        0 <= i < j < texts.len(),
    ensures
        !text_lt(sorted_texts(texts)[j], sorted_texts(texts)[i]),
{
    law_sorted_items_ascend(text_keys(texts), i, j);
}

/// Sorting loses no item and makes up none.
pub proof fn law_sorting_keeps_the_items<T>(keys: Seq<KeyView>, items: Seq<T>, x: T)
    requires
        keys.len() == items.len(),
        keys.len() <= usize::MAX,
    ensures
        stable_sorted(keys, items).len() == items.len(),
        stable_sorted(keys, items).contains(x) <==> items.contains(x),
{
    let all = stable_sorted(keys, items);
    law_stable_order_exists(keys);
    if all.contains(x) {
        let i = choose|i: int| 0 <= i < all.len() && all[i] == x;
        assert(items[the_order(keys)[i] as int] == x);
    }
    if items.contains(x) {
        let p = choose|p: int| 0 <= p < items.len() && items[p] == x;
        law_stable_order_is_complete(keys, the_order(keys), p);
        let i = choose|i: int| 0 <= i < the_order(keys).len() && the_order(keys)[i] == p;
        assert(all[i] == x);
    }
}

/// Keys are ordered by their first number, then by their second, then by their text.
pub proof fn law_keys_are_ordered_by_parts(a: KeyView, b: KeyView)
    ensures
        a.major < b.major ==> key_lt(a, b) && !key_lt(b, a),
        a.major == b.major && a.minor < b.minor ==> key_lt(a, b) && !key_lt(b, a),
        a.major == b.major && a.minor == b.minor ==> (key_lt(a, b) <==> text_lt(a.text, b.text)),
        key_lt(a, b) ==> a.major <= b.major,
{
}

} // verus!
