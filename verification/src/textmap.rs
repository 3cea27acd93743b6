//! Maps and sets that keep the order of their keys: texts, or pairs of texts.
use vstd::prelude::*;

use crate::text::{
    lemma_text_lt_irreflexive, lemma_text_lt_total, lemma_text_lt_transitive,
    text_before, text_eq, text_lt,
};

verus! {

/// A key: what it stands for, and a strict total order of that.
pub trait MapKey: Sized {
    type K;

    spec fn key(&self) -> Self::K;

    spec fn lt(a: Self::K, b: Self::K) -> bool;

    proof fn lt_irreflexive(a: Self::K)
        ensures
            !Self::lt(a, a),
    ;

    proof fn lt_transitive(a: Self::K, b: Self::K, c: Self::K)
        requires
            Self::lt(a, b),
            Self::lt(b, c),
        ensures
            Self::lt(a, c),
    ;

    proof fn lt_total(a: Self::K, b: Self::K)
        ensures
            a == b || Self::lt(a, b) || Self::lt(b, a),
    ;

    fn before(&self, other: &Self) -> (r: bool)
        ensures
            r == Self::lt(self.key(), other.key()),
    ;

    fn same(&self, other: &Self) -> (r: bool)
        ensures
            r == (self.key() == other.key()),
    ;
}

impl MapKey for String {
    type K = Seq<char>;

    open spec fn key(&self) -> Seq<char> {
        self@
    }

    open spec fn lt(a: Seq<char>, b: Seq<char>) -> bool {
        text_lt(a, b)
    }

    proof fn lt_irreflexive(a: Seq<char>) {
        lemma_text_lt_irreflexive(a);
    }

    proof fn lt_transitive(a: Seq<char>, b: Seq<char>, c: Seq<char>) {
        lemma_text_lt_transitive(a, b, c);
    }

    proof fn lt_total(a: Seq<char>, b: Seq<char>) {
        lemma_text_lt_total(a, b);
    }

    fn before(&self, other: &Self) -> (r: bool) {
        text_before(self.as_str(), other.as_str())
    }

    fn same(&self, other: &Self) -> (r: bool) {
        text_eq(self.as_str(), other.as_str())
    }
}

/// Two texts as one key: ordered by the first, then by the second.
#[derive(Clone, Debug, PartialEq, Eq)]
pub struct PairKey {
    pub first: String,
    pub second: String,
}

impl View for PairKey {
    type V = (Seq<char>, Seq<char>);

    open spec fn view(&self) -> (Seq<char>, Seq<char>) {
        (self.first@, self.second@)
    }
}

impl PairKey {
    pub fn copy(&self) -> (r: PairKey)
        ensures
            r@ == self@,
    {
        PairKey { first: self.first.clone(), second: self.second.clone() }
    }
}

/// A pair is before another.
pub open spec fn pair_lt(a: (Seq<char>, Seq<char>), b: (Seq<char>, Seq<char>)) -> bool {
    text_lt(a.0, b.0) || (a.0 == b.0 && text_lt(a.1, b.1))
}

impl MapKey for PairKey {
    type K = (Seq<char>, Seq<char>);

    open spec fn key(&self) -> (Seq<char>, Seq<char>) {
        self@
    }

    open spec fn lt(a: (Seq<char>, Seq<char>), b: (Seq<char>, Seq<char>)) -> bool {
        pair_lt(a, b)
    }

    proof fn lt_irreflexive(a: (Seq<char>, Seq<char>)) {
        lemma_text_lt_irreflexive(a.0);
        lemma_text_lt_irreflexive(a.1);
    }

    proof fn lt_transitive(
        a: (Seq<char>, Seq<char>),
        b: (Seq<char>, Seq<char>),
        c: (Seq<char>, Seq<char>),
    ) {
        if text_lt(a.0, b.0) && text_lt(b.0, c.0) {
            lemma_text_lt_transitive(a.0, b.0, c.0);
        }
        if text_lt(a.1, b.1) && text_lt(b.1, c.1) {
            lemma_text_lt_transitive(a.1, b.1, c.1);
        }
    }

    proof fn lt_total(a: (Seq<char>, Seq<char>), b: (Seq<char>, Seq<char>)) {
        lemma_text_lt_total(a.0, b.0);
        lemma_text_lt_total(a.1, b.1);
    }

    fn before(&self, other: &Self) -> (r: bool) {
        proof {
            lemma_text_lt_irreflexive(self.first@);
        }
        if text_eq(self.first.as_str(), other.first.as_str()) {
            text_before(self.second.as_str(), other.second.as_str())
        } else {
            text_before(self.first.as_str(), other.first.as_str())
        }
    }

    fn same(&self, other: &Self) -> (r: bool) {
        text_eq(self.first.as_str(), other.first.as_str()) && text_eq(
            self.second.as_str(),
            other.second.as_str(),
        )
    }
}

/// The keys stand in ascending order, each once.
pub open spec fn in_order<Q: MapKey>(keys: Seq<Q::K>) -> bool {
    forall|i: int, j: int|
        0 <= i < j < keys.len() ==> Q::lt(#[trigger] keys[i], #[trigger] keys[j])
}

/// The texts stand in ascending order, each once.
pub open spec fn ascending(keys: Seq<Seq<char>>) -> bool {
    forall|i: int, j: int|
        0 <= i < j < keys.len() ==> text_lt(#[trigger] keys[i], #[trigger] keys[j])
}

/// Where a key stands.
pub open spec fn key_index<K>(keys: Seq<K>, k: K) -> int {
    choose|i: int| 0 <= i < keys.len() && keys[i] == k
}

/// The map from each key to the value at its place.
pub open spec fn map_of<K, T>(keys: Seq<K>, vals: Seq<T>) -> Map<K, T> {
    Map::new(|k: K| keys.contains(k), |k: K| vals[key_index(keys, k)])
}

proof fn lemma_lt_asymmetric<Q: MapKey>(a: Q::K, b: Q::K)
    requires
        Q::lt(a, b),
    ensures
        !Q::lt(b, a),
        a != b,
{
    Q::lt_irreflexive(a);
    if Q::lt(b, a) {
        Q::lt_transitive(a, b, a);
    }
}

/// Keys in order are found where they stand.
pub proof fn lemma_in_order_index<Q: MapKey>(keys: Seq<Q::K>, i: int)
    requires
        in_order::<Q>(keys),
        0 <= i < keys.len(),
    ensures
        key_index(keys, keys[i]) == i,
        keys.contains(keys[i]),
{
    let j = key_index(keys, keys[i]);
    assert(keys[i] == keys[i]);
    if j < i {
        lemma_lt_asymmetric::<Q>(keys[j], keys[i]);
    } else if i < j {
        lemma_lt_asymmetric::<Q>(keys[i], keys[j]);
    }
}

/// Ascending texts are found where they stand.
pub proof fn lemma_key_index(keys: Seq<Seq<char>>, i: int)
    requires
        ascending(keys),
        0 <= i < keys.len(),
    ensures
        key_index(keys, keys[i]) == i,
        keys.contains(keys[i]),
{
    lemma_in_order_index::<String>(keys, i);
}

/// Two lists in order with the same members are the same list.
pub proof fn law_lists_in_order_are_sets<Q: MapKey>(a: Seq<Q::K>, b: Seq<Q::K>)
    requires
        in_order::<Q>(a),
        in_order::<Q>(b),
        forall|k: Q::K| a.contains(k) <==> b.contains(k),
    ensures
        a == b,
    decreases a.len(),
{
    if a.len() == 0 {
        if b.len() > 0 {
            assert(b.contains(b[0]));
        }
    } else {
        assert(a.contains(a.last()));
        assert(b.contains(a.last()));
        let p = choose|p: int| 0 <= p < b.len() && b[p] == a.last();
        assert(b.contains(b.last()));
        assert(a.contains(b.last()));
        let q = choose|q: int| 0 <= q < a.len() && a[q] == b.last();
        if p < b.len() - 1 {
            lemma_lt_asymmetric::<Q>(b[p], b.last());
            if q < a.len() - 1 {
                lemma_lt_asymmetric::<Q>(a[q], a.last());
            }
        }
        assert(a.last() == b.last());
        let (x, y) = (a.drop_last(), b.drop_last());
        assert forall|k: Q::K| x.contains(k) <==> y.contains(k) by {
            if x.contains(k) {
                let i = choose|i: int| 0 <= i < x.len() && x[i] == k;
                lemma_lt_asymmetric::<Q>(a[i], a.last());
                assert(a.contains(a[i]));
                let j = choose|j: int| 0 <= j < b.len() && b[j] == k;
                assert(y[j] == k);
            }
            if y.contains(k) {
                let i = choose|i: int| 0 <= i < y.len() && y[i] == k;
                lemma_lt_asymmetric::<Q>(b[i], b.last());
                assert(b.contains(b[i]));
                let j = choose|j: int| 0 <= j < a.len() && a[j] == k;
                assert(x[j] == k);
            }
        }
        law_lists_in_order_are_sets::<Q>(x, y);
        assert(a =~= x.push(a.last()));
        assert(b =~= y.push(b.last()));
    }
}

/// The list with a member put in where it belongs.
spec fn with_member<Q: MapKey>(list: Seq<Q::K>, k: Q::K) -> Seq<Q::K>
    decreases list.len(),
{
    if list.len() == 0 || Q::lt(list.last(), k) {
        list.push(k)
    } else if list.last() == k {
        list
    } else {
        with_member::<Q>(list.drop_last(), k).push(list.last())
    }
}

proof fn lemma_with_member<Q: MapKey>(list: Seq<Q::K>, k: Q::K)
    requires
        in_order::<Q>(list),
    ensures
        in_order::<Q>(with_member::<Q>(list, k)),
        forall|m: Q::K|
            with_member::<Q>(list, k).contains(m) <==> list.contains(m) || m == k,
    decreases list.len(),
{
    let all = with_member::<Q>(list, k);
    if list.len() == 0 || Q::lt(list.last(), k) {
        assert forall|i: int, j: int| 0 <= i < j < all.len() implies Q::lt(
            #[trigger] all[i],
            #[trigger] all[j],
        ) by {
            if j == list.len() && i < list.len() - 1 {
                Q::lt_transitive(list[i], list.last(), k);
            }
        }
        assert forall|m: Q::K| all.contains(m) <==> list.contains(m) || m == k by {
            assert(all[list.len() as int] == k);
            if list.contains(m) {
                let i = choose|i: int| 0 <= i < list.len() && list[i] == m;
                assert(all[i] == m);
            }
            if all.contains(m) && m != k {
                let i = choose|i: int| 0 <= i < all.len() && all[i] == m;
                assert(list[i] == m);
            }
        }
    } else if list.last() == k {
        assert(list[list.len() - 1] == k);
    } else {
        let init = list.drop_last();
        let before = with_member::<Q>(init, k);
        assert forall|i: int, j: int| 0 <= i < j < init.len() implies Q::lt(
            #[trigger] init[i],
            #[trigger] init[j],
        ) by {
            assert(init[i] == list[i] && init[j] == list[j]);
        }
        lemma_with_member::<Q>(init, k);
        Q::lt_total(list.last(), k);
        assert forall|i: int, j: int| 0 <= i < j < all.len() implies Q::lt(
            #[trigger] all[i],
            #[trigger] all[j],
        ) by {
            if j < before.len() {
                assert(Q::lt(before[i], before[j]));
            } else {
                assert(all[i] == before[i]);
                assert(before.contains(before[i]));
                if before[i] != k {
                    assert(init.contains(before[i]));
                    let x = choose|x: int| 0 <= x < init.len() && init[x] == before[i];
                    assert(list[x] == before[i]);
                    assert(Q::lt(list[x], list[list.len() - 1]));
                }
            }
        }
        assert forall|m: Q::K| all.contains(m) <==> list.contains(m) || m == k by {
            if all.contains(m) {
                let i = choose|i: int| 0 <= i < all.len() && all[i] == m;
                if i < before.len() {
                    assert(before[i] == m);
                    assert(before.contains(m));
                    if m != k {
                        assert(init.contains(m));
                        let x = choose|x: int| 0 <= x < init.len() && init[x] == m;
                        assert(list[x] == m);
                    }
                } else {
                    assert(list[list.len() - 1] == m);
                }
            }
            if list.contains(m) || m == k {
                if init.contains(m) || m == k {
                    assert(before.contains(m));
                    let i = choose|i: int| 0 <= i < before.len() && before[i] == m;
                    assert(all[i] == m);
                } else {
                    let x = choose|x: int| 0 <= x < list.len() && list[x] == m;
                    if x < init.len() {
                        assert(init[x] == m);
                    }
                    assert(all[all.len() - 1] == m);
                }
            }
        }
    }
}

/// The keys are the members of a list, in order, each once.
pub open spec fn lists_members<Q: MapKey>(keys: Seq<Q::K>, list: Seq<Q::K>) -> bool {
    &&& in_order::<Q>(keys)
    &&& forall|k: Q::K| keys.contains(k) <==> list.contains(k)
}

/// The members of a list, in order, each once.
pub open spec fn members<Q: MapKey>(list: Seq<Q::K>) -> Seq<Q::K> {
    choose|keys: Seq<Q::K>| lists_members::<Q>(keys, list)
}

/// The members of any list can be put in order.
pub proof fn law_members_are_listed<Q: MapKey>(list: Seq<Q::K>)
    ensures
        lists_members::<Q>(members::<Q>(list), list),
    decreases list.len(),
{
    if list.len() == 0 {
        assert(lists_members::<Q>(Seq::empty(), list));
    } else {
        let init = list.drop_last();
        law_members_are_listed::<Q>(init);
        let before = members::<Q>(init);
        let all = with_member::<Q>(before, list.last());
        lemma_with_member::<Q>(before, list.last());
        assert forall|k: Q::K| all.contains(k) <==> list.contains(k) by {
            assert(list[list.len() - 1] == list.last());
            if init.contains(k) {
                let i = choose|i: int| 0 <= i < init.len() && init[i] == k;
                assert(list[i] == k);
            }
            if list.contains(k) && k != list.last() {
                let i = choose|i: int| 0 <= i < list.len() && list[i] == k;
                assert(init[i] == k);
            }
        }
        assert(lists_members::<Q>(all, list));
    }
}

/// A map in the order of its keys.
#[derive(Debug)]
pub struct OrdMap<Q: MapKey, V> {
    entries: Vec<(Q, V)>,
}

/// The keys of some entries.
spec fn entry_keys<Q: MapKey, V>(entries: Seq<(Q, V)>) -> Seq<Q::K> {
    entries.map_values(|e: (Q, V)| e.0.key())
}

/// The values of some entries.
spec fn entry_vals<Q, V: View>(entries: Seq<(Q, V)>) -> Seq<V::V> {
    entries.map_values(|e: (Q, V)| e.1@)
}

impl<Q: MapKey, V: View> View for OrdMap<Q, V> {
    type V = Map<Q::K, V::V>;

    closed spec fn view(&self) -> Map<Q::K, V::V> {
        map_of(entry_keys(self.entries@), entry_vals(self.entries@))
    }
}

impl<Q: MapKey, V> OrdMap<Q, V> {
    #[verifier::type_invariant]
    spec fn well_formed(self) -> bool {
        in_order::<Q>(entry_keys(self.entries@))
    }
}

impl<Q: MapKey, V: View> OrdMap<Q, V> {
    /// The keys in order.
    pub closed spec fn keys(&self) -> Seq<Q::K> {
        entry_keys(self.entries@)
    }

    pub fn new() -> (r: Self)
        ensures
            r@ == Map::<Q::K, V::V>::empty(),
            r.keys() == Seq::<Q::K>::empty(),
    {
        let r = OrdMap::<Q, V> { entries: Vec::new() };
        proof {
            assert(r.keys() =~= Seq::<Q::K>::empty());
            assert(r@ =~= Map::<Q::K, V::V>::empty());
        }
        r
    }

    /// The number of keys.
    pub fn len(&self) -> (r: usize)
        ensures
            r == self.keys().len(),
            in_order::<Q>(self.keys()),
            forall|k: Q::K|
                #![trigger self@.dom().contains(k)]
                #![trigger self.keys().contains(k)]
                self@.dom().contains(k) <==> self.keys().contains(k),
    {
        proof {
            use_type_invariant(self);
        }
        self.entries.len()
    }

    /// The key at a place.
    pub fn key_at(&self, i: usize) -> (r: &Q)
        requires
            i < self.keys().len(),
        ensures
            r.key() == self.keys()[i as int],
            self@.dom().contains(r.key()),
    {
        proof {
            use_type_invariant(self);
            lemma_in_order_index::<Q>(self.keys(), i as int);
        }
        &self.entries[i].0
    }

    /// The value at a place.
    pub fn value_at(&self, i: usize) -> (r: &V)
        requires
            i < self.keys().len(),
        ensures
            r@ == self@[self.keys()[i as int]],
            self@.dom().contains(self.keys()[i as int]),
    {
        proof {
            use_type_invariant(self);
            lemma_in_order_index::<Q>(self.keys(), i as int);
        }
        &self.entries[i].1
    }

    /// The first place whose key is not before `key`.
    fn place(&self, key: &Q) -> (r: usize)
        ensures
            r <= self.keys().len(),
            forall|i: int| 0 <= i < r ==> Q::lt(#[trigger] self.keys()[i], key.key()),
            forall|i: int| r <= i < self.keys().len() ==> !Q::lt(#[trigger] self.keys()[i], key.key()),
    {
        proof {
            use_type_invariant(self);
        }
        let ghost keys = self.keys();
        let mut lo: usize = 0;
        let mut hi: usize = self.entries.len();
        while lo < hi
            invariant
                keys == self.keys(),
                in_order::<Q>(keys),
                lo <= hi <= keys.len(),
                keys.len() == self.entries@.len(),
                forall|i: int| 0 <= i < lo ==> Q::lt(#[trigger] keys[i], key.key()),
                forall|i: int| hi <= i < keys.len() ==> !Q::lt(#[trigger] keys[i], key.key()),
            decreases hi - lo,
        {
            let mid: usize = lo + (hi - lo) / 2;
            assert(keys[mid as int] == self.entries@[mid as int].0.key());
            if self.entries[mid].0.before(key) {
                assert forall|i: int| 0 <= i <= mid implies Q::lt(#[trigger] keys[i], key.key()) by {
                    if i < mid {
                        Q::lt_transitive(keys[i], keys[mid as int], key.key());
                    }
                }
                lo = mid + 1;
            } else {
                assert forall|i: int| mid <= i < keys.len() implies !Q::lt(
                    #[trigger] keys[i],
                    key.key(),
                ) by {
                    if mid < i && Q::lt(keys[i], key.key()) {
                        Q::lt_transitive(keys[mid as int], keys[i], key.key());
                    }
                }
                hi = mid;
            }
        }
        lo
    }

    /// Where a key stands, if it is there.
    pub fn find(&self, key: &Q) -> (r: Option<usize>)
        ensures
            r is Some <==> self@.dom().contains(key.key()),
            r matches Some(i) ==> i < self.keys().len() && self.keys()[i as int] == key.key(),
    {
        proof {
            use_type_invariant(self);
        }
        let p: usize = self.place(key);
        let ghost keys = self.keys();
        if p < self.entries.len() && self.entries[p].0.same(key) {
            assert(keys[p as int] == key.key());
            assert(keys.contains(key.key()));
            return Some(p);
        }
        proof {
            if keys.contains(key.key()) {
                let i = choose|i: int| 0 <= i < keys.len() && keys[i] == key.key();
                Q::lt_irreflexive(key.key());
                assert(i >= p);
                if i > p {
                    assert(Q::lt(keys[p as int], keys[i]));
                }
                assert(keys[p as int] == self.entries@[p as int].0.key());
            }
        }
        None
    }

    pub fn contains(&self, key: &Q) -> (r: bool)
        ensures
            r == self@.dom().contains(key.key()),
    {
        self.find(key).is_some()
    }

    pub fn get(&self, key: &Q) -> (r: Option<&V>)
        ensures
            match r {
                Some(v) => self@.dom().contains(key.key()) && v@ == self@[key.key()],
                None => !self@.dom().contains(key.key()),
            },
    {
        match self.find(key) {
            Some(i) => Some(self.value_at(i)),
            None => None,
        }
    }

    /// Sets the value of a key.
    pub fn insert(&mut self, key: Q, value: V)
        ensures
            final(self)@ == old(self)@.insert(key.key(), value@),
    {
        proof {
            use_type_invariant(&*self);
        }
        let ghost before = self.entries@;
        let ghost keys = self.keys();
        let ghost map = self@;
        let found: Option<usize> = self.find(&key);
        let p: usize = self.place(&key);
        let mut entries: Vec<(Q, V)> = Vec::new();
        std::mem::swap(&mut entries, &mut self.entries);
        match found {
            Some(i) => {
                entries.set(i, (key, value));
                proof {
                    let after = entries@;
                    assert(entry_keys(after) =~= keys);
                    assert(entry_vals(after) =~= entry_vals(before).update(i as int, value@));
                    assert forall|k: Q::K| keys.contains(k) implies map_of(
                        entry_keys(after),
                        entry_vals(after),
                    )[k] == map.insert(key.key(), value@)[k] by {
                        let j = choose|j: int| 0 <= j < keys.len() && keys[j] == k;
                        lemma_in_order_index::<Q>(keys, j);
                        lemma_in_order_index::<Q>(keys, i as int);
                    }
                    assert(map_of(entry_keys(after), entry_vals(after)) =~= map.insert(
                        key.key(),
                        value@,
                    ));
                }
            },
            None => {
                entries.insert(p, (key, value));
                proof {
                    let after = entries@;
                    let ak = entry_keys(after);
                    let av = entry_vals(after);
                    assert(ak =~= keys.insert(p as int, key.key()));
                    assert(av =~= entry_vals(before).insert(p as int, value@));
                    assert forall|i: int| p <= i < keys.len() implies Q::lt(
                        key.key(),
                        #[trigger] keys[i],
                    ) by {
                        Q::lt_total(key.key(), keys[i]);
                        if keys[i] == key.key() {
                            assert(keys.contains(key.key()));
                        }
                    }
                    assert forall|i: int, j: int| 0 <= i < j < ak.len() implies Q::lt(
                        #[trigger] ak[i],
                        #[trigger] ak[j],
                    ) by {
                        if i < p && j == p {
                            assert(Q::lt(keys[i], key.key()));
                        } else if i == p && j > p {
                            assert(Q::lt(key.key(), keys[j - 1]));
                        } else if i < p && j > p {
                            assert(Q::lt(keys[i], keys[j - 1]));
                        } else if i > p {
                            assert(Q::lt(keys[i - 1], keys[j - 1]));
                        } else {
                            assert(Q::lt(keys[i], keys[j]));
                        }
                    }
                    assert forall|k: Q::K| ak.contains(k) <==> (k == key.key() || keys.contains(
                        k,
                    )) by {
                        if keys.contains(k) {
                            let j = choose|j: int| 0 <= j < keys.len() && keys[j] == k;
                            assert(ak[if j < p {
                                j
                            } else {
                                j + 1
                            }] == k);
                        }
                        if ak.contains(k) {
                            let j = choose|j: int| 0 <= j < ak.len() && ak[j] == k;
                            if j < p {
                                assert(keys[j] == k);
                            } else if j > p {
                                assert(keys[j - 1] == k);
                            }
                        }
                        assert(ak[p as int] == key.key());
                    }
                    assert forall|k: Q::K| ak.contains(k) implies map_of(ak, av)[k]
                        == map.insert(key.key(), value@)[k] by {
                        let j = choose|j: int| 0 <= j < ak.len() && ak[j] == k;
                        lemma_in_order_index::<Q>(ak, j);
                        if j < p {
                            lemma_in_order_index::<Q>(keys, j);
                        } else if j > p {
                            lemma_in_order_index::<Q>(keys, j - 1);
                        }
                    }
                    assert(map_of(ak, av) =~= map.insert(key.key(), value@));
                }
            },
        }
        self.entries = entries;
    }

    /// Takes a key out, with its value.
    pub fn remove(&mut self, key: &Q) -> (r: Option<V>)
        ensures
            final(self)@ == old(self)@.remove(key.key()),
            match r {
                Some(v) => old(self)@.dom().contains(key.key()) && v@ == old(self)@[key.key()],
                None => !old(self)@.dom().contains(key.key()),
            },
    {
        proof {
            use_type_invariant(&*self);
        }
        let ghost before = self.entries@;
        let ghost keys = self.keys();
        let ghost map = self@;
        let i: usize = match self.find(key) {
            Some(i) => i,
            None => {
                assert(map.remove(key.key()) =~= map);
                return None;
            },
        };
        let mut entries: Vec<(Q, V)> = Vec::new();
        std::mem::swap(&mut entries, &mut self.entries);
        let (_, v): (Q, V) = entries.remove(i);
        proof {
            let after = entries@;
            let ak = entry_keys(after);
            let av = entry_vals(after);
            lemma_in_order_index::<Q>(keys, i as int);
            assert(ak =~= keys.remove(i as int));
            assert(av =~= entry_vals(before).remove(i as int));
            assert forall|a: int, b: int| 0 <= a < b < ak.len() implies Q::lt(
                #[trigger] ak[a],
                #[trigger] ak[b],
            ) by {
                let x = if a < i {
                    a
                } else {
                    a + 1
                };
                let y = if b < i {
                    b
                } else {
                    b + 1
                };
                assert(Q::lt(keys[x], keys[y]));
            }
            assert forall|k: Q::K| ak.contains(k) <==> (k != key.key() && keys.contains(k)) by {
                if keys.contains(k) && k != key.key() {
                    let j = choose|j: int| 0 <= j < keys.len() && keys[j] == k;
                    assert(ak[if j < i {
                        j
                    } else {
                        j - 1
                    }] == k);
                }
                if ak.contains(k) {
                    let j = choose|j: int| 0 <= j < ak.len() && ak[j] == k;
                    let x = if j < i {
                        j
                    } else {
                        j + 1
                    };
                    assert(keys[x] == k);
                    lemma_in_order_index::<Q>(keys, x);
                }
            }
            assert forall|k: Q::K| ak.contains(k) implies map_of(ak, av)[k] == map[k] by {
                let j = choose|j: int| 0 <= j < ak.len() && ak[j] == k;
                let x = if j < i {
                    j
                } else {
                    j + 1
                };
                lemma_in_order_index::<Q>(ak, j);
                lemma_in_order_index::<Q>(keys, x);
            }
            assert(map_of(ak, av) =~= map.remove(key.key()));
        }
        self.entries = entries;
        Some(v)
    }
}

/// Places in a list, in ascending order.
#[derive(Debug)]
pub struct Places {
    items: Vec<usize>,
}

impl View for Places {
    type V = Seq<usize>;

    closed spec fn view(&self) -> Seq<usize> {
        self.items@
    }
}

impl Places {
    pub fn one(p: usize) -> (r: Places)
        ensures
            r@ == seq![p],
    {
        let mut items: Vec<usize> = Vec::new();
        items.push(p);
        Places { items }
    }

    pub fn len(&self) -> (r: usize)
        ensures
            r == self@.len(),
    {
        self.items.len()
    }

    pub fn at(&self, i: usize) -> (r: usize)
        requires
            i < self@.len(),
        ensures
            r == self@[i as int],
    {
        self.items[i]
    }
}

impl<Q: MapKey> OrdMap<Q, Places> {
    /// Adds a place to those of a key.
    fn add_place(&mut self, key: Q, p: usize)
        ensures
            final(self)@ == old(self)@.insert(
                key.key(),
                if old(self)@.dom().contains(key.key()) {
                    old(self)@[key.key()].push(p)
                } else {
                    seq![p]
                },
            ),
    {
        proof {
            use_type_invariant(&*self);
        }
        let ghost before = self.entries@;
        let ghost keys = self.keys();
        let ghost map = self@;
        match self.find(&key) {
            None => {
                self.insert(key, Places::one(p));
            },
            Some(i) => {
                let mut entries: Vec<(Q, Places)> = Vec::new();
                std::mem::swap(&mut entries, &mut self.entries);
                entries[i].1.items.push(p);
                proof {
                    let after = entries@;
                    lemma_in_order_index::<Q>(keys, i as int);
                    let more = map[key.key()].push(p);
                    assert(entry_keys(after) =~= keys);
                    assert(entry_vals(after) =~= entry_vals(before).update(i as int, more));
                    assert forall|k: Q::K| keys.contains(k) implies map_of(
                        entry_keys(after),
                        entry_vals(after),
                    )[k] == map.insert(key.key(), more)[k] by {
                        let j = choose|j: int| 0 <= j < keys.len() && keys[j] == k;
                        lemma_in_order_index::<Q>(keys, j);
                    }
                    assert(map_of(entry_keys(after), entry_vals(after)) =~= map.insert(
                        key.key(),
                        more,
                    ));
                }
                self.entries = entries;
            },
        }
    }
}

/// What some keys stand for.
pub open spec fn key_values<Q: MapKey>(keys: Seq<Q>) -> Seq<Q::K> {
    keys.map_values(|q: Q| q.key())
}

/// The places of a list at which a value stands.
pub open spec fn places_of<K>(list: Seq<K>, k: K) -> Seq<usize>
    decreases list.len(),
{
    if list.len() == 0 {
        Seq::empty()
    } else if list.last() == k {
        places_of(list.drop_last(), k).push((list.len() - 1) as usize)
    } else {
        places_of(list.drop_last(), k)
    }
}

/// The places of a list, by what stands there.
pub open spec fn grouped<K>(list: Seq<K>) -> Map<K, Seq<usize>> {
    Map::new(|k: K| list.contains(k), |k: K| places_of(list, k))
}

/// A value's places are in the list, hold it, and ascend; there is one where it
/// stands.
pub proof fn lemma_places<K>(list: Seq<K>, k: K)
    requires
        list.len() <= usize::MAX,
    ensures
        forall|i: int|
            0 <= i < places_of(list, k).len() ==> (#[trigger] places_of(list, k)[i]) < list.len()
                && list[places_of(list, k)[i] as int] == k,
        forall|i: int, j: int|
            0 <= i < j < places_of(list, k).len() ==> places_of(list, k)[i] < places_of(list, k)[j],
        list.contains(k) <==> places_of(list, k).len() > 0,
        places_of(list, k).len() <= list.len(),
        forall|p: int|
            0 <= p < list.len() && list[p] == k ==> places_of(list, k).contains(p as usize),
    decreases list.len(),
{
    if list.len() > 0 {
        let init = list.drop_last();
        lemma_places(init, k);
        let before = places_of(init, k);
        let all = places_of(list, k);
        assert forall|p: int| 0 <= p < list.len() && list[p] == k implies all.contains(
            p as usize,
        ) by {
            if p < init.len() {
                assert(init[p] == k);
                assert(before.contains(p as usize));
                let x = choose|x: int| 0 <= x < before.len() && before[x] == p as usize;
                assert(all[x] == p as usize);
            } else {
                assert(all[all.len() - 1] == p as usize);
            }
        }
        if list.contains(k) {
            let p = choose|p: int| 0 <= p < list.len() && list[p] == k;
            assert(all.contains(p as usize));
        }
        if all.len() > 0 {
            assert(list[all[0] as int] == k);
        }
    }
}

/// How many places of a list some keys have together.
pub open spec fn place_total<K>(list: Seq<K>, keys: Seq<K>) -> nat
    decreases keys.len(),
{
    if keys.len() == 0 {
        0
    } else {
        place_total(list, keys.drop_last()) + places_of(list, keys.last()).len()
    }
}

proof fn lemma_place_total_step<Q: MapKey>(list: Seq<Q::K>, keys: Seq<Q::K>)
    requires
        list.len() > 0,
        in_order::<Q>(keys),
    ensures
        place_total(list, keys) == place_total(list.drop_last(), keys) + if keys.contains(
            list.last(),
        ) {
            1nat
        } else {
            0
        },
    decreases keys.len(),
{
    if keys.len() > 0 {
        let init = keys.drop_last();
        assert forall|i: int, j: int| 0 <= i < j < init.len() implies Q::lt(
            #[trigger] init[i],
            #[trigger] init[j],
        ) by {
            assert(init[i] == keys[i] && init[j] == keys[j]);
        }
        lemma_place_total_step::<Q>(list, init);
        let last = list.last();
        assert(keys[keys.len() - 1] == keys.last());
        if init.contains(last) {
            let i = choose|i: int| 0 <= i < init.len() && init[i] == last;
            assert(keys[i] == last);
            lemma_in_order_index::<Q>(keys, i);
            lemma_in_order_index::<Q>(keys, keys.len() - 1);
        } else if keys.contains(last) {
            let i = choose|i: int| 0 <= i < keys.len() && keys[i] == last;
            if i < init.len() {
                assert(init[i] == last);
            }
        }
    }
}

/// The places of the members of a list are all its places: together they are as many
/// as the list is long.
pub proof fn law_members_have_every_place<Q: MapKey>(list: Seq<Q::K>, keys: Seq<Q::K>)
    requires
        in_order::<Q>(keys),
        forall|i: int| 0 <= i < list.len() ==> keys.contains(#[trigger] list[i]),
    ensures
        place_total(list, keys) == list.len(),
    decreases list.len(),
{
    if list.len() == 0 {
        lemma_no_places(list, keys);
    } else {
        let init = list.drop_last();
        assert forall|i: int| 0 <= i < init.len() implies keys.contains(#[trigger] init[i]) by {
            assert(init[i] == list[i]);
        }
        law_members_have_every_place::<Q>(init, keys);
        lemma_place_total_step::<Q>(list, keys);
        assert(keys.contains(list[list.len() - 1]));
    }
}

proof fn lemma_no_places<K>(list: Seq<K>, keys: Seq<K>)
    requires
        list.len() == 0,
    ensures
        place_total(list, keys) == 0,
    decreases keys.len(),
{
    if keys.len() > 0 {
        lemma_no_places(list, keys.drop_last());
    }
}

/// Groups the places of a list by what stands there.
pub fn group_places<Q: MapKey>(keys: Vec<Q>) -> (r: OrdMap<Q, Places>)
    ensures
        r@ == grouped(key_values(keys@)),
{
    let mut out: OrdMap<Q, Places> = OrdMap::new();
    let ghost all = key_values(keys@);
    let mut rest: Vec<Q> = keys;
    let n: usize = rest.len();
    // Turned round, so that the keys come off its end in order.
    let mut back: Vec<Q> = Vec::new();
    while rest.len() > 0
        invariant
            all == key_values(keys@),
            all.len() == n,
            rest@.len() + back@.len() == n,
            forall|i: int| 0 <= i < rest@.len() ==> (#[trigger] rest@[i]).key() == all[i],
            forall|i: int|
                0 <= i < back@.len() ==> (#[trigger] back@[i]).key() == all[n - 1 - i],
        decreases rest@.len(),
    {
        let q: Q = rest.pop().unwrap();
        back.push(q);
    }
    let mut i: usize = 0;
    assert(out@ =~= grouped(all.take(0)));
    while back.len() > 0
        invariant
            all.len() == n,
            i + back@.len() == n,
            forall|j: int|
                0 <= j < back@.len() ==> (#[trigger] back@[j]).key() == all[n - 1 - j],
            out@ == grouped(all.take(i as int)),
        decreases back@.len(),
    {
        let q: Q = back.pop().unwrap();
        let ghost k = q.key();
        let ghost seen = all.take(i as int);
        proof {
            let next = all.take(i + 1);
            assert(next.drop_last() =~= seen);
            assert(next.last() == k);
            lemma_places(seen, k);
            assert forall|m: Q::K| next.contains(m) <==> seen.contains(m) || m == k by {
                if seen.contains(m) {
                    let x = choose|x: int| 0 <= x < seen.len() && seen[x] == m;
                    assert(next[x] == m);
                }
                assert(next[i as int] == k);
                if next.contains(m) && m != k {
                    let x = choose|x: int| 0 <= x < next.len() && next[x] == m;
                    assert(seen[x] == m);
                }
            }
            assert(places_of(seen, k).len() == 0 ==> places_of(next, k) =~= seq![i]);
            assert(grouped(next) =~= grouped(seen).insert(
                k,
                if seen.contains(k) {
                    places_of(seen, k).push(i)
                } else {
                    seq![i]
                },
            ));
        }
        out.add_place(q, i);
        i += 1;
    }
    assert(all.take(n as int) =~= all);
    out
}

/// A map from texts, in the order of its keys.
#[derive(Debug)]
pub struct TextMap<V> {
    map: OrdMap<String, V>,
}

impl<V: View> View for TextMap<V> {
    type V = Map<Seq<char>, V::V>;

    closed spec fn view(&self) -> Map<Seq<char>, V::V> {
        self.map@
    }
}

impl<V: View> TextMap<V> {
    /// The keys in order.
    pub closed spec fn keys(&self) -> Seq<Seq<char>> {
        self.map.keys()
    }

    pub fn new() -> (r: Self)
        ensures
            r@ == Map::<Seq<char>, V::V>::empty(),
            r.keys() == Seq::<Seq<char>>::empty(),
    {
        TextMap { map: OrdMap::new() }
    }

    /// The number of keys.
    pub fn len(&self) -> (r: usize)
        ensures
            r == self.keys().len(),
            ascending(self.keys()),
            forall|k: Seq<char>|
                #![trigger self@.dom().contains(k)]
                #![trigger self.keys().contains(k)]
                self@.dom().contains(k) <==> self.keys().contains(k),
    {
        let n: usize = self.map.len();
        proof {
            let keys = self.map.keys();
            assert forall|i: int, j: int| 0 <= i < j < keys.len() implies text_lt(
                #[trigger] keys[i],
                #[trigger] keys[j],
            ) by {
                assert(<String as MapKey>::lt(keys[i], keys[j]));
            }
        }
        n
    }

    /// The key at a place.
    pub fn key_at(&self, i: usize) -> (r: &String)
        requires
            i < self.keys().len(),
        ensures
            r@ == self.keys()[i as int],
            self@.dom().contains(r@),
    {
        self.map.key_at(i)
    }

    /// The value at a place.
    pub fn value_at(&self, i: usize) -> (r: &V)
        requires
            i < self.keys().len(),
        ensures
            r@ == self@[self.keys()[i as int]],
            self@.dom().contains(self.keys()[i as int]),
    {
        self.map.value_at(i)
    }

    pub fn contains(&self, key: &str) -> (r: bool)
        ensures
            r == self@.dom().contains(key@),
    {
        self.map.contains(&key.to_owned())
    }

    pub fn get(&self, key: &str) -> (r: Option<&V>)
        ensures
            match r {
                Some(v) => self@.dom().contains(key@) && v@ == self@[key@],
                None => !self@.dom().contains(key@),
            },
    {
        self.map.get(&key.to_owned())
    }

    /// Sets the value of a key.
    pub fn insert(&mut self, key: String, value: V)
        ensures
            final(self)@ == old(self)@.insert(key@, value@),
    {
        self.map.insert(key, value);
    }

    /// Takes a key out, with its value.
    pub fn remove(&mut self, key: &str) -> (r: Option<V>)
        ensures
            final(self)@ == old(self)@.remove(key@),
            match r {
                Some(v) => old(self)@.dom().contains(key@) && v@ == old(self)@[key@],
                None => !old(self)@.dom().contains(key@),
            },
    {
        self.map.remove(&key.to_owned())
    }
}

/// A set of texts, in order.
#[derive(Debug)]
pub struct TextSet {
    members: TextMap<bool>,
}

impl View for TextSet {
    type V = Set<Seq<char>>;

    closed spec fn view(&self) -> Set<Seq<char>> {
        self.members@.dom()
    }
}

impl TextSet {
    /// The members in order.
    pub closed spec fn list(&self) -> Seq<Seq<char>> {
        self.members.keys()
    }

    pub fn new() -> (r: Self)
        ensures
            r@ == Set::<Seq<char>>::empty(),
            r.list() == Seq::<Seq<char>>::empty(),
    {
        let r = TextSet { members: TextMap::new() };
        assert(r@ =~= Set::<Seq<char>>::empty());
        r
    }

    /// The number of members.
    pub fn len(&self) -> (r: usize)
        ensures
            r == self.list().len(),
            ascending(self.list()),
            forall|k: Seq<char>|
                #![trigger self@.contains(k)]
                #![trigger self.list().contains(k)]
                self@.contains(k) <==> self.list().contains(k),
    {
        self.members.len()
    }

    /// The member at a place.
    pub fn at(&self, i: usize) -> (r: &String)
        requires
            i < self.list().len(),
        ensures
            r@ == self.list()[i as int],
            self@.contains(r@),
    {
        self.members.key_at(i)
    }

    pub fn contains(&self, s: &str) -> (r: bool)
        ensures
            r == self@.contains(s@),
    {
        self.members.contains(s)
    }

    /// Adds a member, and says whether it is new.
    pub fn insert(&mut self, s: String) -> (r: bool)
        ensures
            final(self)@ == old(self)@.insert(s@),
            r == !old(self)@.contains(s@),
    {
        let fresh: bool = !self.members.contains(s.as_str());
        self.members.insert(s, true);
        assert(self@ =~= old(self)@.insert(s@));
        fresh
    }

    /// Takes a member out, and says whether it was there.
    pub fn remove(&mut self, s: &str) -> (r: bool)
        ensures
            final(self)@ == old(self)@.remove(s@),
            r == old(self)@.contains(s@),
    {
        let there: bool = self.members.remove(s).is_some();
        assert(self@ =~= old(self)@.remove(s@));
        there
    }
}

} // verus!
