//! Maps and sets of paths: two texts that are the same path are one key, and the keys
//! are in the order of their components.
use vstd::prelude::*;

use crate::paths::{absolute, components, comps, is_abs, is_normal, same_path};
use crate::text::{
    lemma_text_lt_irreflexive, lemma_text_lt_total, lemma_text_lt_transitive, text_before, text_eq,
    text_lt, views,
};
use crate::textmap::{in_order, MapKey, OrdMap};

verus! {

/// What a path stands for: whether it starts at the root, and its components.
#[verifier::ext_equal]
pub struct PathId {
    pub abs: bool,
    pub comps: Seq<Seq<char>>,
}

/// What the path that a text writes stands for.
pub open spec fn path_id(p: Seq<char>) -> PathId {
    PathId { abs: is_abs(p), comps: comps(p) }
}

/// The place of a component before others by its kind: this directory, the one above,
/// then names.
pub open spec fn comp_rank(c: Seq<char>) -> int {
    if c == "."@ {
        0
    } else if c == ".."@ {
        1
    } else {
        2
    }
}

/// A component is before another: by kind, then by text.
pub open spec fn comp_lt(a: Seq<char>, b: Seq<char>) -> bool {
    comp_rank(a) < comp_rank(b) || (comp_rank(a) == comp_rank(b) && text_lt(a, b))
}

/// Components are before others: by the first in which they differ, and the shorter
/// before what starts with it.
pub open spec fn comps_lt(a: Seq<Seq<char>>, b: Seq<Seq<char>>) -> bool
    decreases a.len(),
{
    if b.len() == 0 {
        false
    } else if a.len() == 0 {
        true
    } else if a[0] == b[0] {
        comps_lt(a.skip(1), b.skip(1))
    } else {
        comp_lt(a[0], b[0])
    }
}

/// A path is before another. The root is before every component, and the empty path
/// before all others.
pub open spec fn path_lt(a: PathId, b: PathId) -> bool {
    if a.abs == b.abs {
        comps_lt(a.comps, b.comps)
    } else if a.abs {
        b.comps.len() > 0
    } else {
        a.comps.len() == 0
    }
}

proof fn lemma_comp_lt_irreflexive(a: Seq<char>)
    ensures
        !comp_lt(a, a),
{
    lemma_text_lt_irreflexive(a);
}

proof fn lemma_comp_lt_transitive(a: Seq<char>, b: Seq<char>, c: Seq<char>)
    requires
        comp_lt(a, b),
        comp_lt(b, c),
    ensures
        comp_lt(a, c),
{
    if text_lt(a, b) && text_lt(b, c) {
        lemma_text_lt_transitive(a, b, c);
    }
}

proof fn lemma_comps_lt_irreflexive(a: Seq<Seq<char>>)
    ensures
        !comps_lt(a, a),
    decreases a.len(),
{
    if a.len() > 0 {
        lemma_comps_lt_irreflexive(a.skip(1));
    }
}

proof fn lemma_comps_lt_transitive(a: Seq<Seq<char>>, b: Seq<Seq<char>>, c: Seq<Seq<char>>)
    requires
        comps_lt(a, b),
        comps_lt(b, c),
    ensures
        comps_lt(a, c),
    decreases a.len(),
{
    if a.len() > 0 {
        if a[0] == b[0] && b[0] == c[0] {
            lemma_comps_lt_transitive(a.skip(1), b.skip(1), c.skip(1));
        } else if a[0] != b[0] && b[0] != c[0] {
            lemma_comp_lt_transitive(a[0], b[0], c[0]);
            lemma_comp_lt_irreflexive(a[0]);
        }
    }
}

proof fn lemma_comps_lt_total(a: Seq<Seq<char>>, b: Seq<Seq<char>>)
    ensures
        a == b || comps_lt(a, b) || comps_lt(b, a),
    decreases a.len(),
{
    if a.len() > 0 && b.len() > 0 {
        if a[0] == b[0] {
            lemma_comps_lt_total(a.skip(1), b.skip(1));
            if a.skip(1) == b.skip(1) {
                assert(a =~= seq![a[0]] + a.skip(1));
                assert(b =~= seq![b[0]] + b.skip(1));
            }
        } else {
            lemma_text_lt_total(a[0], b[0]);
        }
    } else if a.len() == 0 && b.len() == 0 {
        assert(a =~= b);
    }
}

/// A path as a key.
#[derive(Debug)]
pub struct PathKey {
    abs: bool,
    comps: Vec<String>,
}

impl View for PathKey {
    type V = PathId;

    closed spec fn view(&self) -> PathId {
        PathId { abs: self.abs, comps: views(self.comps@) }
    }
}

impl PathKey {
    pub fn of(p: &str) -> (r: PathKey)
        ensures
            r@ == path_id(p@),
    {
        PathKey { abs: absolute(p), comps: components(p) }
    }
}

fn rank_of(c: &str) -> (r: u8)
    ensures
        r == comp_rank(c@),
{
    if text_eq(c, ".") {
        0
    } else if text_eq(c, "..") {
        1
    } else {
        2
    }
}

fn comps_before(a: &Vec<String>, b: &Vec<String>) -> (r: bool)
    ensures
        r == comps_lt(views(a@), views(b@)),
{
    let ghost (av, bv) = (views(a@), views(b@));
    let mut i: usize = 0;
    assert(av.skip(0) =~= av);
    assert(bv.skip(0) =~= bv);
    while i < a.len() && i < b.len()
        invariant
            i <= a@.len(),
            i <= b@.len(),
            av == views(a@),
            bv == views(b@),
            comps_lt(av, bv) == comps_lt(av.skip(i as int), bv.skip(i as int)),
        decreases a@.len() - i,
    {
        assert(av.skip(i as int)[0] == a@[i as int]@);
        assert(bv.skip(i as int)[0] == b@[i as int]@);
        if !text_eq(a[i].as_str(), b[i].as_str()) {
            let (x, y): (u8, u8) = (rank_of(a[i].as_str()), rank_of(b[i].as_str()));
            return x < y || (x == y && text_before(a[i].as_str(), b[i].as_str()));
        }
        assert(av.skip(i as int).skip(1) =~= av.skip(i + 1));
        assert(bv.skip(i as int).skip(1) =~= bv.skip(i + 1));
        i += 1;
    }
    i < b.len()
}

fn comps_same(a: &Vec<String>, b: &Vec<String>) -> (r: bool)
    ensures
        r == (views(a@) == views(b@)),
{
    let ghost (av, bv) = (views(a@), views(b@));
    if a.len() != b.len() {
        assert(av.len() != bv.len());
        return false;
    }
    let mut i: usize = 0;
    while i < a.len()
        invariant
            i <= a@.len(),
            a@.len() == b@.len(),
            av == views(a@),
            bv == views(b@),
            forall|k: int| 0 <= k < i ==> #[trigger] av[k] == bv[k],
        decreases a@.len() - i,
    {
        assert(av[i as int] == a@[i as int]@);
        assert(bv[i as int] == b@[i as int]@);
        if !text_eq(a[i].as_str(), b[i].as_str()) {
            return false;
        }
        i += 1;
    }
    assert(av =~= bv);
    true
}

impl MapKey for PathKey {
    type K = PathId;

    open spec fn key(&self) -> PathId {
        self@
    }

    open spec fn lt(a: PathId, b: PathId) -> bool {
        path_lt(a, b)
    }

    proof fn lt_irreflexive(a: PathId) {
        lemma_comps_lt_irreflexive(a.comps);
    }

    proof fn lt_transitive(a: PathId, b: PathId, c: PathId) {
        if a.abs == b.abs && b.abs == c.abs {
            lemma_comps_lt_transitive(a.comps, b.comps, c.comps);
        }
    }

    proof fn lt_total(a: PathId, b: PathId) {
        lemma_comps_lt_total(a.comps, b.comps);
        if a.abs == b.abs && a.comps == b.comps {
            assert(a =~= b);
        }
    }

    fn before(&self, other: &Self) -> (r: bool) {
        assert(self@.comps.len() == self.comps@.len());
        assert(other@.comps.len() == other.comps@.len());
        if self.abs == other.abs {
            comps_before(&self.comps, &other.comps)
        } else if self.abs {
            other.comps.len() > 0
        } else {
            self.comps.len() == 0
        }
    }

    fn same(&self, other: &Self) -> (r: bool) {
        let r: bool = self.abs == other.abs && comps_same(&self.comps, &other.comps);
        assert(r ==> self@ =~= other@);
        r
    }
}

/// A text and a path as one key: ordered by the text, then by the path.
#[derive(Debug)]
pub struct RootedKey {
    pub root: String,
    pub path: PathKey,
}

/// A pair of a text and a path is before another.
pub open spec fn rooted_lt(a: (Seq<char>, PathId), b: (Seq<char>, PathId)) -> bool {
    text_lt(a.0, b.0) || (a.0 == b.0 && path_lt(a.1, b.1))
}

impl MapKey for RootedKey {
    type K = (Seq<char>, PathId);

    open spec fn key(&self) -> (Seq<char>, PathId) {
        (self.root@, self.path@)
    }

    open spec fn lt(a: (Seq<char>, PathId), b: (Seq<char>, PathId)) -> bool {
        rooted_lt(a, b)
    }

    proof fn lt_irreflexive(a: (Seq<char>, PathId)) {
        lemma_text_lt_irreflexive(a.0);
        PathKey::lt_irreflexive(a.1);
    }

    proof fn lt_transitive(
        a: (Seq<char>, PathId),
        b: (Seq<char>, PathId),
        c: (Seq<char>, PathId),
    ) {
        if text_lt(a.0, b.0) && text_lt(b.0, c.0) {
            lemma_text_lt_transitive(a.0, b.0, c.0);
        }
        if path_lt(a.1, b.1) && path_lt(b.1, c.1) {
            PathKey::lt_transitive(a.1, b.1, c.1);
        }
    }

    proof fn lt_total(a: (Seq<char>, PathId), b: (Seq<char>, PathId)) {
        lemma_text_lt_total(a.0, b.0);
        PathKey::lt_total(a.1, b.1);
    }

    fn before(&self, other: &Self) -> (r: bool) {
        proof {
            lemma_text_lt_irreflexive(self.root@);
        }
        if text_eq(self.root.as_str(), other.root.as_str()) {
            self.path.before(&other.path)
        } else {
            text_before(self.root.as_str(), other.root.as_str())
        }
    }

    fn same(&self, other: &Self) -> (r: bool) {
        text_eq(self.root.as_str(), other.root.as_str()) && self.path.same(&other.path)
    }
}

/// The text under which a path is known: the one that it was put in with first.
pub open spec fn known_as<T>(map: Map<PathId, (Seq<char>, T)>, p: Seq<char>) -> Seq<char> {
    if map.dom().contains(path_id(p)) {
        map[path_id(p)].0
    } else {
        p
    }
}

/// The map with the value of a path set.
pub open spec fn with_value<T>(map: Map<PathId, (Seq<char>, T)>, p: Seq<char>, value: T) -> Map<
    PathId,
    (Seq<char>, T),
> {
    map.insert(path_id(p), (known_as(map, p), value))
}

/// A path as it was written, with what belongs to it.
#[derive(Debug)]
struct Known<V> {
    path: String,
    value: V,
}

impl<V: View> View for Known<V> {
    type V = (Seq<char>, V::V);

    closed spec fn view(&self) -> (Seq<char>, V::V) {
        (self.path@, self.value@)
    }
}

/// A map from paths, in the order of their components.
#[derive(Debug)]
pub struct PathMap<V> {
    map: OrdMap<PathKey, Known<V>>,
}

impl<V: View> View for PathMap<V> {
    type V = Map<PathId, (Seq<char>, V::V)>;

    closed spec fn view(&self) -> Map<PathId, (Seq<char>, V::V)> {
        self.map@
    }
}

impl<V: View> PathMap<V> {
    /// The paths in order.
    pub closed spec fn ids(&self) -> Seq<PathId> {
        self.map.keys()
    }

    pub fn new() -> (r: Self)
        ensures
            r@ == Map::<PathId, (Seq<char>, V::V)>::empty(),
            r.ids() == Seq::<PathId>::empty(),
    {
        PathMap { map: OrdMap::new() }
    }

    /// The number of paths.
    pub fn len(&self) -> (r: usize)
        ensures
            r == self.ids().len(),
            in_order::<PathKey>(self.ids()),
            forall|k: PathId|
                #![trigger self@.dom().contains(k)]
                #![trigger self.ids().contains(k)]
                self@.dom().contains(k) <==> self.ids().contains(k),
    {
        self.map.len()
    }

    /// The path at a place, as it was written first.
    pub fn key_at(&self, i: usize) -> (r: &String)
        requires
            i < self.ids().len(),
        ensures
            self@.dom().contains(self.ids()[i as int]),
            r@ == self@[self.ids()[i as int]].0,
    {
        &self.map.value_at(i).path
    }

    /// The value at a place.
    pub fn value_at(&self, i: usize) -> (r: &V)
        requires
            i < self.ids().len(),
        ensures
            self@.dom().contains(self.ids()[i as int]),
            r@ == self@[self.ids()[i as int]].1,
    {
        &self.map.value_at(i).value
    }

    pub fn contains(&self, path: &str) -> (r: bool)
        ensures
            r == self@.dom().contains(path_id(path@)),
    {
        self.map.contains(&PathKey::of(path))
    }

    pub fn get(&self, path: &str) -> (r: Option<&V>)
        ensures
            match r {
                Some(v) => self@.dom().contains(path_id(path@)) && v@ == self@[path_id(path@)].1,
                None => !self@.dom().contains(path_id(path@)),
            },
    {
        match self.map.get(&PathKey::of(path)) {
            Some(e) => Some(&e.value),
            None => None,
        }
    }

    /// Sets the value of a path. It stays known as it was written first.
    pub fn insert(&mut self, path: String, value: V)
        ensures
            final(self)@ == with_value(old(self)@, path@, value@),
    {
        let key: PathKey = PathKey::of(path.as_str());
        let known: String = match self.map.get(&key) {
            Some(e) => e.path.clone(),
            None => path,
        };
        self.put(key, known, value);
    }

    /// Sets the value of a path and the text that it is known as.
    pub fn put(&mut self, key: PathKey, known: String, value: V)
        ensures
            final(self)@ == old(self)@.insert(key@, (known@, value@)),
    {
        self.map.insert(key, Known { path: known, value });
    }

    /// Takes a path out, with the text that it is known as and its value.
    pub fn remove(&mut self, path: &str) -> (r: Option<(String, V)>)
        ensures
            final(self)@ == old(self)@.remove(path_id(path@)),
            match r {
                Some(e) => old(self)@.dom().contains(path_id(path@)) && (e.0@, e.1@) == old(
                    self,
                )@[path_id(path@)],
                None => !old(self)@.dom().contains(path_id(path@)),
            },
    {
        match self.map.remove(&PathKey::of(path)) {
            Some(e) => Some((e.path, e.value)),
            None => None,
        }
    }
}

/// The paths with one more; one that is there stays as it was written first.
pub open spec fn with_path(paths: Map<PathId, Seq<char>>, p: Seq<char>) -> Map<PathId, Seq<char>> {
    if paths.dom().contains(path_id(p)) {
        paths
    } else {
        paths.insert(path_id(p), p)
    }
}

/// The paths with some more, one after another.
pub open spec fn with_paths(paths: Map<PathId, Seq<char>>, more: Seq<Seq<char>>) -> Map<
    PathId,
    Seq<char>,
>
    decreases more.len(),
{
    if more.len() == 0 {
        paths
    } else {
        with_path(with_paths(paths, more.drop_last()), more.last())
    }
}

/// A set of paths, in the order of their components.
#[derive(Debug)]
pub struct PathSet {
    map: OrdMap<PathKey, String>,
}

impl View for PathSet {
    type V = Map<PathId, Seq<char>>;

    closed spec fn view(&self) -> Map<PathId, Seq<char>> {
        self.map@
    }
}

impl PathSet {
    /// The paths in order.
    pub closed spec fn ids(&self) -> Seq<PathId> {
        self.map.keys()
    }

    pub fn new() -> (r: Self)
        ensures
            r@ == Map::<PathId, Seq<char>>::empty(),
            r.ids() == Seq::<PathId>::empty(),
    {
        PathSet { map: OrdMap::new() }
    }

    /// The number of paths.
    pub fn len(&self) -> (r: usize)
        ensures
            r == self.ids().len(),
            in_order::<PathKey>(self.ids()),
            forall|k: PathId|
                #![trigger self@.dom().contains(k)]
                #![trigger self.ids().contains(k)]
                self@.dom().contains(k) <==> self.ids().contains(k),
    {
        self.map.len()
    }

    /// The path at a place, as it was written first.
    pub fn at(&self, i: usize) -> (r: &String)
        requires
            i < self.ids().len(),
        ensures
            self@.dom().contains(self.ids()[i as int]),
            r@ == self@[self.ids()[i as int]],
    {
        self.map.value_at(i)
    }

    pub fn contains(&self, path: &str) -> (r: bool)
        ensures
            r == self@.dom().contains(path_id(path@)),
    {
        self.map.contains(&PathKey::of(path))
    }

    /// Adds a path, and says whether it is new.
    pub fn insert(&mut self, path: String) -> (r: bool)
        ensures
            final(self)@ == with_path(old(self)@, path@),
            r == !old(self)@.dom().contains(path_id(path@)),
    {
        let key: PathKey = PathKey::of(path.as_str());
        if self.map.contains(&key) {
            return false;
        }
        self.map.insert(key, path);
        true
    }
}

/// Two texts are one key exactly where they are the same path.
pub proof fn law_one_key_for_one_path(a: Seq<char>, b: Seq<char>)
    ensures
        path_id(a) == path_id(b) <==> same_path(a, b),
{
}

/// Adding paths adds what they stand for and nothing else, and each is known as one of
/// the texts that were put in.
pub proof fn law_added_paths_are_there(
    paths: Map<PathId, Seq<char>>,
    more: Seq<Seq<char>>,
    id: PathId,
)
    ensures
        with_paths(paths, more).dom().contains(id) <==> paths.dom().contains(id) || exists|i: int|
            0 <= i < more.len() && path_id(#[trigger] more[i]) == id,
        paths.dom().contains(id) ==> with_paths(paths, more)[id] == paths[id],
        with_paths(paths, more).dom().contains(id) && !paths.dom().contains(id) ==> exists|i: int|
            0 <= i < more.len() && path_id(#[trigger] more[i]) == id && with_paths(
                paths,
                more,
            )[id] == more[i] && forall|j: int|
                0 <= j < i ==> path_id(#[trigger] more[j]) != id,
    decreases more.len(),
{
    if more.len() > 0 {
        let init = more.drop_last();
        let before = with_paths(paths, init);
        law_added_paths_are_there(paths, init, id);
        if exists|i: int| 0 <= i < init.len() && path_id(#[trigger] init[i]) == id {
            let i = choose|i: int| 0 <= i < init.len() && path_id(#[trigger] init[i]) == id;
            assert(more[i] == init[i]);
        }
        if before.dom().contains(id) && !paths.dom().contains(id) {
            let i = choose|i: int|
                0 <= i < init.len() && path_id(#[trigger] init[i]) == id && before[id] == init[i]
                    && forall|j: int| 0 <= j < i ==> path_id(#[trigger] init[j]) != id;
            assert(path_id(more[i]) == id && with_paths(paths, more)[id] == more[i]);
            assert forall|j: int| 0 <= j < i implies path_id(#[trigger] more[j]) != id by {
                assert(init[j] == more[j]);
            }
        } else if path_id(more.last()) == id && !paths.dom().contains(id) {
            let last = more.len() - 1;
            assert(path_id(more[last]) == id && with_paths(paths, more)[id] == more[last]);
            assert forall|j: int| 0 <= j < last implies path_id(#[trigger] more[j]) != id by {
                assert(init[j] == more[j]);
            }
        }
        if exists|i: int| 0 <= i < more.len() && path_id(#[trigger] more[i]) == id {
            let i = choose|i: int| 0 <= i < more.len() && path_id(#[trigger] more[i]) == id;
            if i < init.len() {
                assert(path_id(init[i]) == id);
            }
        }
    }
}

/// Paths are ordered by their names, one after the other: a directory comes before what
/// is in it, and where two differ first, the name that is first in the alphabet.
pub proof fn law_paths_are_ordered_by_names(
    start: Seq<Seq<char>>,
    x: Seq<char>,
    y: Seq<char>,
    a: Seq<Seq<char>>,
    b: Seq<Seq<char>>,
)
    requires
        is_normal(x),
        is_normal(y),
    ensures
        comps_lt(start, start + seq![y] + b),
        !comps_lt(start + seq![y] + b, start),
        text_lt(x, y) ==> comps_lt(start + seq![x] + a, start + seq![y] + b),
        !comps_lt(start, start),
    decreases start.len(),
{
    let (s, t) = (start + seq![x] + a, start + seq![y] + b);
    if start.len() == 0 {
        assert(s[0] == x && t[0] == y);
        lemma_text_lt_irreflexive(x);
    } else {
        let rest = start.skip(1);
        assert(s[0] == start[0] && t[0] == start[0]);
        assert(s.skip(1) =~= rest + seq![x] + a);
        assert(t.skip(1) =~= rest + seq![y] + b);
        law_paths_are_ordered_by_names(rest, x, y, a, b);
    }
}

/// A path that is put in again keeps the text that it was first known by, and takes the
/// new value.
pub proof fn law_path_keeps_its_first_text<T>(
    map: Map<PathId, (Seq<char>, T)>,
    p: Seq<char>,
    q: Seq<char>,
    value: T,
)
    requires
        same_path(p, q),
    ensures
        !map.dom().contains(path_id(p)) ==> with_value(map, p, value)[path_id(q)] == (p, value),
        map.dom().contains(path_id(p)) ==> with_value(map, q, value)[path_id(p)] == (
            map[path_id(p)].0,
            value,
        ),
        forall|other: PathId|
            other != path_id(p) ==> #[trigger] with_value(map, p, value).dom().contains(other)
                == map.dom().contains(other),
{
}

} // verus!
