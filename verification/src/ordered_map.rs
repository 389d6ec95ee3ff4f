//! A map from names to values that remembers the order of insertion.
use crate::text::Str;
use indexmap::IndexMap;
use vstd::prelude::*;

verus! {

/// The map type of the `indexmap` crate. An [`OrderedMap`] keeps the position of each
/// of its names in one.
#[verifier::external_type_specification]
#[verifier::external_body]
#[verifier::reject_recursive_types(K)]
#[verifier::reject_recursive_types(V)]
#[verifier::reject_recursive_types(S)]
pub struct ExIndexMap<K, V, S>(IndexMap<K, V, S>);

/// The entries of an index map, in their order: each name with its number.
pub uninterp spec fn index_entries(index: IndexMap<String, usize>) -> Seq<(Str, usize)>;

/// `IndexMap::new` makes a map without entries.
#[verifier::external_body]
fn index_new() -> (index: IndexMap<String, usize>)
    ensures
        index_entries(index) == Seq::<(Str, usize)>::empty(),
{
    IndexMap::new()
}

/// `IndexMap::get` returns the number that stands with `name`, if `name` is a key.
#[verifier::external_body]
fn index_get(index: &IndexMap<String, usize>, name: &str) -> (r: Option<usize>)
    ensures
        match r {
            Some(n) => exists|i: int|
                0 <= i < index_entries(*index).len() && #[trigger] index_entries(*index)[i] == (
                    name@,
                    n,
                ),
            None => forall|i: int|
                0 <= i < index_entries(*index).len() ==> (#[trigger] index_entries(
                    *index,
                )[i]).0 != name@,
        },
{
    index.get(name).copied()
}

/// `IndexMap::insert` on a name that is not yet a key puts the pair last.
#[verifier::external_body]
fn index_insert(index: &mut IndexMap<String, usize>, name: String, n: usize)
    requires
        forall|i: int|
            0 <= i < index_entries(*old(index)).len() ==> (#[trigger] index_entries(
                *old(index),
            )[i]).0 != name@,
    ensures
        index_entries(*final(index)) == index_entries(*old(index)).push((name@, n)),
{
    index.insert(name, n);
}

/// `IndexMap::get_index` returns the key of the entry at position `i`.
#[verifier::external_body]
fn index_name(index: &IndexMap<String, usize>, i: usize) -> (r: Option<&String>)
    ensures
        match r {
            Some(name) => i < index_entries(*index).len() && name@ == index_entries(
                *index,
            )[i as int].0,
            None => i >= index_entries(*index).len(),
        },
{
    index.get_index(i).map(|entry| entry.0)
}

/// The model of an [`OrderedMap`]: its names in their order, and the value of each.
#[verifier::ext_equal]
pub struct Table<T> {
    pub keys: Seq<Str>,
    pub map: Map<Str, T>,
}

impl<T> Table<T> {
    /// The table without entries.
    pub open spec fn empty() -> Self {
        Table { keys: Seq::empty(), map: Map::empty() }
    }

    /// Each key stands once in the order, and has a value.
    pub open spec fn valid(self) -> bool {
        &&& self.keys.no_duplicates()
        &&& forall|k: Str| #[trigger] self.map.contains_key(k) <==> self.keys.contains(k)
    }

    /// Whether `k` is a key.
    pub open spec fn has(self, k: Str) -> bool {
        self.map.contains_key(k)
    }

    /// The value of the key `k`.
    pub open spec fn at(self, k: Str) -> T {
        self.map[k]
    }

    /// The table after `k` is given the value `v`: a new key comes last, a known one
    /// keeps its place.
    pub open spec fn put(self, k: Str, v: T) -> Self {
        Table {
            keys: if self.has(k) {
                self.keys
            } else {
                self.keys.push(k)
            },
            map: self.map.insert(k, v),
        }
    }
}

/// A table with the same names and other values.
pub open spec fn map_table<A, B>(t: Table<A>, f: spec_fn(Str, A) -> B) -> Table<B> {
    Table { keys: t.keys, map: Map::new(|k: Str| t.has(k), |k: Str| f(k, t.at(k))) }
}

/// Whether a table holds the first `n` names of another, with other values.
pub open spec fn mapped_up_to<A, B>(
    t: Table<A>,
    f: spec_fn(Str, A) -> B,
    n: int,
    out: Table<B>,
) -> bool {
    &&& out.keys == t.keys.take(n)
    &&& forall|k: Str| #[trigger] out.has(k) <==> t.keys.take(n).contains(k)
    &&& forall|k: Str| #[trigger] out.has(k) ==> out.at(k) == f(k, t.at(k))
}

/// The next name of a table follows with its new value.
pub proof fn lemma_mapped_next<A, B>(t: Table<A>, f: spec_fn(Str, A) -> B, n: int, out: Table<B>)
    requires
        t.valid(),
        0 <= n < t.keys.len(),
        mapped_up_to(t, f, n, out),
    ensures
        mapped_up_to(t, f, n + 1, out.put(t.keys[n], f(t.keys[n], t.at(t.keys[n])))),
{
    let key = t.keys[n];
    let before = t.keys.take(n);
    let after = t.keys.take(n + 1);
    let next = out.put(key, f(key, t.at(key)));
    assert(!before.contains(key)) by {
        if before.contains(key) {
            let j = choose|j: int| 0 <= j < n && before[j] == key;
            assert(t.keys[j] == t.keys[n]);
        }
    }
    assert(!out.has(key));
    assert(after =~= before.push(key));
    assert forall|k: Str| #[trigger] next.has(k) <==> after.contains(k) by {
        assert(out.has(k) <==> before.contains(k));
        if before.contains(k) {
            let j = choose|j: int| 0 <= j < before.len() && before[j] == k;
            assert(after[j] == k);
        }
        if k == key {
            assert(after[n] == k);
        }
        if after.contains(k) && k != key {
            let j = choose|j: int| 0 <= j < after.len() && after[j] == k;
            assert(before[j] == k);
        }
    }
    assert forall|k: Str| #[trigger] next.has(k) implies next.at(k) == f(k, t.at(k)) by {
        if k != key {
            assert(out.has(k));
        }
    }
}

/// Once all names are there, the table is the mapped one.
pub proof fn lemma_mapped_all<A, B>(t: Table<A>, f: spec_fn(Str, A) -> B, out: Table<B>)
    requires
        t.valid(),
        mapped_up_to(t, f, t.keys.len() as int, out),
    ensures
        out == map_table(t, f),
{
    let want = map_table(t, f);
    assert(t.keys.take(t.keys.len() as int) =~= t.keys);
    assert forall|k: Str| #[trigger] out.map.contains_key(k) == want.map.contains_key(k) by {
        assert(out.has(k) <==> t.keys.contains(k));
        assert(t.map.contains_key(k) <==> t.keys.contains(k));
    }
    assert forall|k: Str| #[trigger] out.map.contains_key(k) implies out.map[k] == want.map[k] by {
        assert(out.has(k));
        assert(out.at(k) == f(k, t.at(k)));
    }
    assert(out.map =~= want.map);
    assert(out =~= want);
}

/// Whether a table holds what another holds, with the first `n` values changed.
pub open spec fn changed_up_to<T>(
    t: Table<T>,
    f: spec_fn(Str, T) -> T,
    n: int,
    now: Table<T>,
) -> bool {
    &&& now.keys == t.keys
    &&& forall|k: Str| #[trigger] now.has(k) == t.has(k)
    &&& forall|j: int|
        0 <= j < t.keys.len() ==> now.at(#[trigger] t.keys[j]) == (if j < n {
            f(t.keys[j], t.at(t.keys[j]))
        } else {
            t.at(t.keys[j])
        })
}

/// The next value of a table is changed.
pub proof fn lemma_changed_next<T>(t: Table<T>, f: spec_fn(Str, T) -> T, n: int, now: Table<T>)
    requires
        t.valid(),
        0 <= n < t.keys.len(),
        changed_up_to(t, f, n, now),
    ensures
        now.at(t.keys[n]) == t.at(t.keys[n]),
        changed_up_to(t, f, n + 1, now.put(t.keys[n], f(t.keys[n], t.at(t.keys[n])))),
{
    let key = t.keys[n];
    assert(t.keys.contains(key));
    assert(now.has(key) == t.has(key));
    assert(now.at(t.keys[n]) == t.at(key));
    let next = now.put(key, f(key, t.at(key)));
    assert forall|k: Str| #[trigger] next.has(k) == t.has(k) by {
        assert(now.has(k) == t.has(k));
    }
    assert forall|j: int| 0 <= j < t.keys.len() implies next.at(#[trigger] t.keys[j]) == (if j < n
        + 1 {
        f(t.keys[j], t.at(t.keys[j]))
    } else {
        t.at(t.keys[j])
    }) by {
        if j != n {
            assert(t.keys[j] != key);
            assert(now.at(t.keys[j]) == next.at(t.keys[j]));
        }
    }
}

/// All values of a table are changed.
pub proof fn lemma_changed_all<T>(t: Table<T>, f: spec_fn(Str, T) -> T, now: Table<T>)
    requires
        t.valid(),
        changed_up_to(t, f, t.keys.len() as int, now),
    ensures
        now == map_table(t, f),
{
    let want = map_table(t, f);
    assert forall|k: Str| #[trigger] now.map.contains_key(k) == want.map.contains_key(k) by {
        assert(now.has(k) == t.has(k));
    }
    assert forall|k: Str| #[trigger] now.map.contains_key(k) implies now.map[k] == want.map[k] by {
        assert(now.has(k) == t.has(k));
        assert(t.keys.contains(k));
        let j = choose|j: int| 0 <= j < t.keys.len() && t.keys[j] == k;
        assert(now.at(t.keys[j]) == now.map[k]);
    }
    assert(now.map =~= want.map);
    assert(now =~= want);
}

/// `put` keeps a table valid.
pub proof fn lemma_put_valid<T>(t: Table<T>, k: Str, v: T)
    requires
        t.valid(),
    ensures
        t.put(k, v).valid(),
{
    let u = t.put(k, v);
    assert forall|x: Str| #[trigger] u.map.contains_key(x) <==> u.keys.contains(x) by {
        if !t.has(k) {
            assert(!t.keys.contains(k));
            assert(u.keys[t.keys.len() as int] == k);
            if t.keys.contains(x) {
                let i = choose|i: int| 0 <= i < t.keys.len() && t.keys[i] == x;
                assert(u.keys[i] == x);
            }
        }
    }
    if !t.has(k) {
        assert(!t.keys.contains(k));
    }
}

/// A type whose values an [`OrderedMap`] can hold.
pub trait Item: DeepView {
    /// What holds of every value that this library makes, besides what its model says.
    spec fn ok(&self) -> bool;
}

impl Item for usize {
    open spec fn ok(&self) -> bool {
        true
    }
}

impl Item for bool {
    open spec fn ok(&self) -> bool {
        true
    }
}

impl Item for String {
    open spec fn ok(&self) -> bool {
        true
    }
}

/// A map from names to values that remembers the order of insertion.
pub struct OrderedMap<V> {
    index: IndexMap<String, usize>,
    values: Vec<V>,
}

impl<V: Item> OrderedMap<V> {
    /// The index gives each name its position, and every value is in order.
    pub closed spec fn wf(&self) -> bool {
        let e = index_entries(self.index);
        &&& e.len() == self.values@.len()
        &&& forall|i: int| 0 <= i < e.len() ==> (#[trigger] e[i]).1 == i
        &&& forall|i: int, j: int|
            0 <= i < j < e.len() ==> (#[trigger] e[i]).0 != (#[trigger] e[j]).0
        &&& forall|i: int| 0 <= i < e.len() ==> (#[trigger] self.values@[i]).ok()
    }

    spec fn holds(&self, name: Str, i: int) -> bool {
        0 <= i < self.values@.len() && index_entries(self.index)[i].0 == name
    }
}

impl<V: Item> DeepView for OrderedMap<V> {
    type V = Table<<V as DeepView>::V>;

    closed spec fn deep_view(&self) -> Table<<V as DeepView>::V> {
        Table {
            keys: Seq::new(self.values@.len(), |i: int| index_entries(self.index)[i].0),
            map: Map::new(
                |name: Str| exists|i: int| self.holds(name, i),
                |name: Str| self.values@[choose|i: int| self.holds(name, i)].deep_view(),
            ),
        }
    }
}

impl<V: Item> Item for OrderedMap<V> {
    open spec fn ok(&self) -> bool {
        self.wf()
    }
}

impl<V: Item> OrderedMap<V> {
    proof fn lemma_at(&self, i: int)
        requires
            self.wf(),
            0 <= i < self.values@.len(),
        ensures
            self.deep_view().keys[i] == index_entries(self.index)[i].0,
            self.deep_view().has(self.deep_view().keys[i]),
            self.deep_view().at(self.deep_view().keys[i]) == self.values@[i].deep_view(),
    {
        let name = index_entries(self.index)[i].0;
        assert(self.holds(name, i));
        let j = choose|j: int| self.holds(name, j);
        assert(j == i);
    }

    /// The value of a name that a map in order holds is itself in order.
    pub proof fn lemma_value(&self, k: Str) -> (v: V)
        requires
            self.wf(),
            self.deep_view().has(k),
        ensures
            v.ok(),
            v.deep_view() == self.deep_view().at(k),
    {
        let i = choose|i: int| self.holds(k, i);
        self.lemma_at(i);
        self.values@[i]
    }

    /// The model of a map in order is valid.
    pub proof fn lemma_valid(&self)
        requires
            self.wf(),
        ensures
            self.deep_view().valid(),
    {
        let t = self.deep_view();
        assert forall|k: Str| #[trigger] t.map.contains_key(k) <==> t.keys.contains(k) by {
            if t.map.contains_key(k) {
                let i = choose|i: int| self.holds(k, i);
                assert(t.keys[i] == k);
            }
            if t.keys.contains(k) {
                let i = choose|i: int| 0 <= i < t.keys.len() && t.keys[i] == k;
                assert(self.holds(k, i));
            }
        }
    }

    /// The map without entries.
    pub fn new() -> (m: Self)
        ensures
            m.wf(),
            m.deep_view() == Table::<<V as DeepView>::V>::empty(),
    {
        let m = OrderedMap { index: index_new(), values: Vec::new() };
        assert(m.deep_view() =~= Table::<<V as DeepView>::V>::empty());
        m
    }

    /// The number of entries.
    pub fn len(&self) -> (n: usize)
        requires
            self.wf(),
        ensures
            n == self.deep_view().keys.len(),
            self.deep_view().valid(),
    {
        proof {
            self.lemma_valid();
        }
        self.values.len()
    }

    /// The name at position `i`.
    pub fn name(&self, i: usize) -> (r: &String)
        requires
            self.wf(),
            i < self.deep_view().keys.len(),
        ensures
            r@ == self.deep_view().keys[i as int],
            self.deep_view().has(r@),
    {
        proof {
            self.lemma_at(i as int);
        }
        index_name(&self.index, i).unwrap()
    }

    /// The value at position `i`.
    pub fn value(&self, i: usize) -> (r: &V)
        requires
            self.wf(),
            i < self.deep_view().keys.len(),
        ensures
            self.deep_view().has(self.deep_view().keys[i as int]),
            r.deep_view() == self.deep_view().at(self.deep_view().keys[i as int]),
            r.ok(),
    {
        proof {
            self.lemma_at(i as int);
        }
        &self.values[i]
    }

    /// The position of `name`, if it is a key.
    pub fn position(&self, name: &str) -> (r: Option<usize>)
        requires
            self.wf(),
        ensures
            match r {
                Some(i) => i < self.deep_view().keys.len() && self.deep_view().keys[i as int]
                    == name@ && self.deep_view().has(name@),
                None => !self.deep_view().has(name@),
            },
    {
        let r = index_get(&self.index, name);
        proof {
            match r {
                Some(n) => {
                    self.lemma_at(n as int);
                },
                None => {
                    assert forall|i: int| !self.holds(name@, i) by {}
                },
            }
        }
        r
    }

    /// Whether `name` is a key.
    pub fn contains_key(&self, name: &str) -> (r: bool)
        requires
            self.wf(),
        ensures
            r == self.deep_view().has(name@),
    {
        self.position(name).is_some()
    }

    /// The value of the key `name`.
    pub fn get(&self, name: &str) -> (r: Option<&V>)
        requires
            self.wf(),
        ensures
            match r {
                Some(v) => self.deep_view().has(name@) && v.deep_view() == self.deep_view().at(
                    name@,
                ) && v.ok(),
                None => !self.deep_view().has(name@),
            },
    {
        match self.position(name) {
            Some(i) => Some(self.value(i)),
            None => None,
        }
    }

    /// The value at position `i`, to be changed in place.
    pub fn value_mut(&mut self, i: usize) -> (r: &mut V)
        requires
            old(self).wf(),
            i < old(self).deep_view().keys.len(),
        ensures
            r.deep_view() == old(self).deep_view().at(old(self).deep_view().keys[i as int]),
            r.ok(),
            final(self).deep_view() == old(self).deep_view().put(
                old(self).deep_view().keys[i as int],
                final(r).deep_view(),
            ),
            final(r).ok() ==> final(self).wf(),
    {
        proof {
            self.lemma_at(i as int);
            Self::lemma_changed(*old(self), *final(self), i as int);
        }
        &mut self.values[i]
    }

    /// Gives `name` the value `v`: a new name comes last, a known one keeps its place.
    pub fn insert(&mut self, name: String, v: V)
        requires
            old(self).wf(),
            v.ok(),
        ensures
            final(self).wf(),
            final(self).deep_view() == old(self).deep_view().put(name@, v.deep_view()),
    {
        match self.position(name.as_str()) {
            Some(i) => {
                *self.value_mut(i) = v;
            },
            None => {
                let ghost k = name@;
                let n: usize = self.values.len();
                proof {
                    assert forall|i: int| 0 <= i < index_entries(self.index).len() implies (
                    #[trigger] index_entries(self.index)[i]).0 != k by {
                        self.lemma_at(i);
                    }
                }
                index_insert(&mut self.index, name, n);
                self.values.push(v);
                proof {
                    let before = *old(self);
                    let after = *self;
                    assert forall|x: Str| x != k implies #[trigger] before.deep_view().has(x)
                        == after.deep_view().has(x) by {
                        if exists|i: int| before.holds(x, i) {
                            let i = choose|i: int| before.holds(x, i);
                            assert(after.holds(x, i));
                        }
                        if exists|i: int| after.holds(x, i) {
                            let i = choose|i: int| after.holds(x, i);
                            assert(before.holds(x, i));
                        }
                    }
                    after.lemma_at(n as int);
                    assert forall|x: Str| x != k && before.deep_view().has(x) implies
                        #[trigger] after.deep_view().at(x) == before.deep_view().at(x) by {
                        let i = choose|i: int| before.holds(x, i);
                        before.lemma_at(i);
                        after.lemma_at(i);
                    }
                    let want = before.deep_view().put(k, v.deep_view());
                    assert(after.deep_view().keys =~= want.keys);
                    assert(after.deep_view().has(k));
                    assert forall|x: Str| #[trigger] after.deep_view().map.contains_key(x)
                        == want.map.contains_key(x) by {
                        if x != k {
                            assert(before.deep_view().has(x) == after.deep_view().has(x));
                        }
                    }
                    assert forall|x: Str| #[trigger] after.deep_view().map.contains_key(x) implies
                        after.deep_view().map[x] == want.map[x] by {
                        if x != k {
                            assert(before.deep_view().has(x));
                            assert(after.deep_view().at(x) == before.deep_view().at(x));
                        } else {
                            assert(after.deep_view().at(k) == v.deep_view());
                        }
                    }
                    assert(after.deep_view().map =~= want.map);
                }
            },
        }
    }

    /// The names in their order.
    pub fn names(&self) -> (r: Vec<String>)
        requires
            self.wf(),
        ensures
            r.deep_view() == self.deep_view().keys,
    {
        let mut out: Vec<String> = Vec::new();
        let n: usize = self.len();
        let mut i: usize = 0;
        while i < n
            invariant
                self.wf(),
                n == self.deep_view().keys.len(),
                i <= n,
                out.deep_view() == self.deep_view().keys.take(i as int),
            decreases n - i,
        {
            let ghost before = out.deep_view();
            out.push(self.name(i).clone());
            assert(out.deep_view() =~= before.push(self.deep_view().keys[i as int]));
            assert(out.deep_view() =~= self.deep_view().keys.take(i + 1));
            i = i + 1;
        }
        assert(out.deep_view() =~= self.deep_view().keys);
        out
    }

    proof fn lemma_changed(before: Self, after: Self, i: int)
        ensures
            (before.wf() && 0 <= i < before.values@.len() && after.index == before.index
                && after.values@ == before.values@.update(i, after.values@[i])) ==> {
                &&& after.deep_view() == before.deep_view().put(
                    before.deep_view().keys[i],
                    after.values@[i].deep_view(),
                )
                &&& (after.values@[i].ok() ==> after.wf())
            },
    {
        if before.wf() && 0 <= i < before.values@.len() && after.index == before.index
            && after.values@ == before.values@.update(i, after.values@[i]) {
            before.lemma_at(i);
            let k = before.deep_view().keys[i];
            let want = before.deep_view().put(k, after.values@[i].deep_view());
            assert forall|x: Str, j: int| after.holds(x, j) == before.holds(x, j) by {}
            assert forall|x: Str| #[trigger] after.deep_view().has(x) implies after.deep_view().at(
                x,
            ) == want.at(x) by {
                let j = choose|j: int| after.holds(x, j);
                assert(before.holds(x, j));
                before.lemma_at(j);
                assert(forall|l: int| after.holds(x, l) ==> l == j);
            }
            assert forall|x: Str| #[trigger] after.deep_view().has(x) == want.has(x) by {
                if after.deep_view().has(x) {
                    let j = choose|j: int| after.holds(x, j);
                    assert(before.holds(x, j));
                }
                if before.deep_view().has(x) {
                    let j = choose|j: int| before.holds(x, j);
                    assert(after.holds(x, j));
                }
            }
            assert(after.deep_view() =~= want);
        }
    }
}

} // verus!
