//! A map keyed by bridge line.
//!
//! Bridge lines are opaque strings compared character by character. The map
//! keeps its entries in the order in which their keys first arrived, so that a
//! caller can walk it by index; as a mathematical object it is a
//! `Map<Seq<char>, V>`.

use crate::vecs::reverse;
use vstd::prelude::*;

verus! {

/// The map that a list of distinct keys and the list of their values stand for.
pub open spec fn assoc<V>(keys: Seq<Seq<char>>, values: Seq<V>) -> Map<Seq<char>, V> {
    Map::new(|k: Seq<char>| keys.contains(k), |k: Seq<char>| values[keys.index_of(k)])
}

/// In a list of distinct keys, the entry at index `i` is what the map holds
/// for the key at index `i`.
pub proof fn lemma_assoc_at<V>(keys: Seq<Seq<char>>, values: Seq<V>, i: int)
    requires
        keys.no_duplicates(),
        0 <= i < keys.len(),
    ensures
        assoc(keys, values).contains_key(keys[i]),
        assoc(keys, values)[keys[i]] == values[i],
        keys.index_of(keys[i]) == i,
{
    let j = keys.index_of(keys[i]);
    assert(0 <= j < keys.len() && keys[j] == keys[i]);
}

/// Appending a new key adds one binding.
pub proof fn lemma_assoc_push<V>(keys: Seq<Seq<char>>, values: Seq<V>, k: Seq<char>, v: V)
    requires
        keys.no_duplicates(),
        keys.len() == values.len(),
        !keys.contains(k),
    ensures
        keys.push(k).no_duplicates(),
        assoc(keys.push(k), values.push(v)) == assoc(keys, values).insert(k, v),
{
    let keys2 = keys.push(k);
    let values2 = values.push(v);
    assert(keys2.no_duplicates()) by {
        assert forall|i: int, j: int|
            0 <= i < keys2.len() && 0 <= j < keys2.len() && i != j implies keys2[i] != keys2[j] by {
            if i < keys.len() && j < keys.len() {
            } else if i < keys.len() {
                assert(keys[i] == keys2[i]);
            } else {
                assert(keys[j] == keys2[j]);
            }
        }
    }
    assert forall|q: Seq<char>| keys2.contains(q) <==> (q == k || keys.contains(q)) by {
        if keys2.contains(q) {
            let i = choose|i: int| 0 <= i < keys2.len() && keys2[i] == q;
            if i < keys.len() {
                assert(keys[i] == q);
            }
        }
        if keys.contains(q) {
            let i = choose|i: int| 0 <= i < keys.len() && keys[i] == q;
            assert(keys2[i] == q);
        }
        if q == k {
            assert(keys2[keys.len() as int] == k);
        }
    }
    assert forall|q: Seq<char>| keys2.contains(q) implies assoc(keys2, values2)[q] == assoc(
        keys,
        values,
    ).insert(k, v)[q] by {
        let i = choose|i: int| 0 <= i < keys2.len() && keys2[i] == q;
        lemma_assoc_at(keys2, values2, i);
        if i < keys.len() {
            assert(keys[i] == q);
            lemma_assoc_at(keys, values, i);
        }
    }
    assert(assoc(keys2, values2) =~= assoc(keys, values).insert(k, v));
}

/// Replacing the value at index `i` rebinds the key at index `i`.
pub proof fn lemma_assoc_update<V>(keys: Seq<Seq<char>>, values: Seq<V>, i: int, v: V)
    requires
        keys.no_duplicates(),
        keys.len() == values.len(),
        0 <= i < keys.len(),
    ensures
        assoc(keys, values.update(i, v)) == assoc(keys, values).insert(keys[i], v),
{
    let values2 = values.update(i, v);
    assert forall|q: Seq<char>| keys.contains(q) implies assoc(keys, values2)[q] == assoc(
        keys,
        values,
    ).insert(keys[i], v)[q] by {
        let j = choose|j: int| 0 <= j < keys.len() && keys[j] == q;
        lemma_assoc_at(keys, values2, j);
        lemma_assoc_at(keys, values, j);
    }
    assert(keys.contains(keys[i]));
    assert(assoc(keys, values2) =~= assoc(keys, values).insert(keys[i], v));
}

/// Taking out the entry at index `i` unbinds the key at index `i`.
pub proof fn lemma_assoc_remove<V>(keys: Seq<Seq<char>>, values: Seq<V>, i: int)
    requires
        keys.no_duplicates(),
        keys.len() == values.len(),
        0 <= i < keys.len(),
    ensures
        keys.remove(i).no_duplicates(),
        !keys.remove(i).contains(keys[i]),
        assoc(keys.remove(i), values.remove(i)) == assoc(keys, values).remove(keys[i]),
{
    let keys2 = keys.remove(i);
    let values2 = values.remove(i);
    assert forall|a: int| 0 <= a < keys2.len() implies keys2[a] == keys[if a < i {
        a
    } else {
        a + 1
    }] by {}
    assert(keys2.no_duplicates());
    assert(!keys2.contains(keys[i]));
    assert forall|q: Seq<char>| keys2.contains(q) <==> (q != keys[i] && keys.contains(q)) by {
        if keys2.contains(q) {
            let a = choose|a: int| 0 <= a < keys2.len() && keys2[a] == q;
            let b = if a < i {
                a
            } else {
                a + 1
            };
            assert(keys[b] == q);
        }
        if q != keys[i] && keys.contains(q) {
            let b = choose|b: int| 0 <= b < keys.len() && keys[b] == q;
            let a = if b < i {
                b
            } else {
                b - 1
            };
            assert(keys2[a] == q);
        }
    }
    assert forall|q: Seq<char>| keys2.contains(q) implies assoc(keys2, values2)[q] == assoc(
        keys,
        values,
    ).remove(keys[i])[q] by {
        let a = choose|a: int| 0 <= a < keys2.len() && keys2[a] == q;
        let b = if a < i {
            a
        } else {
            a + 1
        };
        lemma_assoc_at(keys2, values2, a);
        assert(keys[b] == q);
        lemma_assoc_at(keys, values, b);
    }
    assert(assoc(keys2, values2) =~= assoc(keys, values).remove(keys[i]));
}

/// A map from bridge line to `V`.
pub struct LineMap<V> {
    entries: Vec<(String, V)>,
}

impl<V> View for LineMap<V> {
    type V = Map<Seq<char>, V>;

    open spec fn view(&self) -> Map<Seq<char>, V> {
        assoc(self.keys(), self.values())
    }
}

impl<V: DeepView> DeepView for LineMap<V> {
    type V = Map<Seq<char>, V::V>;

    open spec fn deep_view(&self) -> Map<Seq<char>, V::V> {
        self@.map_values(|v: V| v.deep_view())
    }
}

impl<V> LineMap<V> {
    /// The keys, in the order in which they first arrived.
    pub closed spec fn keys(&self) -> Seq<Seq<char>> {
        Seq::new(self.entries@.len(), |i: int| self.entries@[i].0@)
    }

    /// The values, each at the index of its key.
    pub closed spec fn values(&self) -> Seq<V> {
        Seq::new(self.entries@.len(), |i: int| self.entries@[i].1)
    }

    /// No key occurs twice.
    pub open spec fn wf(&self) -> bool {
        &&& self.keys().no_duplicates()
        &&& self.keys().len() == self.values().len()
    }

    /// What a well-formed map holds, index by index.
    pub proof fn lemma_entry(&self, i: int)
        requires
            self.wf(),
            0 <= i < self.keys().len(),
        ensures
            self@.contains_key(self.keys()[i]),
            self@[self.keys()[i]] == self.values()[i],
    {
        lemma_assoc_at(self.keys(), self.values(), i);
    }

    /// The domain of the map is the set of its keys.
    pub proof fn lemma_dom(&self)
        ensures
            self@.dom() == self.keys().to_set(),
            forall|k: Seq<char>| self@.contains_key(k) <==> self.keys().contains(k),
    {
        assert(self@.dom() =~= self.keys().to_set());
    }

    /// An empty map.
    pub fn new() -> (m: Self)
        ensures
            m.wf(),
            m.keys() == Seq::<Seq<char>>::empty(),
            m.values() == Seq::<V>::empty(),
            m@ == Map::<Seq<char>, V>::empty(),
    {
        let m = LineMap { entries: Vec::new() };
        proof {
            assert(m.keys() =~= Seq::<Seq<char>>::empty());
            assert(m.values() =~= Seq::<V>::empty());
            assert(m@ =~= Map::<Seq<char>, V>::empty());
        }
        m
    }

    /// The number of entries.
    pub fn len(&self) -> (n: usize)
        ensures
            n == self.keys().len(),
            n == self.values().len(),
    {
        self.entries.len()
    }

    /// Whether the map holds nothing.
    pub fn is_empty(&self) -> (b: bool)
        ensures
            b == (self.keys().len() == 0),
            self.wf() ==> b == (self@ == Map::<Seq<char>, V>::empty()),
    {
        proof {
            if self.wf() {
                if self.keys().len() == 0 {
                    assert(self@ =~= Map::<Seq<char>, V>::empty());
                } else {
                    self.lemma_entry(0);
                }
            }
        }
        self.entries.len() == 0
    }

    /// The index at which `key` is held, if it is held.
    pub fn position(&self, key: &String) -> (r: Option<usize>)
        ensures
            match r {
                Some(i) => i < self.keys().len() && self.keys()[i as int] == key@,
                None => !self.keys().contains(key@),
            },
    {
        let mut i: usize = 0;
        while i < self.entries.len()
            invariant
                i <= self.entries.len(),
                forall|j: int| 0 <= j < i ==> self.keys()[j] != key@,
            decreases self.entries.len() - i,
        {
            if self.entries[i].0 == *key {
                return Some(i);
            }
            i += 1;
        }
        None
    }

    /// Whether `key` is bound.
    pub fn contains_key(&self, key: &String) -> (b: bool)
        ensures
            b == self@.contains_key(key@),
            b == self.keys().contains(key@),
    {
        self.position(key).is_some()
    }

    /// The value bound to `key`, if any.
    pub fn get(&self, key: &String) -> (r: Option<&V>)
        requires
            self.wf(),
        ensures
            match r {
                Some(v) => self@.contains_key(key@) && *v == self@[key@],
                None => !self@.contains_key(key@),
            },
    {
        match self.position(key) {
            Some(i) => {
                proof {
                    self.lemma_entry(i as int);
                }
                Some(&self.entries[i].1)
            },
            None => None,
        }
    }

    /// The key at index `i`.
    pub fn key_at(&self, i: usize) -> (k: &String)
        requires
            i < self.keys().len(),
        ensures
            k@ == self.keys()[i as int],
    {
        &self.entries[i].0
    }

    /// The value at index `i`.
    pub fn value_at(&self, i: usize) -> (v: &V)
        requires
            i < self.values().len(),
        ensures
            *v == self.values()[i as int],
    {
        &self.entries[i].1
    }

    /// Binds `key` to `value`. A key that was bound keeps its place in the
    /// order and loses its old value; a new key goes to the end.
    pub fn insert(&mut self, key: String, value: V)
        requires
            old(self).wf(),
        ensures
            final(self).wf(),
            final(self)@ == old(self)@.insert(key@, value),
            old(self).keys().contains(key@) ==> final(self).keys() == old(self).keys(),
            !old(self).keys().contains(key@) ==> final(self).keys() == old(self).keys().push(key@),
    {
        match self.position(&key) {
            Some(i) => {
                proof {
                    lemma_assoc_update(self.keys(), self.values(), i as int, value);
                }
                self.entries.set(i, (key, value));
                proof {
                    assert(self.keys() =~= old(self).keys());
                    assert(self.values() =~= old(self).values().update(i as int, value));
                }
            },
            None => {
                proof {
                    lemma_assoc_push(self.keys(), self.values(), key@, value);
                }
                self.entries.push((key, value));
                proof {
                    assert(self.keys() =~= old(self).keys().push(key@));
                    assert(self.values() =~= old(self).values().push(value));
                }
            },
        }
    }

    /// Unbinds `key` and hands back what it was bound to. The other entries
    /// keep their order.
    pub fn remove(&mut self, key: &String) -> (r: Option<V>)
        requires
            old(self).wf(),
        ensures
            final(self).wf(),
            final(self)@ == old(self)@.remove(key@),
            match r {
                Some(v) => old(self)@.contains_key(key@) && v == old(self)@[key@],
                None => !old(self)@.contains_key(key@),
            },
            !final(self).keys().contains(key@),
            match r {
                Some(_) => exists|i: int|
                    {
                        &&& 0 <= i < old(self).keys().len()
                        &&& #[trigger] old(self).keys()[i] == key@
                        &&& final(self).keys() == old(self).keys().remove(i)
                        &&& final(self).values() == old(self).values().remove(i)
                    },
                None => final(self).keys() == old(self).keys() && final(self).values() == old(
                    self,
                ).values(),
            },
    {
        match self.position(key) {
            Some(i) => {
                proof {
                    lemma_assoc_remove(self.keys(), self.values(), i as int);
                    self.lemma_entry(i as int);
                    self.lemma_dom();
                }
                let (_k, v) = self.entries.remove(i);
                proof {
                    assert(self.keys() =~= old(self).keys().remove(i as int));
                    assert(self.values() =~= old(self).values().remove(i as int));
                    self.lemma_dom();
                }
                Some(v)
            },
            None => {
                proof {
                    assert(self@ =~= old(self)@.remove(key@));
                }
                None
            },
        }
    }

    /// Takes the map apart into its keys and its values, index by index.
    pub fn into_parts(self) -> (parts: (Vec<String>, Vec<V>))
        ensures
            parts.0.deep_view() == self.keys(),
            parts.1@ == self.values(),
    {
        let mut entries = self.entries;
        let mut keys: Vec<String> = Vec::new();
        let mut values: Vec<V> = Vec::new();
        let ghost all = entries@;
        while entries.len() > 0
            invariant
                entries@.len() <= all.len(),
                entries@ == all.subrange(0, entries@.len() as int),
                keys@.len() == values@.len(),
                keys@.len() + entries@.len() == all.len(),
                forall|j: int|
                    0 <= j < keys@.len() ==> (#[trigger] keys@[j])@ == all[all.len() - 1 - j].0@,
                forall|j: int|
                    0 <= j < values@.len() ==> (#[trigger] values@[j]) == all[all.len() - 1 - j].1,
            decreases entries.len(),
        {
            let last = entries.pop();
            match last {
                Some((k, v)) => {
                    keys.push(k);
                    values.push(v);
                },
                None => {},
            }
        }
        reverse(&mut keys);
        reverse(&mut values);
        proof {
            assert(keys.deep_view() =~= self.keys());
            assert(values@ =~= self.values());
        }
        (keys, values)
    }
}

/// The flag at index `i` is there and set.
pub open spec fn flagged(flags: Seq<bool>, i: int) -> bool {
    0 <= i < flags.len() && flags[i]
}

/// The items whose flag is set (`want`) or is not (`!want`), in their order.
/// An item without a flag counts as not flagged.
pub open spec fn select<T>(items: Seq<T>, flags: Seq<bool>, want: bool) -> Seq<T>
    decreases items.len(),
{
    if items.len() == 0 {
        Seq::empty()
    } else {
        let before = select(items.drop_last(), flags, want);
        if flagged(flags, items.len() - 1) == want {
            before.push(items.last())
        } else {
            before
        }
    }
}

/// Selecting from a longer list: the last item is kept or not by its own flag.
pub proof fn lemma_select_push<T>(items: Seq<T>, item: T, flags: Seq<bool>, want: bool)
    ensures
        select(items.push(item), flags, want) == (if flagged(flags, items.len() as int) == want {
            select(items, flags, want).push(item)
        } else {
            select(items, flags, want)
        }),
{
    assert(items.push(item).drop_last() =~= items);
}

/// What is selected comes from the list, each item under its own flag; and
/// from a list without duplicates nothing is selected twice.
pub proof fn lemma_select<T>(items: Seq<T>, flags: Seq<bool>, want: bool)
    ensures
        forall|x: T|
            select(items, flags, want).contains(x) <==> (exists|i: int|
                0 <= i < items.len() && #[trigger] items[i] == x && flagged(flags, i) == want),
        items.no_duplicates() ==> select(items, flags, want).no_duplicates(),
        select(items, flags, want).len() <= items.len(),
    decreases items.len(),
{
    let sel = select(items, flags, want);
    if items.len() == 0 {
        assert forall|x: T| !sel.contains(x) by {}
    } else {
        let front = items.drop_last();
        let before = select(front, flags, want);
        lemma_select(front, flags, want);
        let n = items.len() - 1;
        assert forall|x: T| sel.contains(x) <==> (exists|i: int|
            0 <= i < items.len() && #[trigger] items[i] == x && flagged(flags, i) == want) by {
            if sel.contains(x) {
                let j = choose|j: int| 0 <= j < sel.len() && sel[j] == x;
                if j < before.len() {
                    assert(before[j] == x);
                    assert(before.contains(x));
                    let i = choose|i: int|
                        0 <= i < front.len() && #[trigger] front[i] == x && flagged(flags, i)
                            == want;
                    assert(items[i] == x);
                } else {
                    assert(items[n] == x);
                }
            }
            if exists|i: int|
                0 <= i < items.len() && #[trigger] items[i] == x && flagged(flags, i) == want {
                let i = choose|i: int|
                    0 <= i < items.len() && #[trigger] items[i] == x && flagged(flags, i) == want;
                if i < n {
                    assert(front[i] == x);
                    assert(before.contains(x));
                    let j = choose|j: int| 0 <= j < before.len() && before[j] == x;
                    assert(sel[j] == x);
                } else {
                    assert(sel[sel.len() - 1] == x);
                }
            }
        }
        if items.no_duplicates() {
            assert(front.no_duplicates());
            if flagged(flags, n) == want {
                if before.contains(items[n]) {
                    let i = choose|i: int|
                        0 <= i < front.len() && #[trigger] front[i] == items[n] && flagged(
                            flags,
                            i,
                        ) == want;
                    assert(items[i] == items[n]);
                }
                assert forall|a: int, b: int|
                    0 <= a < sel.len() && 0 <= b < sel.len() && a != b implies sel[a] != sel[b] by {
                    if a < before.len() && b < before.len() {
                    } else if a < before.len() {
                        assert(before.contains(sel[a]));
                    } else {
                        assert(before.contains(sel[b]));
                    }
                }
            }
        }
    }
}

impl<V> LineMap<V> {
    /// Binds every key of `other` to its value there: where both maps bind a
    /// key, the value of `other` stays.
    pub fn extend(&mut self, other: LineMap<V>)
        requires
            old(self).wf(),
            other.wf(),
        ensures
            final(self).wf(),
            final(self)@ == old(self)@.union_prefer_right(other@),
    {
        let ghost keys = other.keys();
        let ghost values = other.values();
        let mut entries = other.entries;
        reverse(&mut entries);
        let ghost n = keys.len();
        proof {
            assert(assoc(keys.take(0), values.take(0)) =~= Map::<Seq<char>, V>::empty());
            assert(self@ =~= old(self)@.union_prefer_right(Map::<Seq<char>, V>::empty()));
        }
        while entries.len() > 0
            invariant
                self.wf(),
                keys.no_duplicates(),
                n == keys.len(),
                n == values.len(),
                entries@.len() <= n,
                forall|j: int|
                    0 <= j < entries@.len() ==> (#[trigger] entries@[j]).0@ == keys[n - 1 - j]
                        && entries@[j].1 == values[n - 1 - j],
                self@ == old(self)@.union_prefer_right(
                    assoc(keys.take(n - entries@.len()), values.take(n - entries@.len())),
                ),
            decreases entries.len(),
        {
            let ghost k = n - entries@.len();
            let next = entries.pop();
            match next {
                Some((key, value)) => {
                    proof {
                        assert(key@ == keys[k]);
                        assert(keys.take(k + 1) =~= keys.take(k).push(keys[k]));
                        assert(values.take(k + 1) =~= values.take(k).push(values[k]));
                        assert(keys.take(k).no_duplicates());
                        assert(!keys.take(k).contains(keys[k]));
                        lemma_assoc_push(keys.take(k), values.take(k), keys[k], values[k]);
                        assert(old(self)@.union_prefer_right(
                            assoc(keys.take(k), values.take(k)).insert(keys[k], values[k]),
                        ) =~= old(self)@.union_prefer_right(
                            assoc(keys.take(k), values.take(k)),
                        ).insert(keys[k], values[k]));
                    }
                    self.insert(key, value);
                },
                None => {},
            }
        }
        proof {
            assert(keys.take(n as int) =~= keys);
            assert(values.take(n as int) =~= values);
        }
    }

    /// Splits the map by a list of flags, one for each entry in order: the
    /// first map gets the entries whose flag is not set, the second those whose
    /// flag is set. An entry without a flag counts as not flagged.
    pub fn partition(self, flags: &Vec<bool>) -> (out: (LineMap<V>, LineMap<V>))
        requires
            self.wf(),
        ensures
            out.0.wf(),
            out.1.wf(),
            out.0.keys() == select(self.keys(), flags@, false),
            out.0.values() == select(self.values(), flags@, false),
            out.1.keys() == select(self.keys(), flags@, true),
            out.1.values() == select(self.values(), flags@, true),
            out.0@ == self@.remove_keys(out.1.keys().to_set()),
            out.1@ == self@.restrict(out.1.keys().to_set()),
    {
        let ghost keys = self.keys();
        let ghost values = self.values();
        let ghost n = keys.len();
        let mut entries = self.entries;
        reverse(&mut entries);
        let mut kept: Vec<(String, V)> = Vec::new();
        let mut taken: Vec<(String, V)> = Vec::new();
        let total = entries.len();
        let mut i: usize = 0;
        while entries.len() > 0
            invariant
                n == total,
                n == keys.len(),
                n == values.len(),
                i + entries@.len() == n,
                forall|j: int|
                    0 <= j < entries@.len() ==> (#[trigger] entries@[j]).0@ == keys[n - 1 - j]
                        && entries@[j].1 == values[n - 1 - j],
                Seq::new(kept@.len(), |j: int| kept@[j].0@) == select(
                    keys.take(i as int),
                    flags@,
                    false,
                ),
                Seq::new(kept@.len(), |j: int| kept@[j].1) == select(
                    values.take(i as int),
                    flags@,
                    false,
                ),
                Seq::new(taken@.len(), |j: int| taken@[j].0@) == select(
                    keys.take(i as int),
                    flags@,
                    true,
                ),
                Seq::new(taken@.len(), |j: int| taken@[j].1) == select(
                    values.take(i as int),
                    flags@,
                    true,
                ),
            decreases entries.len(),
        {
            let next = entries.pop();
            match next {
                Some((key, value)) => {
                    proof {
                        assert(keys.take(i + 1) =~= keys.take(i as int).push(keys[i as int]));
                        assert(values.take(i + 1) =~= values.take(i as int).push(
                            values[i as int],
                        ));
                        lemma_select_push(keys.take(i as int), keys[i as int], flags@, false);
                        lemma_select_push(keys.take(i as int), keys[i as int], flags@, true);
                        lemma_select_push(values.take(i as int), values[i as int], flags@, false);
                        lemma_select_push(values.take(i as int), values[i as int], flags@, true);
                    }
                    let set = i < flags.len() && flags[i];
                    if set {
                        let ghost prev_k = Seq::new(taken@.len(), |j: int| taken@[j].0@);
                        let ghost prev_v = Seq::new(taken@.len(), |j: int| taken@[j].1);
                        taken.push((key, value));
                        proof {
                            assert(Seq::new(taken@.len(), |j: int| taken@[j].0@) =~= prev_k.push(
                                key@,
                            ));
                            assert(Seq::new(taken@.len(), |j: int| taken@[j].1) =~= prev_v.push(
                                value,
                            ));
                        }
                    } else {
                        let ghost prev_k = Seq::new(kept@.len(), |j: int| kept@[j].0@);
                        let ghost prev_v = Seq::new(kept@.len(), |j: int| kept@[j].1);
                        kept.push((key, value));
                        proof {
                            assert(Seq::new(kept@.len(), |j: int| kept@[j].0@) =~= prev_k.push(
                                key@,
                            ));
                            assert(Seq::new(kept@.len(), |j: int| kept@[j].1) =~= prev_v.push(
                                value,
                            ));
                        }
                    }
                    i += 1;
                },
                None => {},
            }
        }
        let out = (LineMap { entries: kept }, LineMap { entries: taken });
        proof {
            assert(keys.take(n as int) =~= keys);
            assert(values.take(n as int) =~= values);
            lemma_select(keys, flags@, false);
            lemma_select(keys, flags@, true);
            lemma_select_len(keys, values, flags@, false);
            lemma_select_len(keys, values, flags@, true);
            lemma_select_assoc(keys, values, flags@, false);
            lemma_select_assoc(keys, values, flags@, true);
            assert forall|x: Seq<char>| keys.contains(x) implies (select(
                keys,
                flags@,
                false,
            ).contains(x) <==> !select(keys, flags@, true).contains(x)) by {
                let i = choose|i: int| 0 <= i < keys.len() && keys[i] == x;
                if select(keys, flags@, false).contains(x) && select(keys, flags@, true).contains(
                    x,
                ) {
                    let a = choose|a: int|
                        0 <= a < keys.len() && #[trigger] keys[a] == x && flagged(flags@, a)
                            == false;
                    let b = choose|b: int|
                        0 <= b < keys.len() && #[trigger] keys[b] == x && flagged(flags@, b)
                            == true;
                    assert(a != b);
                }
                if flagged(flags@, i) {
                    assert(select(keys, flags@, true).contains(x));
                } else {
                    assert(select(keys, flags@, false).contains(x));
                }
            }
            assert(out.0@ =~= self@.remove_keys(out.1.keys().to_set()));
        }
        out
    }
}

/// Two lists of one length give selections of one length.
pub proof fn lemma_select_len<A, B>(xs: Seq<A>, ys: Seq<B>, flags: Seq<bool>, want: bool)
    requires
        xs.len() == ys.len(),
    ensures
        select(xs, flags, want).len() == select(ys, flags, want).len(),
    decreases xs.len(),
{
    if xs.len() > 0 {
        lemma_select_len(xs.drop_last(), ys.drop_last(), flags, want);
    }
}

impl<V: Clone> Clone for LineMap<V> {
    /// A copy of the map: the same keys in the same order, each with a clone
    /// of its value.
    fn clone(&self) -> (copy: Self)
        ensures
            copy.keys() == self.keys(),
            copy.values().len() == self.values().len(),
            forall|i: int|
                0 <= i < self.values().len() ==> cloned::<V>(
                    self.values()[i],
                    #[trigger] copy.values()[i],
                ),
    {
        let mut entries: Vec<(String, V)> = Vec::new();
        let mut i: usize = 0;
        while i < self.entries.len()
            invariant
                i <= self.entries@.len(),
                entries@.len() == i,
                forall|j: int|
                    0 <= j < i ==> (#[trigger] entries@[j]).0@ == self.entries@[j].0@ && cloned::<V>(
                        self.entries@[j].1,
                        entries@[j].1,
                    ),
            decreases self.entries.len() - i,
        {
            let key = self.entries[i].0.clone();
            let value = self.entries[i].1.clone();
            entries.push((key, value));
            i += 1;
        }
        let copy = LineMap { entries };
        proof {
            assert(copy.keys() =~= self.keys());
            assert forall|i: int| 0 <= i < self.values().len() implies cloned::<V>(
                self.values()[i],
                #[trigger] copy.values()[i],
            ) by {
                assert(cloned::<V>(self.entries@[i].1, copy.entries@[i].1));
            }
        }
        copy
    }
}

/// Selecting from a map's entries restricts the map: what is selected stands
/// for the map restricted to the keys selected.
pub proof fn lemma_select_assoc<V>(
    keys: Seq<Seq<char>>,
    values: Seq<V>,
    flags: Seq<bool>,
    want: bool,
)
    requires
        keys.no_duplicates(),
        keys.len() == values.len(),
    ensures
        assoc(select(keys, flags, want), select(values, flags, want)) == assoc(
            keys,
            values,
        ).restrict(select(keys, flags, want).to_set()),
    decreases keys.len(),
{
    let picked = select(keys, flags, want);
    if keys.len() == 0 {
        assert(assoc(picked, select(values, flags, want)) =~= assoc(keys, values).restrict(
            picked.to_set(),
        ));
    } else {
        let n = keys.len() - 1;
        let front = keys.drop_last();
        let front_values = values.drop_last();
        let k = keys[n];
        let v = values[n];
        let before = select(front, flags, want);
        let before_values = select(front_values, flags, want);
        assert(front.no_duplicates());
        lemma_select_assoc(front, front_values, flags, want);
        lemma_select(front, flags, want);
        lemma_select_len(front, front_values, flags, want);
        assert(!front.contains(k)) by {
            if front.contains(k) {
                let i = choose|i: int| 0 <= i < front.len() && front[i] == k;
                assert(keys[i] == keys[n]);
            }
        }
        assert(!before.contains(k)) by {
            if before.contains(k) {
                let i = choose|i: int|
                    0 <= i < front.len() && #[trigger] front[i] == k && flagged(flags, i) == want;
                assert(front.contains(k));
            }
        }
        assert(front.push(k) =~= keys);
        assert(front_values.push(v) =~= values);
        lemma_assoc_push(front, front_values, k, v);
        if flagged(flags, n) == want {
            lemma_assoc_push(before, before_values, k, v);
            assert(picked.to_set() =~= before.to_set().insert(k)) by {
                assert forall|x: Seq<char>| picked.contains(x) <==> (before.contains(x) || x
                    == k) by {
                    if picked.contains(x) {
                        let j = choose|j: int| 0 <= j < picked.len() && picked[j] == x;
                        if j < before.len() {
                            assert(before[j] == x);
                        }
                    }
                    if before.contains(x) {
                        let j = choose|j: int| 0 <= j < before.len() && before[j] == x;
                        assert(picked[j] == x);
                    }
                    if x == k {
                        assert(picked[picked.len() - 1] == k);
                    }
                }
            }
            assert(assoc(front, front_values).restrict(before.to_set()).insert(k, v) =~= assoc(
                front,
                front_values,
            ).insert(k, v).restrict(before.to_set().insert(k)));
        } else {
            assert(assoc(front, front_values).restrict(before.to_set()) =~= assoc(
                front,
                front_values,
            ).insert(k, v).restrict(before.to_set()));
        }
    }
}

} // verus!
