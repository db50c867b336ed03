//! A map from strings to values that keeps its keys in the order in which
//! they came.

use vstd::prelude::*;
use vstd::string::*;

verus! {

/// The first place at which `key` stands in `keys`.
pub open spec fn place_of(keys: Seq<Seq<char>>, key: Seq<char>) -> int {
    choose|i: int| 0 <= i < keys.len() && keys[i] == key
}

/// No key stands at two places.
pub open spec fn distinct(keys: Seq<Seq<char>>) -> bool {
    forall|i: int, j: int| 0 <= i < j < keys.len() ==> keys[i] != keys[j]
}

/// The map that holds `values[i]` under `keys[i]`.
pub open spec fn map_of<V>(keys: Seq<Seq<char>>, values: Seq<V>) -> Map<Seq<char>, V> {
    Map::new(|k: Seq<char>| keys.contains(k), |k: Seq<char>| values[place_of(keys, k)])
}

/// The strings as sequences of characters.
pub open spec fn texts_of(keys: Seq<String>) -> Seq<Seq<char>> {
    Seq::new(keys.len(), |i: int| keys[i]@)
}

/// A key that occurs once stands where it occurs.
pub proof fn lemma_place_of(keys: Seq<Seq<char>>, i: int)
    requires
        distinct(keys),
        0 <= i < keys.len(),
    ensures
        place_of(keys, keys[i]) == i,
        keys.contains(keys[i]),
{
    let p = place_of(keys, keys[i]);
    assert(0 <= p < keys.len() && keys[p] == keys[i]);
    if p < i {
        assert(keys[p] != keys[i]);
    }
    if i < p {
        assert(keys[i] != keys[p]);
    }
}

/// Putting a value under a key that stands at `i` changes the map at that
/// key only.
proof fn lemma_map_of_update<V>(keys: Seq<Seq<char>>, values: Seq<V>, i: int, value: V)
    requires
        distinct(keys),
        keys.len() == values.len(),
        0 <= i < keys.len(),
    ensures
        map_of(keys, values.update(i, value)) == map_of(keys, values).insert(keys[i], value),
{
    lemma_place_of(keys, i);
    assert forall|k: Seq<char>| keys.contains(k) implies #[trigger] map_of(
        keys,
        values.update(i, value),
    )[k] == map_of(keys, values).insert(keys[i], value)[k] by {
        let p = place_of(keys, k);
        assert(0 <= p < keys.len() && keys[p] == k);
    }
    assert(map_of(keys, values.update(i, value)) =~= map_of(keys, values).insert(keys[i], value));
}

/// A new key with its value at the end adds one entry to the map.
proof fn lemma_map_of_push<V>(keys: Seq<Seq<char>>, values: Seq<V>, key: Seq<char>, value: V)
    requires
        distinct(keys),
        keys.len() == values.len(),
        !keys.contains(key),
    ensures
        distinct(keys.push(key)),
        map_of(keys.push(key), values.push(value)) == map_of(keys, values).insert(key, value),
{
    let grown = keys.push(key);
    assert forall|i: int, j: int| 0 <= i < j < grown.len() implies grown[i] != grown[j] by {
        if j == keys.len() {
            assert(keys[i] == grown[i]);
            if grown[i] == key {
                assert(keys.contains(key));
            }
        } else {
            assert(keys[i] != keys[j]);
        }
    }
    assert forall|k: Seq<char>| grown.contains(k) <==> (keys.contains(k) || k == key) by {
        if grown.contains(k) {
            let p = choose|p: int| 0 <= p < grown.len() && grown[p] == k;
            if p < keys.len() {
                assert(keys[p] == k);
            }
        }
        if keys.contains(k) {
            let p = choose|p: int| 0 <= p < keys.len() && keys[p] == k;
            assert(grown[p] == k);
        }
        if k == key {
            assert(grown[keys.len() as int] == k);
        }
    }
    assert forall|k: Seq<char>| grown.contains(k) implies #[trigger] map_of(
        grown,
        values.push(value),
    )[k] == map_of(keys, values).insert(key, value)[k] by {
        let p = place_of(grown, k);
        assert(0 <= p < grown.len() && grown[p] == k);
        if k == key {
            lemma_place_of(grown, keys.len() as int);
        } else {
            assert(keys.contains(k));
            let q = place_of(keys, k);
            assert(0 <= q < keys.len() && keys[q] == k);
            assert(grown[q] == k);
            lemma_place_of(grown, q);
        }
    }
    assert(map_of(grown, values.push(value)) =~= map_of(keys, values).insert(key, value));
}

/// Taking out the key at `i` with its value takes one entry from the map.
proof fn lemma_map_of_remove<V>(keys: Seq<Seq<char>>, values: Seq<V>, i: int)
    requires
        distinct(keys),
        keys.len() == values.len(),
        0 <= i < keys.len(),
    ensures
        distinct(keys.remove(i)),
        map_of(keys.remove(i), values.remove(i)) == map_of(keys, values).remove(keys[i]),
{
    let left = keys.remove(i);
    let key = keys[i];
    assert forall|a: int, b: int| 0 <= a < b < left.len() implies left[a] != left[b] by {
        let a0 = if a < i {
            a
        } else {
            a + 1
        };
        let b0 = if b < i {
            b
        } else {
            b + 1
        };
        assert(keys[a0] != keys[b0]);
    }
    assert forall|k: Seq<char>| left.contains(k) <==> (keys.contains(k) && k != key) by {
        if left.contains(k) {
            let p = choose|p: int| 0 <= p < left.len() && left[p] == k;
            let was = if p < i {
                p
            } else {
                p + 1
            };
            assert(keys[was] == k);
            if k == key {
                lemma_place_of(keys, was);
                lemma_place_of(keys, i);
            }
        }
        if keys.contains(k) && k != key {
            let p = choose|p: int| 0 <= p < keys.len() && keys[p] == k;
            let now = if p < i {
                p
            } else {
                p - 1
            };
            assert(left[now] == k);
        }
    }
    assert forall|k: Seq<char>| left.contains(k) implies #[trigger] map_of(
        left,
        values.remove(i),
    )[k] == map_of(keys, values)[k] by {
        let p = place_of(left, k);
        assert(0 <= p < left.len() && left[p] == k);
        let was = if p < i {
            p
        } else {
            p + 1
        };
        assert(keys[was] == k);
        lemma_place_of(keys, was);
    }
    assert(map_of(left, values.remove(i)) =~= map_of(keys, values).remove(key));
}

/// A map from strings to values, in the order of first insertion.
pub struct StringTable<V> {
    keys: Vec<String>,
    values: Vec<V>,
}

impl<V> StringTable<V> {
    /// There is one value for each key, and no key occurs twice.
    #[verifier::type_invariant]
    spec fn inv(&self) -> bool {
        &&& self.keys@.len() == self.values@.len()
        &&& distinct(texts_of(self.keys@))
    }

    /// The keys, in the order in which they were first inserted.
    pub closed spec fn key_order(&self) -> Seq<Seq<char>> {
        texts_of(self.keys@)
    }

    /// The values, each at the place of its key.
    pub closed spec fn value_order(&self) -> Seq<V> {
        self.values@
    }

    /// The table as a map.
    pub open spec fn map(&self) -> Map<Seq<char>, V> {
        map_of(self.key_order(), self.value_order())
    }

    /// Number of entries.
    pub open spec fn count(&self) -> nat {
        self.key_order().len()
    }

    /// An empty table.
    pub fn new() -> (table: Self)
        ensures
            table.count() == 0,
            table.map() == Map::<Seq<char>, V>::empty(),
    {
        let table = StringTable { keys: Vec::new(), values: Vec::new() };
        assert(table.map() =~= Map::<Seq<char>, V>::empty());
        table
    }

    /// Number of entries. Keys and values stand side by side, and no key
    /// occurs twice.
    pub fn len(&self) -> (n: usize)
        ensures
            n == self.count(),
            self.value_order().len() == self.count(),
            distinct(self.key_order()),
    {
        proof {
            use_type_invariant(self);
        }
        self.keys.len()
    }

    /// The place of `key`, if it has one.
    pub fn find(&self, key: &str) -> (place: Option<usize>)
        ensures
            match place {
                Some(i) => i < self.count() && self.key_order()[i as int] == key@
                    && self.map().contains_key(key@) && place_of(self.key_order(), key@) == i,
                None => !self.map().contains_key(key@) && !self.key_order().contains(key@),
            },
    {
        proof {
            use_type_invariant(self);
        }
        let wanted: String = String::from_str(key);
        let mut i: usize = 0;
        while i < self.keys.len()
            invariant
                distinct(self.key_order()),
                wanted@ == key@,
                i <= self.keys@.len(),
                forall|k: int| 0 <= k < i ==> self.key_order()[k] != key@,
            decreases self.keys@.len() - i,
        {
            if self.keys[i] == wanted {
                proof {
                    assert(self.key_order()[i as int] == key@);
                    lemma_place_of(self.key_order(), i as int);
                }
                return Some(i);
            }
            i = i + 1;
        }
        None
    }

    /// Whether `key` has an entry.
    pub fn contains_key(&self, key: &str) -> (found: bool)
        ensures
            found == self.map().contains_key(key@),
    {
        self.find(key).is_some()
    }

    /// The value under `key`.
    pub fn get(&self, key: &str) -> (value: Option<&V>)
        ensures
            match value {
                Some(v) => self.map().contains_key(key@) && *v == self.map()[key@],
                None => !self.map().contains_key(key@),
            },
    {
        proof {
            use_type_invariant(self);
        }
        match self.find(key) {
            Some(i) => Some(&self.values[i]),
            None => None,
        }
    }

    /// The key at place `i`.
    pub fn key_at(&self, i: usize) -> (key: &String)
        requires
            i < self.count(),
        ensures
            key@ == self.key_order()[i as int],
            self.map().contains_key(key@),
    {
        proof {
            use_type_invariant(self);
            lemma_place_of(self.key_order(), i as int);
        }
        &self.keys[i]
    }

    /// The value at place `i`.
    pub fn value_at(&self, i: usize) -> (value: &V)
        requires
            i < self.count(),
        ensures
            *value == self.value_order()[i as int],
            *value == self.map()[self.key_order()[i as int]],
    {
        proof {
            use_type_invariant(self);
            lemma_place_of(self.key_order(), i as int);
        }
        &self.values[i]
    }

    /// Puts `value` under `key`. A key that is new goes to the end; a key
    /// that has an entry keeps its place.
    pub fn insert(&mut self, key: String, value: V)
        ensures
            final(self).map() == old(self).map().insert(key@, value),
            old(self).map().contains_key(key@) ==> final(self).key_order() == old(self).key_order(),
            !old(self).map().contains_key(key@) ==> final(self).key_order() == old(
                self,
            ).key_order().push(key@),
    {
        proof {
            use_type_invariant(&*self);
        }
        let place: Option<usize> = self.find(key.as_str());
        let mut taken: StringTable<V> = StringTable::new();
        std::mem::swap(self, &mut taken);
        let StringTable { keys, values } = taken;
        let mut keys: Vec<String> = keys;
        let mut values: Vec<V> = values;
        let ghost keys0 = texts_of(keys@);
        let ghost values0 = values@;
        match place {
            Some(i) => {
                values.set(i, value);
                proof {
                    lemma_map_of_update(keys0, values0, i as int, value);
                }
            },
            None => {
                keys.push(key);
                values.push(value);
                proof {
                    assert(texts_of(keys@) =~= keys0.push(key@));
                    lemma_map_of_push(keys0, values0, key@, value);
                }
            },
        }
        *self = StringTable { keys, values };
    }

    /// Removes the entry of `key`, if there is one. The other keys keep
    /// their order.
    pub fn remove(&mut self, key: &str)
        ensures
            final(self).map() == old(self).map().remove(key@),
            old(self).map().contains_key(key@) ==> final(self).count() + 1 == old(self).count(),
            !old(self).map().contains_key(key@) ==> final(self).key_order() == old(
                self,
            ).key_order(),
    {
        proof {
            use_type_invariant(&*self);
        }
        match self.find(key) {
            Some(i) => {
                let mut taken: StringTable<V> = StringTable::new();
                std::mem::swap(self, &mut taken);
                let StringTable { keys, values } = taken;
                let mut keys: Vec<String> = keys;
                let mut values: Vec<V> = values;
                let ghost keys0 = texts_of(keys@);
                let ghost values0 = values@;
                keys.remove(i);
                values.remove(i);
                proof {
                    assert(texts_of(keys@) =~= keys0.remove(i as int));
                    assert(values@ =~= values0.remove(i as int));
                    lemma_map_of_remove(keys0, values0, i as int);
                }
                *self = StringTable { keys, values };
            },
            None => {
                assert(self.map() =~= old(self).map().remove(key@));
            },
        }
    }

    /// Removes every entry.
    pub fn clear(&mut self)
        ensures
            final(self).count() == 0,
            final(self).map() == Map::<Seq<char>, V>::empty(),
    {
        *self = StringTable::new();
    }
}

} // verus!
