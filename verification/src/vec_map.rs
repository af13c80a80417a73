use vstd::prelude::*;

verus! {

/// A key that can be compared and copied in executable code.
pub trait Key: Sized + Copy {
    /// Whether the two keys are the same value.
    fn same(&self, other: &Self) -> (r: bool)
        ensures
            r == (*self == *other),
    ;
}

impl Key for u64 {
    fn same(&self, other: &u64) -> (r: bool) {
        *self == *other
    }
}

/// An insertion-ordered map in which no key occurs twice.
///
/// The key at position `i` of `keys()` has the value at position `i` of `values()`.
#[derive(Debug, PartialEq, Eq)]
pub struct VecMap<K, V> {
    keys: Vec<K>,
    values: Vec<V>,
}

impl<K, V> View for VecMap<K, V> {
    type V = Map<K, V>;

    /// The map from each key to its value.
    open spec fn view(&self) -> Map<K, V> {
        Map::new(|k: K| self.contains_key(k), |k: K| self.value_of(k))
    }
}

impl<K, V> VecMap<K, V> {
    /// The keys in insertion order.
    pub closed spec fn keys(&self) -> Seq<K> {
        self.keys@
    }

    /// The values, each at the position of its key.
    pub closed spec fn values(&self) -> Seq<V> {
        self.values@
    }

    /// Every key has one value, and no key occurs twice.
    #[verifier::type_invariant]
    pub open spec fn well_formed(&self) -> bool {
        self.keys().len() == self.values().len() && self.keys().no_duplicates()
    }

    /// Whether `key` has a value.
    pub open spec fn contains_key(&self, key: K) -> bool {
        self.keys().contains(key)
    }

    /// The position of `key` among the keys.
    pub open spec fn position(&self, key: K) -> int {
        self.keys().index_of(key)
    }

    /// The value of `key`.
    pub open spec fn value_of(&self, key: K) -> V {
        self.values()[self.position(key)]
    }

    /// The key at `i` is held, and `i` is its position.
    pub proof fn lemma_position(&self, i: int)
        requires
            self.well_formed(),
            0 <= i < self.keys().len(),
        ensures
            self.contains_key(self.keys()[i]),
            self.position(self.keys()[i]) == i,
    {
        let key = self.keys()[i];
        let j = self.keys().index_of(key);
        assert(self.keys()[j] == key);
    }

    /// Changing the value at `i` sets the value of the key at `i`.
    pub proof fn lemma_view_update(&self, after: &Self, i: int, value: V)
        requires
            self.well_formed(),
            0 <= i < self.keys().len(),
            after.keys() == self.keys(),
            after.values() == self.values().update(i, value),
        ensures
            after@ == self@.insert(self.keys()[i], value),
    {
        self.lemma_position(i);
        assert forall|k: K| #[trigger] after@.contains_key(k) implies after@[k] == self@.insert(
            self.keys()[i],
            value,
        )[k] by {
            self.lemma_contained(k);
        }
        assert(after@ =~= self@.insert(self.keys()[i], value));
    }

    /// Adding a new key at the end adds it to the map.
    pub proof fn lemma_view_push(&self, after: &Self, key: K, value: V)
        requires
            self.well_formed(),
            !self.contains_key(key),
            after.keys() == self.keys().push(key),
            after.values() == self.values().push(value),
        ensures
            after@ == self@.insert(key, value),
            after.well_formed(),
    {
        let n = self.keys().len() as int;
        assert(after.keys()[n] == key);
        assert forall|k: K| self.contains_key(k) implies after.contains_key(k) by {
            self.lemma_contained(k);
            assert(after.keys()[self.position(k)] == k);
        }
        assert forall|k: K| #[trigger] after.contains_key(k) implies (k == key || self.contains_key(
            k,
        )) && after.value_of(k) == self@.insert(key, value)[k] by {
            after.lemma_contained(k);
            let j = after.position(k);
            if j < n {
                assert(self.keys()[j] == k);
                self.lemma_position(j);
            }
        }
        assert(after@ =~= self@.insert(key, value));
    }

    /// A key that the map holds stands at its position.
    pub proof fn lemma_contained(&self, key: K)
        requires
            self.contains_key(key),
        ensures
            0 <= self.position(key) < self.keys().len(),
            self.keys()[self.position(key)] == key,
    {
        let j = self.keys().index_of(key);
        assert(self.keys()[j] == key);
    }
}

impl<K: Key, V: Clone> Clone for VecMap<K, V> {
    /// Copies the keys and clones each value.
    fn clone(&self) -> (m: Self)
        ensures
            m.keys() == self.keys(),
            m.values().len() == self.values().len(),
            forall|i: int|
                0 <= i < self.values().len() ==> cloned(self.values()[i], #[trigger] m.values()[i]),
    {
        proof {
            use_type_invariant(self);
        }
        let mut keys: Vec<K> = Vec::new();
        let mut values: Vec<V> = Vec::new();
        let mut i: usize = 0;
        while i < self.keys.len()
            invariant
                0 <= i <= self.keys@.len(),
                self.keys@.len() == self.values@.len(),
                keys@ == self.keys@.take(i as int),
                values@.len() == i,
                forall|j: int| 0 <= j < i ==> cloned(self.values@[j], #[trigger] values@[j]),
            decreases self.keys.len() - i,
        {
            keys.push(self.keys[i]);
            values.push(self.values[i].clone());
            assert(keys@ =~= self.keys@.take(i + 1));
            i += 1;
        }
        assert(keys@ =~= self.keys@);
        VecMap { keys, values }
    }
}

impl<K: Key, V: Copy> VecMap<K, V> {
    /// A copy with the same keys and values.
    pub fn duplicate(&self) -> (m: Self)
        ensures
            m.keys() == self.keys(),
            m.values() == self.values(),
            m@ == self@,
    {
        proof {
            use_type_invariant(self);
        }
        let mut keys: Vec<K> = Vec::new();
        let mut values: Vec<V> = Vec::new();
        let mut i: usize = 0;
        while i < self.keys.len()
            invariant
                0 <= i <= self.keys@.len(),
                self.keys@.len() == self.values@.len(),
                keys@ == self.keys@.take(i as int),
                values@ == self.values@.take(i as int),
            decreases self.keys.len() - i,
        {
            keys.push(self.keys[i]);
            values.push(self.values[i]);
            assert(keys@ =~= self.keys@.take(i + 1));
            assert(values@ =~= self.values@.take(i + 1));
            i += 1;
        }
        assert(keys@ =~= self.keys@);
        assert(values@ =~= self.values@);
        let m = VecMap { keys, values };
        assert(m@ =~= self@);
        m
    }
}

impl<K: Key, V> VecMap<K, V> {
    /// A map that holds nothing.
    pub fn new() -> (m: Self)
        ensures
            m.keys() == Seq::<K>::empty(),
            m.values() == Seq::<V>::empty(),
    {
        VecMap { keys: Vec::new(), values: Vec::new() }
    }

    /// The number of keys.
    pub fn len(&self) -> (n: usize)
        ensures
            n == self.keys().len(),
            n == self.values().len(),
    {
        proof {
            use_type_invariant(self);
        }
        self.keys.len()
    }

    /// Whether the map holds nothing.
    pub fn is_empty(&self) -> (b: bool)
        ensures
            b == (self.keys().len() == 0),
    {
        self.keys.len() == 0
    }

    /// The position of `key`, if the map holds it.
    pub fn index_of(&self, key: &K) -> (r: Option<usize>)
        ensures
            self.well_formed(),
            match r {
                Some(i) => self.contains_key(*key) && i == self.position(*key) && i
                    < self.keys().len() && self.keys()[i as int] == *key,
                None => !self.contains_key(*key),
            },
    {
        proof {
            use_type_invariant(self);
        }
        let mut i: usize = 0;
        while i < self.keys.len()
            invariant
                0 <= i <= self.keys().len(),
                self.well_formed(),
                forall|j: int| 0 <= j < i ==> self.keys()[j] != *key,
            decreases self.keys.len() - i,
        {
            if self.keys[i].same(key) {
                proof {
                    self.lemma_position(i as int);
                }
                return Some(i);
            }
            i += 1;
        }
        proof {
            if self.contains_key(*key) {
                self.lemma_contained(*key);
            }
        }
        None
    }

    /// Whether `key` has a value.
    pub fn contains(&self, key: &K) -> (b: bool)
        ensures
            b == self.contains_key(*key),
    {
        self.index_of(key).is_some()
    }

    /// The value of `key`, if the map holds it.
    pub fn get(&self, key: &K) -> (r: Option<&V>)
        ensures
            match r {
                Some(v) => self.contains_key(*key) && *v == self.value_of(*key),
                None => !self.contains_key(*key),
            },
    {
        match self.index_of(key) {
            Some(i) => Some(&self.values[i]),
            None => None,
        }
    }

    /// The key at position `i`.
    pub fn key_at(&self, i: usize) -> (k: &K)
        requires
            i < self.keys().len(),
        ensures
            *k == self.keys()[i as int],
    {
        &self.keys[i]
    }

    /// The value at position `i`.
    pub fn value_at(&self, i: usize) -> (v: &V)
        requires
            i < self.values().len(),
        ensures
            *v == self.values()[i as int],
    {
        &self.values[i]
    }

    /// The value at position `i`, to be changed in place.
    pub fn value_at_mut(&mut self, i: usize) -> (v: &mut V)
        requires
            i < old(self).values().len(),
        ensures
            *v == old(self).values()[i as int],
            final(self).keys() == old(self).keys(),
            final(self).values() == old(self).values().update(i as int, *final(v)),
            final(self)@ == old(self)@.insert(old(self).keys()[i as int], *final(v)),
    {
        proof {
            use_type_invariant(&*self);
        }
        proof {
            let before = *self;
            assert forall|after: Self, value: V|
                #![trigger after.values(), before.values().update(i as int, value)]
                after.keys() == before.keys() && after.values() == before.values().update(
                    i as int,
                    value,
                ) implies after@ == before@.insert(before.keys()[i as int], value) by {
                before.lemma_view_update(&after, i as int, value);
            }
        }
        &mut self.values[i]
    }

    /// Adds `key` with `value` at the end and returns its position.
    pub fn push(&mut self, key: K, value: V) -> (i: usize)
        requires
            !old(self).contains_key(key),
        ensures
            i == old(self).keys().len(),
            final(self).keys() == old(self).keys().push(key),
            final(self).values() == old(self).values().push(value),
            final(self)@ == old(self)@.insert(key, value),
    {
        proof {
            use_type_invariant(&*self);
        }
        let ghost before = *self;
        let i = self.keys.len();
        let mut taken: VecMap<K, V> = VecMap::new();
        core::mem::swap(self, &mut taken);
        let VecMap { mut keys, mut values } = taken;
        keys.push(key);
        values.push(value);
        let after = VecMap { keys, values };
        proof {
            before.lemma_view_push(&after, key, value);
        }
        *self = after;
        i
    }

    /// Sets the value of `key`, and returns the value it had before.
    pub fn insert(&mut self, key: K, value: V) -> (r: Option<V>)
        ensures
            final(self)@ == old(self)@.insert(key, value),
            match r {
                Some(v) => old(self).contains_key(key) && v == old(self).value_of(key)
                    && final(self).keys() == old(self).keys() && final(self).values() == old(
                    self,
                ).values().update(old(self).position(key), value),
                None => !old(self).contains_key(key) && final(self).keys() == old(
                    self,
                ).keys().push(key) && final(self).values() == old(self).values().push(value),
            },
    {
        match self.index_of(&key) {
            Some(i) => {
                let slot = self.value_at_mut(i);
                let mut previous = value;
                core::mem::swap(slot, &mut previous);
                Some(previous)
            },
            None => {
                self.push(key, value);
                None
            },
        }
    }
}

} // verus!
