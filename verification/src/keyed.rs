//! A map from keys that are compared by what they say.
use crate::ast::AbsolutePath;
use vstd::prelude::*;

verus! {

/// A key of a [`KeyedMap`].
pub trait MapKey: View + Sized {
    /// Whether two keys say the same.
    fn same_key(&self, other: &Self) -> (r: bool)
        ensures
            r == (self@ == other@),
    ;

    /// A key that says the same.
    fn copy_key(&self) -> (r: Self)
        ensures
            r@ == self@,
    ;
}

impl MapKey for String {
    fn same_key(&self, other: &String) -> (r: bool) {
        *self == *other
    }

    fn copy_key(&self) -> (r: String) {
        self.clone()
    }
}

impl MapKey for AbsolutePath {
    fn same_key(&self, other: &AbsolutePath) -> (r: bool) {
        self.same(other)
    }

    fn copy_key(&self) -> (r: AbsolutePath) {
        self.clone()
    }
}

/// A map that holds each key once, in the order in which the keys first came.
#[derive(Debug)]
pub struct KeyedMap<K: MapKey, V> {
    entries: Vec<(K, V)>,
}

impl<K: MapKey, V> KeyedMap<K, V> {
    #[verifier::type_invariant]
    spec fn keys_differ(self) -> bool {
        forall|i: int, j: int|
            0 <= i < j < self.entries@.len() ==> (#[trigger] self.entries@[i]).0@
                != (#[trigger] self.entries@[j]).0@
    }

    spec fn at(self, i: int, key: K::V) -> bool {
        0 <= i < self.entries@.len() && self.entries@[i].0@ == key
    }
}

impl<K: MapKey, V> View for KeyedMap<K, V> {
    type V = Map<K::V, V>;

    closed spec fn view(&self) -> Map<K::V, V> {
        Map::new(
            |key: K::V| exists|i: int| self.at(i, key),
            |key: K::V| self.entries@[choose|i: int| self.at(i, key)].1,
        )
    }
}

impl<K: MapKey, V> KeyedMap<K, V> {
    /// The map without keys.
    pub fn new() -> (r: KeyedMap<K, V>)
        ensures
            r@ == Map::<K::V, V>::empty(),
    {
        let r = KeyedMap { entries: Vec::new() };
        assert(r@ =~= Map::<K::V, V>::empty());
        r
    }

    /// Where a key stands.
    fn find(&self, key: &K) -> (r: Option<usize>)
        ensures
            match r {
                Some(i) => self.at(i as int, key@),
                None => forall|i: int| !self.at(i, key@),
            },
    {
        let mut i: usize = 0;
        while i < self.entries.len()
            invariant
                i <= self.entries@.len(),
                forall|j: int| 0 <= j < i ==> !self.at(j, key@),
            decreases self.entries@.len() - i,
        {
            if self.entries[i].0.same_key(key) {
                return Some(i);
            }
            i += 1;
        }
        None
    }

    /// What the map holds for a key.
    pub fn get(&self, key: &K) -> (r: Option<&V>)
        ensures
            match r {
                Some(value) => self@.contains_key(key@) && *value == self@[key@],
                None => !self@.contains_key(key@),
            },
    {
        proof {
            use_type_invariant(self);
        }
        match self.find(key) {
            Some(i) => {
                assert(self.at(i as int, key@));
                Some(&self.entries[i].1)
            },
            None => None,
        }
    }

    /// Whether the map holds a key.
    pub fn contains_key(&self, key: &K) -> (r: bool)
        ensures
            r == self@.contains_key(key@),
    {
        self.get(key).is_some()
    }

    /// Lets the map hold a value for a key, in place of what it held before.
    pub fn insert(&mut self, key: K, value: V)
        ensures
            final(self)@ == old(self)@.insert(key@, value),
    {
        proof {
            use_type_invariant(&*self);
        }
        let ghost before = *self;
        let found = self.find(&key);
        let mut entries: Vec<(K, V)> = Vec::new();
        std::mem::swap(&mut entries, &mut self.entries);
        let ghost given = (key, value);
        match found {
            Some(i) => {
                entries.set(i, (key, value));
            },
            None => {
                entries.push((key, value));
            },
        }
        let ghost place = match found {
            Some(i) => i as int,
            None => before.entries@.len() as int,
        };
        proof {
            assert forall|i: int| 0 <= i < before.entries@.len() implies (
            #[trigger] entries@[i]).0@ == before.entries@[i].0@ by {
                assert(before.at(i, before.entries@[i].0@));
            }
            assert forall|i: int, j: int| 0 <= i < j < entries@.len() implies (
            #[trigger] entries@[i]).0@ != (#[trigger] entries@[j]).0@ by {
                assert(before.entries@[i].0@ == entries@[i].0@);
                if j < before.entries@.len() {
                    assert(before.entries@[j].0@ == entries@[j].0@);
                } else {
                    assert(!before.at(i, given.0@));
                }
            }
        }
        self.entries = entries;
        proof {
            assert(self.at(place, given.0@));
            assert forall|k: K::V| self@.contains_key(k) == before@.insert(
                given.0@,
                given.1,
            ).contains_key(k) by {
                if before@.contains_key(k) {
                    let i = choose|i: int| before.at(i, k);
                    assert(self.at(i, k));
                }
                if self@.contains_key(k) && k != given.0@ {
                    let i = choose|i: int| self.at(i, k);
                    assert(before.at(i, k));
                }
            }
            assert forall|k: K::V| self@.contains_key(k) implies self@[k] == before@.insert(
                given.0@,
                given.1,
            )[k] by {
                let i = choose|i: int| self.at(i, k);
                if k == given.0@ {
                    assert(i == place);
                } else {
                    assert(before.at(i, k));
                    let j = choose|j: int| before.at(j, k);
                    assert(i == j);
                }
            }
            assert(self@ =~= before@.insert(given.0@, given.1));
        }
    }
}

impl<K: MapKey, V> KeyedMap<K, V> {
    /// A map that holds a copy of each value under the same key.
    pub fn copy<F: Fn(&V) -> V>(&self, copy_value: F) -> (r: KeyedMap<K, V>)
        requires
            forall|value: V| #[trigger] call_requires(copy_value, (&value,)),
        ensures
            r@.dom() == self@.dom(),
            forall|key: K::V| #[trigger]
                r@.contains_key(key) ==> call_ensures(copy_value, (&self@[key],), r@[key]),
    {
        proof {
            use_type_invariant(self);
        }
        let mut entries: Vec<(K, V)> = Vec::new();
        let mut i: usize = 0;
        while i < self.entries.len()
            invariant
                i <= self.entries@.len(),
                entries@.len() == i,
                forall|value: V| #[trigger] call_requires(copy_value, (&value,)),
                forall|j: int|
                    0 <= j < i ==> (#[trigger] entries@[j]).0@ == self.entries@[j].0@
                        && call_ensures(copy_value, (&self.entries@[j].1,), entries@[j].1),
            decreases self.entries@.len() - i,
        {
            entries.push((self.entries[i].0.copy_key(), copy_value(&self.entries[i].1)));
            i += 1;
        }
        let r = KeyedMap { entries };
        proof {
            assert forall|i: int, k: K::V| #[trigger] r.at(i, k) == self.at(i, k) by {}
            assert forall|k: K::V| r@.contains_key(k) == self@.contains_key(k) by {
                if r@.contains_key(k) {
                    let i = choose|i: int| r.at(i, k);
                    assert(self.at(i, k));
                }
                if self@.contains_key(k) {
                    let i = choose|i: int| self.at(i, k);
                    assert(r.at(i, k));
                }
            }
            assert forall|k: K::V| #[trigger] r@.contains_key(k) implies call_ensures(
                copy_value,
                (&self@[k],),
                r@[k],
            ) by {
                let i = choose|i: int| r.at(i, k);
                let j = choose|j: int| self.at(j, k);
                assert(r.at(i, k) && self.at(j, k));
                assert(self.at(i, k));
                assert(i == j);
            }
            assert(r@.dom() =~= self@.dom());
        }
        r
    }
}

} // verus!
