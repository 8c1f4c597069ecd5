//! A hash map that substitutes a default value for absent keys.

use vstd::prelude::*;

use std::collections::HashMap;

use std::collections::hash_map::RandomState;

use core::hash::BuildHasher;

use core::hash::Hash;

use vstd::std_specs::hash::obeys_key_model;

use vstd::std_specs::hash::builds_valid_hashers;

use vstd::std_specs::hash::EntrySpecFns;

use vstd::std_specs::iter::IteratorSpec;

use vstd::std_specs::cmp::PartialEqSpec;

use crate::clone_is_identity;

verus! {

/// Whether the standard hash-table model applies: the key type hashes
/// deterministically and equates only identical values, and the hasher
/// builder produces consistent hashers. All contracts of the hash-backed map
/// are meaningful under this assumption; `RandomState`, the default builder,
/// and the primitive key types satisfy it.
pub open spec fn hash_model_ok<K, S>() -> bool {
    obeys_key_model::<K>() && builds_valid_hashers::<S>()
}

/// A hash-backed associative container that behaves like a
/// `std::collections::HashMap` except that looking up an absent key yields a
/// default value instead of `None`. One default value is constructed eagerly
/// when the map is created and is kept alongside the backing table.
///
/// The view (`self@`) of a map is the mathematical `Map<K, V>` of the entries
/// stored in the backing table; the stored default is exposed through
/// [`DefaultHashMap::spec_default`].
#[derive(Clone, Debug)]
#[verifier::reject_recursive_types(S)]
pub struct DefaultHashMap<K, V, S = RandomState>
where
    K: Eq + Hash,
    V: Default,
{
    inner: HashMap<K, V, S>,
    default_value: V,
}

impl<Key, Value, Builder> View for DefaultHashMap<Key, Value, Builder>
where
    Key: Eq + Hash,
    Value: Default,
{
    type V = Map<Key, Value>;

    closed spec fn view(&self) -> Map<Key, Value> {
        self.inner@
    }
}

impl<K, V> DefaultHashMap<K, V, RandomState>
where
    K: Eq + Hash,
    V: Default,
{
    /// Creates an empty map holding a freshly constructed default value.
    pub fn new() -> (r: Self)
        ensures
            r@ == (Map::<K, V>::empty()),
            call_ensures(V::default, (), r.spec_default()),
    {
        DefaultHashMap { inner: HashMap::new(), default_value: V::default() }
    }
}

impl<K, V, S> DefaultHashMap<K, V, S>
where
    K: Eq + Hash,
    V: Default,
    S: BuildHasher,
{
    /// The default value held by the map, returned whenever an absent key is
    /// looked up.
    pub closed spec fn spec_default(&self) -> V {
        self.default_value
    }

    /// What a lookup of `key` returns: the stored value when the key is
    /// present, the stored default otherwise.
    pub open spec fn spec_get(&self, key: K) -> V {
        if self@.contains_key(key) {
            self@[key]
        } else {
            self.spec_default()
        }
    }

    /// Creates an empty map that hashes its keys with the given builder and
    /// holds a freshly constructed default value.
    pub fn with_hasher(hash_builder: S) -> (r: Self)
        ensures
            r@ == (Map::<K, V>::empty()),
            call_ensures(V::default, (), r.spec_default()),
    {
        DefaultHashMap { inner: hashmap_with_hasher(hash_builder), default_value: V::default() }
    }

    /// A lower bound on how many entries the backing table can hold without
    /// reallocating; never less than the current number of entries.
    pub fn capacity(&self) -> (r: usize)
        requires
            hash_model_ok::<K, S>(),
        ensures
            self@.len() <= r,
    {
        hashmap_capacity(&self.inner)
    }

    /// Removes every entry. The stored default is kept.
    pub fn clear(&mut self)
        ensures
            final(self)@ == (Map::<K, V>::empty()),
            final(self).spec_default() == old(self).spec_default(),
    {
        self.inner.clear()
    }

    /// True when `key` has an entry in the map.
    pub fn contains_key(&self, key: &K) -> (r: bool)
        requires
            hash_model_ok::<K, S>(),
        ensures
            r == self@.contains_key(*key),
    {
        self.inner.contains_key(key)
    }

    /// Looks `key` up without mutating the map: a reference to the stored
    /// value when the key is present, to the stored default otherwise.
    pub fn get(&self, key: &K) -> (r: &V)
        requires
            hash_model_ok::<K, S>(),
        ensures
            *r == self.spec_get(*key),
    {
        match self.inner.get(key) {
            Some(v) => v,
            None => &self.default_value,
        }
    }

    /// Looks `key` up without mutating the map and pairs the queried key with
    /// the result: the stored value when the key is present, the stored
    /// default otherwise.
    pub fn get_key_value<'a>(&'a self, key: &'a K) -> (r: (&'a K, &'a V))
        requires
            hash_model_ok::<K, S>(),
        ensures
            *r.0 == *key,
            *r.1 == self.spec_get(*key),
    {
        (key, self.get(key))
    }

    /// Inserts `value` under `key`, returning the previously stored value if
    /// the key was present.
    pub fn insert(&mut self, key: K, value: V) -> (r: Option<V>)
        requires
            hash_model_ok::<K, S>(),
        ensures
            final(self)@ == old(self)@.insert(key, value),
            final(self).spec_default() == old(self).spec_default(),
            r == if old(self)@.contains_key(key) {
                Some(old(self)@[key])
            } else {
                None::<V>
            },
    {
        self.inner.insert(key, value)
    }

    /// The number of entries stored in the map.
    pub fn len(&self) -> (r: usize)
        requires
            hash_model_ok::<K, S>(),
        ensures
            r == self@.len(),
    {
        self.inner.len()
    }

    /// True when the map stores no entries.
    pub fn is_empty(&self) -> (r: bool)
        ensures
            r == self@.is_empty(),
    {
        self.inner.is_empty()
    }

    /// Removes `key` and returns its value; an absent key leaves the map
    /// unchanged and returns a clone of the stored default.
    pub fn remove(&mut self, key: &K) -> (r: V) where V: Clone
        requires
            hash_model_ok::<K, S>(),
        ensures
            old(self)@.contains_key(*key) ==> r == old(self)@[*key] && final(self)@ == old(
                self,
            )@.remove(*key),
            old(self)@.contains_key(*key) && old(self)@.dom().finite() ==> final(self)@.len()
                == old(self)@.len() - 1,
            !old(self)@.contains_key(*key) ==> vstd::pervasive::cloned(
                old(self).spec_default(),
                r,
            ) && final(self)@ == old(self)@,
            final(self).spec_default() == old(self).spec_default(),
    {
        match self.inner.remove(key) {
            Some(v) => v,
            None => self.default_value.clone(),
        }
    }

    /// Removes `key` and returns the pair of a clone of the queried key and
    /// the removed value; an absent key leaves the map unchanged and the pair
    /// carries a clone of the stored default instead.
    pub fn remove_entry(&mut self, key: &K) -> (r: (K, V)) where K: Clone, V: Clone
        requires
            hash_model_ok::<K, S>(),
        ensures
            vstd::pervasive::cloned(*key, r.0),
            old(self)@.contains_key(*key) ==> r.1 == old(self)@[*key] && final(self)@ == old(
                self,
            )@.remove(*key),
            !old(self)@.contains_key(*key) ==> vstd::pervasive::cloned(
                old(self).spec_default(),
                r.1,
            ) && final(self)@ == old(self)@,
            final(self).spec_default() == old(self).spec_default(),
    {
        match self.inner.remove(key) {
            Some(v) => (key.clone(), v),
            None => (key.clone(), self.default_value.clone()),
        }
    }

    /// Looks `key` up for mutation. An absent key is first materialized: a
    /// clone of the stored default is inserted under a clone of the key, so
    /// that afterwards the key is present and its entry can be handed out.
    pub fn get_mut(&mut self, key: &K) -> (r: &mut V) where K: Clone, V: Clone
        requires
            hash_model_ok::<K, S>(),
            clone_is_identity::<K>(),
        ensures
            old(self)@.contains_key(*key) ==> *r == old(self)@[*key],
            !old(self)@.contains_key(*key) ==> vstd::pervasive::cloned(
                old(self).spec_default(),
                *r,
            ),
            final(self)@ == old(self)@.insert(*key, *final(r)),
            final(self)@.contains_key(*key),
            final(self).spec_default() == old(self).spec_default(),
            !old(self)@.contains_key(*key) && old(self)@.dom().finite() ==> final(self)@.len()
                == old(self)@.len() + 1,
    {
        let k = key.clone();
        proof {
            assert(vstd::pervasive::cloned(*key, k));
            assert(k == *key);
        }
        let d = self.default_value.clone();
        proof {
            assert(vstd::pervasive::cloned(self.default_value, d));
        }
        self.inner.entry(k).or_insert(d)
    }

    /// Hands out the entry of `key` for in-place manipulation, exactly as the
    /// backing table provides it: the caller decides what happens on vacancy,
    /// and no default value is substituted. The contract prophesies the state
    /// of the map once the entry has been used up.
    pub fn entry(&mut self, key: K) -> (r: std::collections::hash_map::Entry<'_, K, V>)
        requires
            hash_model_ok::<K, S>(),
        ensures
            r.spec_key() == key,
            r.value() == old(self)@.get(key),
            final(self)@ == match r.final_value() {
                Some(value) => old(self)@.insert(key, value),
                None => old(self)@.remove(key),
            },
            final(self).spec_default() == old(self).spec_default(),
    {
        self.inner.entry(key)
    }
}

impl<K, V, S> DefaultHashMap<K, V, S>
where
    K: Eq + Hash,
    V: Default,
    S: BuildHasher,
{
    /// An iterator over references to the keys, in arbitrary order. The
    /// sequence it will yield covers the key set exactly, without
    /// duplicates.
    pub fn keys(&self) -> (r: std::collections::hash_map::Keys<'_, K, V>)
        requires
            hash_model_ok::<K, S>(),
        ensures
            r.remaining().unref().to_set() == self@.dom(),
            r.remaining().no_duplicates(),
            r.remaining().len() == self@.dom().len(),
    {
        self.inner.keys()
    }

    /// An iterator over references to the values, in arbitrary order. The
    /// sequence it will yield covers the value set exactly.
    pub fn values(&self) -> (r: std::collections::hash_map::Values<'_, K, V>)
        requires
            hash_model_ok::<K, S>(),
        ensures
            r.remaining().unref().to_set() == self@.values(),
            r.remaining().len() == self@.dom().len(),
    {
        self.inner.values()
    }

    /// An iterator over references to the entries, in arbitrary order. The
    /// sequence it will yield lists exactly the stored entries.
    pub fn iter(&self) -> (r: std::collections::hash_map::Iter<'_, K, V>)
        requires
            hash_model_ok::<K, S>(),
        ensures
            r.remaining().len() == self@.dom().len(),
            forall|i: int|
                0 <= i < r.remaining().len() ==> self@.contains_key(
                    #[trigger] (*r.remaining()[i].0),
                ) && self@[*r.remaining()[i].0] == *r.remaining()[i].1,
            forall|k: K| #[trigger]
                self@.contains_key(k) ==> r.remaining().contains((&k, &self@[k])),
            r.remaining().no_duplicates(),
    {
        self.inner.iter()
    }

    /// Relies on `HashMap::values_mut`: an iterator handing out mutable
    /// references to the values, in arbitrary order. Nothing reached through
    /// it can add or remove entries, so the key set and the stored default
    /// are preserved; what the values become is up to the caller.
    #[verifier::external_body]
    pub fn values_mut(&mut self) -> (r: std::collections::hash_map::ValuesMut<'_, K, V>)
        ensures
            final(self)@.dom() == old(self)@.dom(),
            final(self).spec_default() == old(self).spec_default(),
    {
        self.inner.values_mut()
    }

    /// Relies on `HashMap::iter_mut`: an iterator over the entries handing
    /// out mutable references to the values, in arbitrary order. Nothing
    /// reached through it can add or remove entries, so the key set and the
    /// stored default are preserved.
    #[verifier::external_body]
    pub fn iter_mut(&mut self) -> (r: std::collections::hash_map::IterMut<'_, K, V>)
        ensures
            final(self)@.dom() == old(self)@.dom(),
            final(self).spec_default() == old(self).spec_default(),
    {
        self.inner.iter_mut()
    }

    /// Removes every entry and returns them all as a vector of pairs, in
    /// arbitrary order and with no key repeated. The stored default is kept.
    pub fn drain(&mut self) -> (r: Vec<(K, V)>) where K: Clone
        requires
            hash_model_ok::<K, S>(),
            clone_is_identity::<K>(),
        ensures
            final(self)@ == (Map::<K, V>::empty()),
            final(self).spec_default() == old(self).spec_default(),
            r@.len() == old(self)@.dom().len(),
            forall|i: int|
                0 <= i < r@.len() ==> old(self)@.contains_key(#[trigger] r@[i].0) && r@[i].1
                    == old(self)@[r@[i].0],
            forall|k: K| #[trigger]
                old(self)@.contains_key(k) ==> exists|i: int|
                    0 <= i < r@.len() && (#[trigger] r@[i].0) == k,
            forall|i: int, j: int| 0 <= i < j < r@.len() ==> r@[i].0 != r@[j].0,
    {
        let ghost orig = self@;
        let ks = hashmap_keys_vec(&self.inner);
        let ghost ks_view = ks@;
        let mut ks = ks;
        let mut r: Vec<(K, V)> = Vec::new();
        while ks.len() > 0
            invariant
                hash_model_ok::<K, S>(),
                ks@ == ks_view.skip(ks_view.len() - ks@.len()),
                ks_view.len() >= ks@.len(),
                ks_view.len() == orig.dom().len(),
                forall|i: int| 0 <= i < ks_view.len() ==> orig.contains_key(#[trigger] ks_view[i]),
                forall|k: K| #[trigger]
                    orig.contains_key(k) ==> exists|i: int|
                        0 <= i < ks_view.len() && (#[trigger] ks_view[i]) == k,
                forall|i: int, j: int| 0 <= i < j < ks_view.len() ==> ks_view[i] != ks_view[j],
                r@.len() == ks_view.len() - ks@.len(),
                forall|i: int| 0 <= i < r@.len() ==> (#[trigger] r@[i].0) == ks_view[i] && r@[i].1
                    == orig[ks_view[i]],
                forall|k: K| #[trigger]
                    self.inner@.contains_key(k) <==> orig.contains_key(k) && !ks_view.take(
                        ks_view.len() - ks@.len(),
                    ).contains(k),
                forall|k: K| #[trigger]
                    self.inner@.contains_key(k) ==> self.inner@[k] == orig[k],
                self.default_value == old(self).spec_default(),
            decreases ks@.len(),
        {
            let ghost n = ks_view.len() - ks@.len();
            let k = ks.remove(0);
            proof {
                assert(k == ks_view[n as int]);
                assert(ks@ =~= ks_view.skip(n + 1));
                assert(!ks_view.take(n as int).contains(k));
                assert(self.inner@.contains_key(k));
            }
            let ghost inner0 = self.inner@;
            match self.inner.remove(&k) {
                Some(v) => {
                    r.push((k, v));
                },
                None => {
                    proof {
                        assert(false);
                    }
                },
            }
            proof {
                assert(self.inner@ == inner0.remove(ks_view[n as int]));
                assert forall|k2: K|
                    ks_view.take(n + 1).contains(k2) <==> (ks_view.take(n as int).contains(k2)
                        || k2 == ks_view[n as int]) by {
                    if ks_view.take(n + 1).contains(k2) {
                        let j = choose|j: int|
                            0 <= j < n + 1 && (#[trigger] ks_view.take(n + 1)[j]) == k2;
                        if j < n {
                            assert(ks_view.take(n as int)[j] == k2);
                        }
                    }
                    if ks_view.take(n as int).contains(k2) {
                        let j = choose|j: int|
                            0 <= j < n && (#[trigger] ks_view.take(n as int)[j]) == k2;
                        assert(ks_view.take(n + 1)[j] == k2);
                    }
                    if k2 == ks_view[n as int] {
                        assert(ks_view.take(n + 1)[n as int] == k2);
                    }
                }
                assert forall|k2: K| #[trigger]
                    self.inner@.contains_key(k2) <==> orig.contains_key(k2) && !ks_view.take(
                        n + 1,
                    ).contains(k2) by {
                    assert(inner0.contains_key(k2) <==> orig.contains_key(k2)
                        && !ks_view.take(n as int).contains(k2));
                }
            }
        }
        proof {
            assert forall|k: K| !(#[trigger] self.inner@.contains_key(k)) by {
                if orig.contains_key(k) {
                    let i = choose|i: int|
                        0 <= i < ks_view.len() && (#[trigger] ks_view[i]) == k;
                    assert(ks_view.take(ks_view.len() as int) =~= ks_view);
                    assert(ks_view.take(ks_view.len() as int).contains(k));
                }
            }
            assert(self.inner@ =~= Map::<K, V>::empty());
            assert forall|k: K| orig.contains_key(k) implies exists|i: int|
                0 <= i < r@.len() && (#[trigger] r@[i].0) == k by {
                let i = choose|i: int| 0 <= i < ks_view.len() && (#[trigger] ks_view[i]) == k;
                assert(r@[i].0 == k);
            }
        }
        r
    }

    /// Keeps exactly the entries on which the predicate returns true; the
    /// others are removed. The entries are visited with a shared reference to
    /// the key and to the value, in arbitrary order.
    pub fn retain<F: Fn(&K, &V) -> bool>(&mut self, func: F) where K: Clone
        requires
            hash_model_ok::<K, S>(),
            clone_is_identity::<K>(),
            forall|k: K|
                old(self)@.contains_key(k) ==> call_requires(func, (&k, &old(self)@[k])),
        ensures
            forall|k: K| #[trigger]
                final(self)@.contains_key(k) ==> old(self)@.contains_key(k) && final(self)@[k]
                    == old(self)@[k],
            forall|k: K| #[trigger]
                old(self)@.contains_key(k) && final(self)@.contains_key(k) ==> call_ensures(
                    func,
                    (&k, &old(self)@[k]),
                    true,
                ),
            forall|k: K| #[trigger]
                old(self)@.contains_key(k) && !final(self)@.contains_key(k) ==> call_ensures(
                    func,
                    (&k, &old(self)@[k]),
                    false,
                ),
            final(self).spec_default() == old(self).spec_default(),
    {
        let ghost orig = self@;
        let mut pairs = self.drain();
        let ghost pairs_view = pairs@;
        while pairs.len() > 0
            invariant
                hash_model_ok::<K, S>(),
                forall|k: K| orig.contains_key(k) ==> call_requires(func, (&k, &orig[k])),
                pairs@ == pairs_view.skip(pairs_view.len() - pairs@.len()),
                pairs_view.len() >= pairs@.len(),
                forall|i: int|
                    0 <= i < pairs_view.len() ==> orig.contains_key(#[trigger] pairs_view[i].0)
                        && pairs_view[i].1 == orig[pairs_view[i].0],
                forall|k: K| #[trigger]
                    orig.contains_key(k) ==> exists|i: int|
                        0 <= i < pairs_view.len() && (#[trigger] pairs_view[i].0) == k,
                forall|k: K| #[trigger]
                    self.inner@.contains_key(k) ==> orig.contains_key(k) && self.inner@[k]
                        == orig[k] && call_ensures(func, (&k, &orig[k]), true),
                forall|i: int|
                    0 <= i < pairs_view.len() - pairs@.len() ==> self.inner@.contains_key(
                        #[trigger] pairs_view[i].0,
                    ) || call_ensures(func, (&pairs_view[i].0, &orig[pairs_view[i].0]), false),
                self.default_value == old(self).spec_default(),
            decreases pairs@.len(),
        {
            let ghost n = pairs_view.len() - pairs@.len();
            let p = pairs.remove(0);
            proof {
                assert(p == pairs_view[n as int]);
                assert(pairs@ =~= pairs_view.skip(n + 1));
            }
            let (k, v) = p;
            if func(&k, &v) {
                let _ = self.inner.insert(k, v);
            }
        }
        proof {
            assert forall|k: K|
                orig.contains_key(k) && !self.inner@.contains_key(k) implies call_ensures(
                func,
                (&k, &orig[k]),
                false,
            ) by {
                let i = choose|i: int|
                    0 <= i < pairs_view.len() && (#[trigger] pairs_view[i].0) == k;
                assert(self.inner@.contains_key(pairs_view[i].0) || call_ensures(
                    func,
                    (&pairs_view[i].0, &orig[pairs_view[i].0]),
                    false,
                ));
            }
        }
    }

    /// Consumes the map and returns its keys as a vector, in arbitrary order
    /// and with no key repeated. The values and the stored default are
    /// discarded.
    pub fn into_keys(self) -> (r: Vec<K>) where K: Clone
        requires
            hash_model_ok::<K, S>(),
            clone_is_identity::<K>(),
        ensures
            r@.len() == self@.dom().len(),
            forall|i: int| 0 <= i < r@.len() ==> self@.contains_key(#[trigger] r@[i]),
            forall|k: K| #[trigger]
                self@.contains_key(k) ==> exists|i: int|
                    0 <= i < r@.len() && (#[trigger] r@[i]) == k,
            forall|i: int, j: int| 0 <= i < j < r@.len() ==> r@[i] != r@[j],
    {
        hashmap_keys_vec(&self.inner)
    }

    /// Consumes the map and returns its values as a vector, in arbitrary
    /// order: one element for each stored entry. The keys and the stored
    /// default are discarded.
    pub fn into_values(self) -> (r: Vec<V>) where K: Clone
        requires
            hash_model_ok::<K, S>(),
            clone_is_identity::<K>(),
        ensures
            r@.len() == self@.dom().len(),
            exists|ks: Seq<K>|
                #![auto]
                ks.len() == r@.len() && (forall|i: int|
                    0 <= i < ks.len() ==> self@.contains_key(ks[i]) && r@[i] == self@[ks[i]]) && (
                forall|k: K| self@.contains_key(k) ==> ks.contains(k)) && (forall|i: int, j: int|
                    0 <= i < j < ks.len() ==> ks[i] != ks[j]),
    {
        let mut m = self;
        let ghost orig = m@;
        let pairs = m.drain();
        let ghost pairs_view = pairs@;
        let ghost ks = pairs_view.map_values(|p: (K, V)| p.0);
        let mut pairs = pairs;
        let mut r: Vec<V> = Vec::new();
        while pairs.len() > 0
            invariant
                r@.len() + pairs@.len() == pairs_view.len(),
                pairs@ == pairs_view.skip(r@.len() as int),
                forall|i: int| 0 <= i < r@.len() ==> (#[trigger] r@[i]) == pairs_view[i].1,
            decreases pairs@.len(),
        {
            let ghost n = r@.len() as int;
            let p = pairs.remove(0);
            r.push(p.1);
            proof {
                assert(pairs@ =~= pairs_view.skip(n + 1));
            }
        }
        proof {
            assert(ks.len() == r@.len());
            assert forall|k: K| orig.contains_key(k) implies ks.contains(k) by {
                let i = choose|i: int|
                    0 <= i < pairs_view.len() && (#[trigger] pairs_view[i].0) == k;
                assert(ks[i] == k);
            }
            assert(ks.len() == r@.len() && (forall|i: int|
                0 <= i < ks.len() ==> orig.contains_key(ks[i]) && r@[i] == orig[ks[i]]) && (
            forall|k: K| orig.contains_key(k) ==> ks.contains(k)) && (forall|i: int, j: int|
                0 <= i < j < ks.len() ==> ks[i] != ks[j]));
        }
        r
    }

    /// Consumes the map and hands back an owning iterator that yields each
    /// stored entry exactly once, in arbitrary order, by repeatedly removing
    /// one of the remaining keys.
    pub fn into_iter(self) -> (r: DefaultHashMapIter<K, V, S>) where K: Clone + Ord, V: Clone
        requires
            hash_model_ok::<K, S>(),
            clone_is_identity::<K>(),
        ensures
            r.remaining_entries() == self@,
            r.remaining_keys().len() == self@.dom().len(),
            r.wf(),
    {
        let keys = hashmap_keys_vec(&self.inner);
        DefaultHashMapIter { inner: self, keys }
    }
}

/// An owning iterator over a [`DefaultHashMap`]: it holds the map together
/// with the list of its keys and drains one entry for each key handed out,
/// in arbitrary order. It is finite and cannot be restarted.
#[verifier::reject_recursive_types(S)]
pub struct DefaultHashMapIter<K, V, S>
where
    K: Eq + Hash + Ord,
    V: Default,
    S: BuildHasher,
{
    inner: DefaultHashMap<K, V, S>,
    keys: Vec<K>,
}

impl<K, V, S> DefaultHashMapIter<K, V, S>
where
    K: Eq + Hash + Ord,
    V: Default,
    S: BuildHasher,
{
    /// The entries that the iterator has not yet handed out.
    pub closed spec fn remaining_entries(&self) -> Map<K, V> {
        self.inner@
    }

    /// The keys that the iterator has not yet handed out, in reverse order
    /// of delivery.
    pub closed spec fn remaining_keys(&self) -> Seq<K> {
        self.keys@
    }

    /// The iterator is well formed: the hash-table model applies, and the
    /// key list matches the keys of the remaining entries exactly, without
    /// repetition.
    pub closed spec fn wf(&self) -> bool {
        &&& hash_model_ok::<K, S>()
        &&& forall|i: int|
            0 <= i < self.keys@.len() ==> self.inner@.contains_key(#[trigger] self.keys@[i])
        &&& forall|i: int, j: int| 0 <= i < j < self.keys@.len() ==> self.keys@[i] != self.keys@[j]
        &&& forall|k: K| #[trigger] self.inner@.contains_key(k) ==> self.keys@.contains(k)
    }

    /// Hands out the next entry: the last key of the key list together with
    /// the value stored under it, both removed from the iterator; `None`
    /// once every entry has been handed out.
    pub fn next(&mut self) -> (r: Option<(K, V)>) where V: Clone
        requires
            old(self).wf(),
        ensures
            final(self).wf(),
            old(self).remaining_keys().len() == 0 ==> r is None && final(self).remaining_entries()
                == old(self).remaining_entries() && final(self).remaining_keys() == old(
                self,
            ).remaining_keys(),
            old(self).remaining_keys().len() > 0 ==> ({
                let k = old(self).remaining_keys().last();
                &&& r == Some((k, old(self).remaining_entries()[k]))
                &&& final(self).remaining_keys() == old(self).remaining_keys().drop_last()
                &&& final(self).remaining_entries() == old(self).remaining_entries().remove(k)
            }),
    {
        match self.keys.pop() {
            Some(key) => {
                proof {
                    assert(self.inner@.contains_key(key));
                    assert forall|k2: K| #[trigger]
                        self.inner@.remove(key).contains_key(k2) implies self.keys@.contains(
                        k2,
                    ) by {
                        let i = choose|i: int|
                            0 <= i < old(self).keys@.len() && (#[trigger] old(self).keys@[i])
                                == k2;
                        assert(i < self.keys@.len());
                        assert(self.keys@[i] == k2);
                    }
                }
                let val = self.inner.remove(&key);
                Some((key, val))
            },
            None => {
                proof {
                    assert forall|k2: K| !(#[trigger] self.inner@.contains_key(k2)) by {
                        if self.inner@.contains_key(k2) {
                            assert(self.keys@.contains(k2));
                        }
                    }
                }
                None
            },
        }
    }
}

/// Clones the keys of a backing table into a vector: one element for each
/// stored key, in arbitrary order and with no key repeated.
fn hashmap_keys_vec<K, V, S>(m: &HashMap<K, V, S>) -> (r: Vec<K>) where
    K: Eq + Hash + Clone,
    S: BuildHasher,

    requires
        hash_model_ok::<K, S>(),
        clone_is_identity::<K>(),
    ensures
        r@.len() == m@.dom().len(),
        forall|i: int| 0 <= i < r@.len() ==> m@.contains_key(#[trigger] r@[i]),
        forall|k: K| #[trigger]
            m@.contains_key(k) ==> exists|i: int| 0 <= i < r@.len() && (#[trigger] r@[i]) == k,
        forall|i: int, j: int| 0 <= i < j < r@.len() ==> r@[i] != r@[j],
{
    let mut ks: Vec<K> = Vec::new();
    for k in it: m.keys()
        invariant
            clone_is_identity::<K>(),
            it.seq() == m.keys().remaining(),
            ks@.len() == it.index(),
            forall|j: int| 0 <= j < ks@.len() ==> (#[trigger] ks@[j]) == *it.seq()[j],
    {
        let kk = (*k).clone();
        proof {
            assert(vstd::pervasive::cloned(*k, kk));
        }
        ks.push(kk);
    }
    proof {
        let key_seq = m.keys().remaining();
        assert(ks@.len() == key_seq.len());
        assert forall|i: int| 0 <= i < ks@.len() implies m@.contains_key(#[trigger] ks@[i]) by {
            assert(ks@[i] == key_seq.unref()[i]);
            assert(key_seq.unref().to_set().contains(key_seq.unref()[i]));
        }
        assert forall|k2: K| m@.contains_key(k2) implies exists|i: int|
            0 <= i < ks@.len() && (#[trigger] ks@[i]) == k2 by {
            assert(key_seq.unref().to_set().contains(k2));
            let i = choose|i: int|
                0 <= i < key_seq.unref().len() && (#[trigger] key_seq.unref()[i]) == k2;
            assert(ks@[i] == k2);
        }
        assert forall|i: int, j: int| 0 <= i < j < ks@.len() implies ks@[i] != ks@[j] by {
            assert(key_seq[i] != key_seq[j]);
        }
    }
    ks
}

/// Specification marker for the standard library's mutable value iterator
/// over a `HashMap`; the type is opaque to the verifier.
#[verifier::external_type_specification]
#[verifier::external_body]
#[verifier::reject_recursive_types(K)]
#[verifier::reject_recursive_types(V)]
pub struct ExValuesMut<'a, K: 'a, V: 'a>(std::collections::hash_map::ValuesMut<'a, K, V>);

/// Specification marker for the standard library's mutable entry iterator
/// over a `HashMap`; the type is opaque to the verifier.
#[verifier::external_type_specification]
#[verifier::external_body]
#[verifier::reject_recursive_types(K)]
#[verifier::reject_recursive_types(V)]
pub struct ExIterMut<'a, K: 'a, V: 'a>(std::collections::hash_map::IterMut<'a, K, V>);

/// Relies on the `PartialEq` implementation of `HashMap`: whether the two
/// tables hold equal entries. Its result is pinned down only where the
/// component types' equality obeys the standard specification.
#[verifier::external_body]
fn hashmap_eq<K, V, S>(a: &HashMap<K, V, S>, b: &HashMap<K, V, S>) -> (r: bool) where
    K: Eq + Hash,
    V: PartialEq,
    S: BuildHasher,

    ensures
        (<HashMap<K, V, S> as PartialEqSpec>::obeys_eq_spec()) ==> r == a.eq_spec(b),
{
    a == b
}

/// Relies on `HashMap::with_hasher`: creates an empty map that will hash its
/// keys with the given builder.
#[verifier::external_body]
fn hashmap_with_hasher<K, V, S>(hash_builder: S) -> (r: HashMap<K, V, S>)
    ensures
        r@ == (Map::<K, V>::empty()),
{
    HashMap::with_hasher(hash_builder)
}

/// Relies on `HashMap::capacity`: the number of entries the table can hold
/// without reallocating, which is at least the number it holds now.
#[verifier::external_body]
fn hashmap_capacity<K, V, S>(m: &HashMap<K, V, S>) -> (r: usize)
    ensures
        m@.len() <= r,
{
    m.capacity()
}

impl<K, V, S> DefaultHashMap<K, V, S>
where
    K: Eq + Hash,
    V: Default,
    S: BuildHasher,
{
    /// Wraps an existing backing table, pairing it with a freshly
    /// constructed default value. The entries are taken over unchanged.
    pub fn from(table: HashMap<K, V, S>) -> (r: Self)
        ensures
            r@ == table@,
            call_ensures(V::default, (), r.spec_default()),
    {
        DefaultHashMap { inner: table, default_value: V::default() }
    }

    /// Consumes the map and hands back the backing table with its entries
    /// unchanged; the stored default is discarded.
    pub fn into_inner(self) -> (r: HashMap<K, V, S>)
        ensures
            r@ == self@,
    {
        self.inner
    }
}

impl<K, V> Default for DefaultHashMap<K, V, RandomState>
where
    K: Eq + Hash,
    V: Default,
{
    /// An empty map, exactly as [`DefaultHashMap::new`] builds it.
    fn default() -> (r: Self)
        ensures
            r@ == (Map::<K, V>::empty()),
            call_ensures(V::default, (), r.spec_default()),
    {
        DefaultHashMap::new()
    }
}

impl<K, V, S> PartialEq for DefaultHashMap<K, V, S>
where
    K: Eq + Hash,
    V: Default + PartialEq,
    S: BuildHasher,
{
    /// Two maps are equal when their backing tables hold equal entries and
    /// their stored defaults are equal, as the component types define
    /// equality.
    fn eq(&self, other: &Self) -> (r: bool) {
        hashmap_eq(&self.inner, &other.inner) && self.default_value == other.default_value
    }
}

impl<K, V, S> vstd::std_specs::cmp::PartialEqSpecImpl for DefaultHashMap<K, V, S>
where
    K: Eq + Hash,
    V: Default + PartialEq,
    S: BuildHasher,
{
    open spec fn obeys_eq_spec() -> bool {
        <HashMap<K, V, S> as vstd::std_specs::cmp::PartialEqSpec>::obeys_eq_spec()
            && V::obeys_eq_spec()
    }

    closed spec fn eq_spec(&self, other: &Self) -> bool {
        self.inner.eq_spec(&other.inner) && self.default_value.eq_spec(&other.default_value)
    }
}

impl<K, V, S> core::ops::Index<&K> for DefaultHashMap<K, V, S>
where
    K: Eq + Hash,
    V: Default,
    S: BuildHasher,
{
    type Output = V;

    /// Indexing reads like [`DefaultHashMap::get`]: an absent key yields the
    /// stored default rather than a panic.
    fn index(&self, key: &K) -> (r: &V)
        ensures
            *r == self.spec_get(*key),
    {
        self.get(key)
    }
}

impl<K, V, S> vstd::std_specs::core::IndexSpecImpl<&K> for DefaultHashMap<K, V, S>
where
    K: Eq + Hash,
    V: Default,
    S: BuildHasher,
{
    open spec fn index_req(&self, key: &&K) -> bool {
        hash_model_ok::<K, S>()
    }
}

impl<K, V, S> DefaultHashMap<K, V, S>
where
    K: Eq + Hash,
    V: Default,
    S: BuildHasher,
{
    /// Builds a map from explicit key/value pairs, as the bracketed
    /// pair-list construction does: the pairs are inserted from the front,
    /// so a repeated key keeps its last value.
    pub fn from_pairs(pairs: Vec<(K, V)>) -> (r: Self) where S: Default
        requires
            hash_model_ok::<K, S>(),
        ensures
            r@ == crate::map_of_pairs(pairs@),
            call_ensures(V::default, (), r.spec_default()),
    {
        let ghost pairs_view = pairs@;
        let mut pairs = pairs;
        let mut r = DefaultHashMap { inner: HashMap::default(), default_value: V::default() };
        while pairs.len() > 0
            invariant
                hash_model_ok::<K, S>(),
                pairs@ == pairs_view.skip(pairs_view.len() - pairs@.len()),
                pairs_view.len() >= pairs@.len(),
                r@ == crate::map_of_pairs(pairs_view.take(pairs_view.len() - pairs@.len())),
                call_ensures(V::default, (), r.spec_default()),
            decreases pairs@.len(),
        {
            let ghost n = pairs_view.len() - pairs@.len();
            let p = pairs.remove(0);
            proof {
                assert(p == pairs_view[n as int]);
                assert(pairs@ =~= pairs_view.skip(n + 1));
            }
            let (k, v) = p;
            let _ = r.insert(k, v);
            proof {
                assert(pairs_view.take(n + 1).drop_last() =~= pairs_view.take(n as int));
            }
        }
        proof {
            assert(pairs_view.take(pairs_view.len() as int) =~= pairs_view);
        }
        r
    }

    /// Builds a map from bare keys, as the bracketed key-list construction
    /// does: every listed key is materialized with a clone of the stored
    /// default.
    pub fn from_keys(keys: Vec<K>) -> (r: Self) where K: Clone, V: Clone, S: Default
        requires
            hash_model_ok::<K, S>(),
            clone_is_identity::<K>(),
        ensures
            forall|k: K| #[trigger] r@.contains_key(k) <==> keys@.contains(k),
            forall|k: K| #[trigger]
                r@.contains_key(k) ==> vstd::pervasive::cloned(r.spec_default(), r@[k]),
            call_ensures(V::default, (), r.spec_default()),
    {
        let ghost keys_view = keys@;
        let mut keys = keys;
        let mut r = DefaultHashMap { inner: HashMap::default(), default_value: V::default() };
        while keys.len() > 0
            invariant
                hash_model_ok::<K, S>(),
                clone_is_identity::<K>(),
                keys@ == keys_view.skip(keys_view.len() - keys@.len()),
                keys_view.len() >= keys@.len(),
                forall|k: K| #[trigger]
                    r@.contains_key(k) <==> keys_view.take(
                        keys_view.len() - keys@.len(),
                    ).contains(k),
                forall|k: K| #[trigger]
                    r@.contains_key(k) ==> vstd::pervasive::cloned(r.spec_default(), r@[k]),
                call_ensures(V::default, (), r.spec_default()),
            decreases keys@.len(),
        {
            let ghost n = keys_view.len() - keys@.len();
            let k = keys.remove(0);
            proof {
                assert(k == keys_view[n as int]);
                assert(keys@ =~= keys_view.skip(n + 1));
            }
            let _ = r.get_mut(&k);
            proof {
                assert forall|k2: K|
                    keys_view.take(n + 1).contains(k2) <==> (keys_view.take(n as int).contains(k2)
                        || k2 == keys_view[n as int]) by {
                    if keys_view.take(n + 1).contains(k2) {
                        let j = choose|j: int|
                            0 <= j < n + 1 && (#[trigger] keys_view.take(n + 1)[j]) == k2;
                        if j < n {
                            assert(keys_view.take(n as int)[j] == k2);
                        }
                    }
                    if keys_view.take(n as int).contains(k2) {
                        let j = choose|j: int|
                            0 <= j < n && (#[trigger] keys_view.take(n as int)[j]) == k2;
                        assert(keys_view.take(n + 1)[j] == k2);
                    }
                    if k2 == keys_view[n as int] {
                        assert(keys_view.take(n + 1)[n as int] == k2);
                    }
                }
            }
        }
        proof {
            assert(keys_view.take(keys_view.len() as int) =~= keys_view);
        }
        r
    }
}

/// A read of an absent key always yields the stored default: `spec_get`,
/// which [`DefaultHashMap::get`] returns and which leaves the map untouched,
/// equals `spec_default` on every key without an entry. Since the result is
/// a function of the map alone, any number of repeated reads of the same
/// absent key agree, and none of them changes the number of entries.
pub proof fn lemma_hashmap_absent_get_is_default<K, V, S>(
    m: DefaultHashMap<K, V, S>,
    k: K,
) where K: Eq + Hash, V: Default, S: BuildHasher
    requires
        !m@.contains_key(k),
    ensures
        m.spec_get(k) == m.spec_default(),
{
}

} // verus!
