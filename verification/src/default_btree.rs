//! An ordered map that substitutes a default value for absent keys.

use vstd::prelude::*;

use std::collections::BTreeMap;

use vstd::laws_cmp::obeys_cmp;

use vstd::std_specs::cmp::OrdSpec;

use vstd::std_specs::iter::IteratorSpec;

use crate::clone_is_identity;

verus! {

/// An ordered associative container that behaves like a
/// `std::collections::BTreeMap` except that looking up an absent key yields a
/// default value instead of `None`. One default value is constructed eagerly
/// when the map is created and is kept alongside the backing tree.
///
/// The view (`self@`) of a map is the mathematical `Map<K, V>` of the entries
/// stored in the backing tree; the stored default is exposed through
/// [`DefaultBTreeMap::spec_default`]. The contracts below are meaningful for
/// key types whose `Ord` implementation is a lawful total order, which the
/// `requires obeys_cmp::<K>()` clauses record.
#[derive(Clone, Debug, PartialEq, Eq)]
pub struct DefaultBTreeMap<K, V>
where
    K: Eq + Ord,
    V: Default,
{
    inner: BTreeMap<K, V>,
    default_value: V,
}

impl<Key, Value> View for DefaultBTreeMap<Key, Value>
where
    Key: Eq + Ord,
    Value: Default,
{
    type V = Map<Key, Value>;

    closed spec fn view(&self) -> Map<Key, Value> {
        self.inner@
    }
}

impl<K, V> DefaultBTreeMap<K, V>
where
    K: Eq + Ord,
    V: Default,
{
    /// The default value held by the map, returned whenever an absent key is
    /// looked up.
    pub closed spec fn spec_default(&self) -> V {
        self.default_value
    }

    /// What a lookup of `key` returns: the stored value when the key is
    /// present, the stored default otherwise.
    pub open spec fn spec_get(&self, key: K) -> V {
        if self@.contains_key(key) {
            self@[key]
        } else {
            self.spec_default()
        }
    }

    /// Creates an empty map holding a freshly constructed default value.
    pub fn new() -> (r: Self)
        ensures
            r@ == (Map::<K, V>::empty()),
            call_ensures(V::default, (), r.spec_default()),
    {
        DefaultBTreeMap { inner: BTreeMap::new(), default_value: V::default() }
    }

    /// The number of entries stored in the map.
    pub fn len(&self) -> (r: usize)
        requires
            obeys_cmp::<K>(),
        ensures
            r == self@.len(),
    {
        self.inner.len()
    }

    /// True when the map stores no entries.
    pub fn is_empty(&self) -> (r: bool)
        ensures
            r == self@.is_empty(),
    {
        self.inner.is_empty()
    }

    /// True when `key` has an entry in the map.
    pub fn contains_key(&self, key: &K) -> (r: bool)
        requires
            obeys_cmp::<K>(),
        ensures
            r == self@.contains_key(*key),
    {
        self.inner.contains_key(key)
    }

    /// Looks `key` up without mutating the map: a reference to the stored
    /// value when the key is present, to the stored default otherwise.
    pub fn get(&self, key: &K) -> (r: &V)
        requires
            obeys_cmp::<K>(),
        ensures
            *r == self.spec_get(*key),
    {
        match self.inner.get(key) {
            Some(v) => v,
            None => &self.default_value,
        }
    }

    /// Inserts `value` under `key`, returning the previously stored value if
    /// the key was present.
    pub fn insert(&mut self, key: K, value: V) -> (r: Option<V>)
        requires
            obeys_cmp::<K>(),
        ensures
            final(self)@ == old(self)@.insert(key, value),
            final(self).spec_default() == old(self).spec_default(),
            r == if old(self)@.contains_key(key) {
                Some(old(self)@[key])
            } else {
                None::<V>
            },
    {
        self.inner.insert(key, value)
    }

    /// Looks `key` up for mutation. An absent key is first materialized: a
    /// clone of the stored default is inserted under a clone of the key, so
    /// that afterwards the key is present and its entry can be handed out.
    pub fn get_mut(&mut self, key: &K) -> (r: &mut V) where K: Clone, V: Clone
        requires
            obeys_cmp::<K>(),
            clone_is_identity::<K>(),
        ensures
            old(self)@.contains_key(*key) ==> *r == old(self)@[*key],
            !old(self)@.contains_key(*key) ==> vstd::pervasive::cloned(
                old(self).spec_default(),
                *r,
            ),
            final(self)@ == old(self)@.insert(*key, *final(r)),
            final(self)@.contains_key(*key),
            final(self).spec_default() == old(self).spec_default(),
            !old(self)@.contains_key(*key) ==> final(self)@.len() == old(self)@.len() + 1,
    {
        if !self.inner.contains_key(key) {
            let d = self.default_value.clone();
            let k = key.clone();
            proof {
                assert(vstd::pervasive::cloned(*key, k));
                assert(k == *key);
                assert(vstd::pervasive::cloned(self.default_value, d));
            }
            let _ = self.inner.insert(k, d);
        }
        btree_get_mut(&mut self.inner, key)
    }

    /// Removes every entry. The stored default is kept.
    pub fn clear(&mut self)
        ensures
            final(self)@ == (Map::<K, V>::empty()),
            final(self).spec_default() == old(self).spec_default(),
    {
        self.inner.clear()
    }

    /// Removes `key` and returns its value; an absent key leaves the map
    /// unchanged and returns a clone of the stored default.
    pub fn remove(&mut self, key: &K) -> (r: V) where V: Clone
        requires
            obeys_cmp::<K>(),
        ensures
            old(self)@.contains_key(*key) ==> r == old(self)@[*key] && final(self)@ == old(self)@.remove(*key) && final(self)@.len() == old(self)@.len() - 1,
            !old(self)@.contains_key(*key) ==> vstd::pervasive::cloned(
                old(self).spec_default(),
                r,
            ) && final(self)@ == old(self)@,
            final(self).spec_default() == old(self).spec_default(),
    {
        match self.inner.remove(key) {
            Some(v) => v,
            None => self.default_value.clone(),
        }
    }

    /// Removes `key` and returns the pair of a clone of the queried key and
    /// the removed value; an absent key leaves the map unchanged and the pair
    /// carries a clone of the stored default instead.
    pub fn remove_entry(&mut self, key: &K) -> (r: (K, V)) where K: Clone, V: Clone
        requires
            obeys_cmp::<K>(),
        ensures
            vstd::pervasive::cloned(*key, r.0),
            old(self)@.contains_key(*key) ==> r.1 == old(self)@[*key] && final(self)@ == old(self)@.remove(*key),
            !old(self)@.contains_key(*key) ==> vstd::pervasive::cloned(
                old(self).spec_default(),
                r.1,
            ) && final(self)@ == old(self)@,
            final(self).spec_default() == old(self).spec_default(),
    {
        match self.inner.remove(key) {
            Some(v) => (key.clone(), v),
            None => (key.clone(), self.default_value.clone()),
        }
    }

    /// Looks `key` up without mutating the map and pairs the queried key with
    /// the result: the stored value when the key is present, the stored
    /// default otherwise.
    pub fn get_key_value<'a>(&'a self, key: &'a K) -> (r: (&'a K, &'a V))
        requires
            obeys_cmp::<K>(),
        ensures
            *r.0 == *key,
            *r.1 == self.spec_get(*key),
    {
        (key, self.get(key))
    }

    /// Moves every entry of `other` into `self`, leaving `other` empty. A key
    /// present in both maps keeps the value from `other`.
    pub fn append(&mut self, other: &mut DefaultBTreeMap<K, V>)
        requires
            obeys_cmp::<K>(),
        ensures
            final(self)@ == old(self)@.union_prefer_right(old(other)@),
            final(other)@ == (Map::<K, V>::empty()),
            final(self).spec_default() == old(self).spec_default(),
            final(other).spec_default() == old(other).spec_default(),
    {
        btree_append(&mut self.inner, &mut other.inner)
    }

    /// Removes and returns the entry with the minimum key, or `None` when the
    /// map is empty.
    pub fn pop_first(&mut self) -> (r: Option<(K, V)>)
        requires
            obeys_cmp::<K>(),
        ensures
            match r {
                Some(kv) => old(self)@.contains_key(kv.0) && kv.1 == old(self)@[kv.0] && final(self)@ == old(self)@.remove(kv.0) && forall|k2: K|
                    old(self)@.contains_key(k2) && k2 != kv.0 ==> (#[trigger] kv.0.cmp_spec(&k2))
                        == core::cmp::Ordering::Less,
                None => old(self)@ == (Map::<K, V>::empty()) && final(self)@ == old(self)@,
            },
            final(self).spec_default() == old(self).spec_default(),
    {
        btree_pop_first(&mut self.inner)
    }

    /// Removes and returns the entry with the maximum key, or `None` when the
    /// map is empty.
    pub fn pop_last(&mut self) -> (r: Option<(K, V)>)
        requires
            obeys_cmp::<K>(),
        ensures
            match r {
                Some(kv) => old(self)@.contains_key(kv.0) && kv.1 == old(self)@[kv.0] && final(self)@ == old(self)@.remove(kv.0) && forall|k2: K|
                    old(self)@.contains_key(k2) && k2 != kv.0 ==> (#[trigger] kv.0.cmp_spec(&k2))
                        == core::cmp::Ordering::Greater,
                None => old(self)@ == (Map::<K, V>::empty()) && final(self)@ == old(self)@,
            },
            final(self).spec_default() == old(self).spec_default(),
    {
        btree_pop_last(&mut self.inner)
    }

    /// The entry with the minimum key, or `None` when the map is empty. The
    /// map is not changed.
    pub fn first_key_value(&self) -> (r: Option<(&K, &V)>)
        requires
            obeys_cmp::<K>(),
        ensures
            match r {
                Some(kv) => self@.contains_key(*kv.0) && *kv.1 == self@[*kv.0] && forall|k2: K|
                    self@.contains_key(k2) && k2 != *kv.0 ==> (#[trigger] kv.0.cmp_spec(&k2))
                        == core::cmp::Ordering::Less,
                None => self@ == (Map::<K, V>::empty()),
            },
    {
        btree_first_key_value(&self.inner)
    }

    /// The entry with the maximum key, or `None` when the map is empty. The
    /// map is not changed.
    pub fn last_key_value(&self) -> (r: Option<(&K, &V)>)
        requires
            obeys_cmp::<K>(),
        ensures
            match r {
                Some(kv) => self@.contains_key(*kv.0) && *kv.1 == self@[*kv.0] && forall|k2: K|
                    self@.contains_key(k2) && k2 != *kv.0 ==> (#[trigger] kv.0.cmp_spec(&k2))
                        == core::cmp::Ordering::Greater,
                None => self@ == (Map::<K, V>::empty()),
            },
    {
        btree_last_key_value(&self.inner)
    }

    /// Consumes the map and returns its entries as a vector, in ascending
    /// key order. The stored default is discarded.
    pub fn into_iter(self) -> (r: Vec<(K, V)>)
        requires
            obeys_cmp::<K>(),
        ensures
            r@.len() == self@.len(),
            forall|i: int|
                0 <= i < r@.len() ==> self@.contains_key(#[trigger] r@[i].0) && r@[i].1
                    == self@[r@[i].0],
            forall|k: K| #[trigger]
                self@.contains_key(k) ==> exists|i: int|
                    0 <= i < r@.len() && (#[trigger] r@[i].0) == k,
            forall|i: int, j: int|
                0 <= i < j < r@.len() ==> (#[trigger] r@[i].0.cmp_spec(&r@[j].0))
                    == core::cmp::Ordering::Less,
    {
        btree_into_pairs(self.inner)
    }

    /// Consumes the map and returns its keys as a vector, in ascending
    /// order. The values and the stored default are discarded.
    pub fn into_keys(self) -> (r: Vec<K>)
        requires
            obeys_cmp::<K>(),
        ensures
            r@.len() == self@.len(),
            forall|i: int| 0 <= i < r@.len() ==> self@.contains_key(#[trigger] r@[i]),
            forall|k: K| #[trigger]
                self@.contains_key(k) ==> exists|i: int|
                    0 <= i < r@.len() && (#[trigger] r@[i]) == k,
            forall|i: int, j: int|
                0 <= i < j < r@.len() ==> (#[trigger] r@[i].cmp_spec(&r@[j]))
                    == core::cmp::Ordering::Less,
    {
        let ghost orig = self@;
        let pairs = self.into_iter();
        let ghost pairs_view = pairs@;
        let mut pairs = pairs;
        let mut r: Vec<K> = Vec::new();
        while pairs.len() > 0
            invariant
                r@.len() + pairs@.len() == pairs_view.len(),
                pairs@ == pairs_view.skip(r@.len() as int),
                forall|i: int| 0 <= i < r@.len() ==> (#[trigger] r@[i]) == pairs_view[i].0,
            decreases pairs@.len(),
        {
            let ghost n = r@.len() as int;
            let p = pairs.remove(0);
            r.push(p.0);
            proof {
                assert(pairs@ =~= pairs_view.skip(n + 1));
            }
        }
        proof {
            assert forall|k: K| orig.contains_key(k) implies exists|i: int|
                0 <= i < r@.len() && (#[trigger] r@[i]) == k by {
                let i = choose|i: int|
                    0 <= i < pairs_view.len() && (#[trigger] pairs_view[i].0) == k;
                assert(r@[i] == k);
            }
        }
        r
    }

    /// Consumes the map and returns its values as a vector, in ascending
    /// order of their keys. The keys and the stored default are discarded.
    pub fn into_values(self) -> (r: Vec<V>)
        requires
            obeys_cmp::<K>(),
        ensures
            r@.len() == self@.len(),
            exists|ks: Seq<K>|
                #![auto]
                ks.len() == r@.len() && (forall|i: int|
                    0 <= i < ks.len() ==> self@.contains_key(ks[i]) && r@[i] == self@[ks[i]]) && (
                forall|k: K| self@.contains_key(k) ==> ks.contains(k)) && (forall|i: int, j: int|
                    0 <= i < j < ks.len() ==> ks[i].cmp_spec(&ks[j]) == core::cmp::Ordering::Less),
    {
        let ghost orig = self@;
        let pairs = self.into_iter();
        let ghost pairs_view = pairs@;
        let ghost ks = pairs_view.map_values(|p: (K, V)| p.0);
        let mut pairs = pairs;
        let mut r: Vec<V> = Vec::new();
        while pairs.len() > 0
            invariant
                r@.len() + pairs@.len() == pairs_view.len(),
                pairs@ == pairs_view.skip(r@.len() as int),
                forall|i: int| 0 <= i < r@.len() ==> (#[trigger] r@[i]) == pairs_view[i].1,
            decreases pairs@.len(),
        {
            let ghost n = r@.len() as int;
            let p = pairs.remove(0);
            r.push(p.1);
            proof {
                assert(pairs@ =~= pairs_view.skip(n + 1));
            }
        }
        proof {
            assert(ks.len() == r@.len());
            assert forall|i: int| 0 <= i < ks.len() implies orig.contains_key(ks[i]) && r@[i]
                == orig[ks[i]] by {
                assert(ks[i] == pairs_view[i].0);
            }
            assert forall|k: K| orig.contains_key(k) implies ks.contains(k) by {
                let i = choose|i: int|
                    0 <= i < pairs_view.len() && (#[trigger] pairs_view[i].0) == k;
                assert(ks[i] == k);
            }
            assert forall|i: int, j: int| 0 <= i < j < ks.len() implies ks[i].cmp_spec(&ks[j])
                == core::cmp::Ordering::Less by {
                assert(ks[i] == pairs_view[i].0);
                assert(ks[j] == pairs_view[j].0);
            }
            assert(ks.len() == r@.len() && (forall|i: int|
                0 <= i < ks.len() ==> orig.contains_key(ks[i]) && r@[i] == orig[ks[i]]) && (
            forall|k: K| orig.contains_key(k) ==> ks.contains(k)) && (forall|i: int, j: int|
                0 <= i < j < ks.len() ==> ks[i].cmp_spec(&ks[j]) == core::cmp::Ordering::Less));
        }
        r
    }

    /// Keeps exactly the entries on which the predicate returns true; the
    /// others are removed. The entries are visited with a shared reference to
    /// the key and to the value.
    pub fn retain<F: Fn(&K, &V) -> bool>(&mut self, func: F)
        requires
            obeys_cmp::<K>(),
            forall|k: K|
                old(self)@.contains_key(k) ==> call_requires(func, (&k, &old(self)@[k])),
        ensures
            forall|k: K| #[trigger]
                final(self)@.contains_key(k) ==> old(self)@.contains_key(k) && final(self)@[k]
                    == old(self)@[k],
            forall|k: K| #[trigger]
                old(self)@.contains_key(k) && final(self)@.contains_key(k) ==> call_ensures(
                    func,
                    (&k, &old(self)@[k]),
                    true,
                ),
            forall|k: K| #[trigger]
                old(self)@.contains_key(k) && !final(self)@.contains_key(k) ==> call_ensures(
                    func,
                    (&k, &old(self)@[k]),
                    false,
                ),
            final(self).spec_default() == old(self).spec_default(),
    {
        let ghost orig = self@;
        let mut drained: BTreeMap<K, V> = BTreeMap::new();
        core::mem::swap(&mut self.inner, &mut drained);
        let mut pairs = btree_into_pairs(drained);
        let ghost pairs_view = pairs@;
        while pairs.len() > 0
            invariant
                obeys_cmp::<K>(),
                forall|k: K| orig.contains_key(k) ==> call_requires(func, (&k, &orig[k])),
                pairs@ == pairs_view.skip(pairs_view.len() - pairs@.len()),
                pairs_view.len() >= pairs@.len(),
                forall|i: int|
                    0 <= i < pairs_view.len() ==> orig.contains_key(#[trigger] pairs_view[i].0)
                        && pairs_view[i].1 == orig[pairs_view[i].0],
                forall|k: K| #[trigger]
                    orig.contains_key(k) ==> exists|i: int|
                        0 <= i < pairs_view.len() && (#[trigger] pairs_view[i].0) == k,
                forall|k: K| #[trigger]
                    self.inner@.contains_key(k) ==> orig.contains_key(k) && self.inner@[k]
                        == orig[k] && call_ensures(func, (&k, &orig[k]), true),
                forall|i: int|
                    0 <= i < pairs_view.len() - pairs@.len() ==> self.inner@.contains_key(
                        #[trigger] pairs_view[i].0,
                    ) || call_ensures(func, (&pairs_view[i].0, &orig[pairs_view[i].0]), false),
                self.default_value == old(self).spec_default(),
            decreases pairs@.len(),
        {
            let ghost n = pairs_view.len() - pairs@.len();
            let p = pairs.remove(0);
            proof {
                assert(p == pairs_view[n as int]);
                assert(pairs@ =~= pairs_view.skip(n + 1));
            }
            let (k, v) = p;
            if func(&k, &v) {
                let _ = self.inner.insert(k, v);
            }
        }
        proof {
            assert forall|k: K|
                orig.contains_key(k) && !self.inner@.contains_key(k) implies call_ensures(
                func,
                (&k, &orig[k]),
                false,
            ) by {
                let i = choose|i: int|
                    0 <= i < pairs_view.len() && (#[trigger] pairs_view[i].0) == k;
                assert(self.inner@.contains_key(pairs_view[i].0) || call_ensures(
                    func,
                    (&pairs_view[i].0, &orig[pairs_view[i].0]),
                    false,
                ));
            }
        }
    }

    /// Splits the map in two at `key`: entries with keys greater than or
    /// equal to `key` move into the returned map, which holds a freshly
    /// constructed default; the others stay.
    pub fn split_off(&mut self, key: &K) -> (r: DefaultBTreeMap<K, V>)
        requires
            obeys_cmp::<K>(),
        ensures
            forall|k: K| #[trigger]
                old(self)@.contains_key(k) ==> if k.cmp_spec(key) == core::cmp::Ordering::Less {
                    final(self)@.contains_key(k) && final(self)@[k] == old(self)@[k]
                        && !r@.contains_key(k)
                } else {
                    r@.contains_key(k) && r@[k] == old(self)@[k] && !final(self)@.contains_key(k)
                },
            forall|k: K| #[trigger] final(self)@.contains_key(k) ==> old(self)@.contains_key(k),
            forall|k: K| #[trigger] r@.contains_key(k) ==> old(self)@.contains_key(k),
            final(self).spec_default() == old(self).spec_default(),
            call_ensures(V::default, (), r.spec_default()),
    {
        proof {
            lemma_cmp_agrees_with_spec::<K>();
        }
        let ghost orig = self@;
        let mut drained: BTreeMap<K, V> = BTreeMap::new();
        core::mem::swap(&mut self.inner, &mut drained);
        let mut pairs = btree_into_pairs(drained);
        let ghost pairs_view = pairs@;
        let mut split: BTreeMap<K, V> = BTreeMap::new();
        while pairs.len() > 0
            invariant
                obeys_cmp::<K>(),
                K::obeys_cmp_spec(),
                pairs@ == pairs_view.skip(pairs_view.len() - pairs@.len()),
                pairs_view.len() >= pairs@.len(),
                forall|i: int|
                    0 <= i < pairs_view.len() ==> orig.contains_key(#[trigger] pairs_view[i].0)
                        && pairs_view[i].1 == orig[pairs_view[i].0],
                forall|k: K| #[trigger]
                    orig.contains_key(k) ==> exists|i: int|
                        0 <= i < pairs_view.len() && (#[trigger] pairs_view[i].0) == k,
                forall|k: K| #[trigger]
                    self.inner@.contains_key(k) ==> orig.contains_key(k) && self.inner@[k]
                        == orig[k] && k.cmp_spec(key) == core::cmp::Ordering::Less,
                forall|k: K| #[trigger]
                    split@.contains_key(k) ==> orig.contains_key(k) && split@[k] == orig[k]
                        && k.cmp_spec(key) != core::cmp::Ordering::Less,
                forall|i: int|
                    0 <= i < pairs_view.len() - pairs@.len() ==> self.inner@.contains_key(
                        #[trigger] pairs_view[i].0,
                    ) || split@.contains_key(pairs_view[i].0),
                self.default_value == old(self).spec_default(),
            decreases pairs@.len(),
        {
            let ghost n = pairs_view.len() - pairs@.len();
            let p = pairs.remove(0);
            proof {
                assert(p == pairs_view[n as int]);
                assert(pairs@ =~= pairs_view.skip(n + 1));
            }
            let (k, v) = p;
            match k.cmp(key) {
                core::cmp::Ordering::Less => {
                    let _ = self.inner.insert(k, v);
                },
                _ => {
                    let _ = split.insert(k, v);
                },
            }
        }
        proof {
            assert forall|k: K| orig.contains_key(k) implies self.inner@.contains_key(k)
                || split@.contains_key(k) by {
                let i = choose|i: int|
                    0 <= i < pairs_view.len() && (#[trigger] pairs_view[i].0) == k;
                assert(self.inner@.contains_key(pairs_view[i].0) || split@.contains_key(
                    pairs_view[i].0,
                ));
            }
        }
        DefaultBTreeMap { inner: split, default_value: V::default() }
    }

    /// The entries whose keys lie inside the half-open range, as a vector of
    /// cloned pairs in ascending key order. The queried map is not changed;
    /// the range must not run backwards.
    pub fn range(&self, range: core::ops::Range<K>) -> (r: Vec<(K, V)>) where
        K: Clone,
        V: Clone,

        requires
            obeys_cmp::<K>(),
            range.start.cmp_spec(&range.end) != (core::cmp::Ordering::Greater),
        ensures
            forall|i: int|
                0 <= i < r@.len() ==> self@.contains_key(#[trigger] r@[i].0) && r@[i].1
                    == self@[r@[i].0] && in_key_range(range.start, range.end, r@[i].0),
            forall|k: K| #[trigger]
                self@.contains_key(k) && in_key_range(range.start, range.end, k) ==> exists|i: int|
                    0 <= i < r@.len() && (#[trigger] r@[i].0) == k,
            forall|i: int, j: int|
                0 <= i < j < r@.len() ==> (#[trigger] r@[i].0.cmp_spec(&r@[j].0))
                    == core::cmp::Ordering::Less,
    {
        proof {
            lemma_cmp_agrees_with_spec::<K>();
        }
        let copied = self.inner.clone();
        let mut pairs = btree_into_pairs(copied);
        let ghost pairs_view = pairs@;
        let mut r: Vec<(K, V)> = Vec::new();
        while pairs.len() > 0
            invariant
                obeys_cmp::<K>(),
                K::obeys_cmp_spec(),
                pairs@ == pairs_view.skip(pairs_view.len() - pairs@.len()),
                pairs_view.len() >= pairs@.len(),
                forall|i: int|
                    0 <= i < pairs_view.len() ==> self@.contains_key(#[trigger] pairs_view[i].0)
                        && pairs_view[i].1 == self@[pairs_view[i].0],
                forall|k: K| #[trigger]
                    self@.contains_key(k) ==> exists|i: int|
                        0 <= i < pairs_view.len() && (#[trigger] pairs_view[i].0) == k,
                forall|i: int, j: int|
                    0 <= i < j < pairs_view.len() ==> (#[trigger] pairs_view[i].0.cmp_spec(
                        &pairs_view[j].0,
                    )) == core::cmp::Ordering::Less,
                forall|i: int|
                    0 <= i < r@.len() ==> self@.contains_key(#[trigger] r@[i].0) && r@[i].1
                        == self@[r@[i].0] && in_key_range(range.start, range.end, r@[i].0),
                forall|i: int, j: int|
                    0 <= i < r@.len() && pairs_view.len() - pairs@.len() <= j < pairs_view.len()
                        ==> (#[trigger] r@[i].0.cmp_spec(&pairs_view[j].0))
                        == core::cmp::Ordering::Less,
                forall|i: int, j: int|
                    0 <= i < j < r@.len() ==> (#[trigger] r@[i].0.cmp_spec(&r@[j].0))
                        == core::cmp::Ordering::Less,
                forall|j: int|
                    0 <= j < pairs_view.len() - pairs@.len() && in_key_range(
                        range.start,
                        range.end,
                        pairs_view[j].0,
                    ) ==> exists|i: int| 0 <= i < r@.len() && (#[trigger] r@[i].0)
                        == pairs_view[j].0,
            decreases pairs@.len(),
        {
            let ghost n = pairs_view.len() - pairs@.len();
            let ghost r0 = r@;
            let p = pairs.remove(0);
            proof {
                assert(p == pairs_view[n as int]);
                assert(pairs@ =~= pairs_view.skip(n + 1));
            }
            let (k, v) = p;
            let above_start = match range.start.cmp(&k) {
                core::cmp::Ordering::Greater => false,
                _ => true,
            };
            let below_end = match k.cmp(&range.end) {
                core::cmp::Ordering::Less => true,
                _ => false,
            };
            if above_start && below_end {
                r.push((k, v));
                proof {
                    assert(r@[r0.len() as int].0 == pairs_view[n as int].0);
                }
            }
            proof {
                assert forall|j: int|
                    0 <= j < pairs_view.len() - pairs@.len() && in_key_range(
                        range.start,
                        range.end,
                        pairs_view[j].0,
                    ) implies exists|i: int|
                    0 <= i < r@.len() && (#[trigger] r@[i].0) == pairs_view[j].0 by {
                    if j == n {
                        assert(r@[r0.len() as int].0 == pairs_view[j].0);
                    } else {
                        let i = choose|i: int|
                            0 <= i < r0.len() && (#[trigger] r0[i].0) == pairs_view[j].0;
                        assert(r@[i].0 == pairs_view[j].0);
                    }
                }
            }
        }
        proof {
            assert forall|k: K|
                self@.contains_key(k) && in_key_range(range.start, range.end, k) implies exists|
                i: int,
            |
                0 <= i < r@.len() && (#[trigger] r@[i].0) == k by {
                let j = choose|j: int|
                    0 <= j < pairs_view.len() && (#[trigger] pairs_view[j].0) == k;
                assert(in_key_range(range.start, range.end, pairs_view[j].0));
            }
        }
        r
    }
}

impl<K, V> DefaultBTreeMap<K, V>
where
    K: Eq + Ord,
    V: Default,
{
    /// An iterator over references to the keys, in ascending order. The
    /// sequence it will yield covers the key set exactly, without
    /// duplicates.
    pub fn keys(&self) -> (r: std::collections::btree_map::Keys<'_, K, V>)
        requires
            obeys_cmp::<K>(),
        ensures
            r.remaining().unref().to_set() == self@.dom(),
            r.remaining().no_duplicates(),
            r.remaining().len() == self@.dom().len(),
            vstd::std_specs::btree::increasing_seq(r.remaining()),
    {
        self.inner.keys()
    }

    /// An iterator over references to the values, in ascending order of
    /// their keys. The sequence it will yield covers the value set exactly.
    pub fn values(&self) -> (r: std::collections::btree_map::Values<'_, K, V>)
        requires
            obeys_cmp::<K>(),
        ensures
            r.remaining().unref().to_set() == self@.values(),
            r.remaining().len() == self@.dom().len(),
    {
        self.inner.values()
    }

    /// An iterator over references to the entries, in ascending key order.
    /// The sequence it will yield lists exactly the stored entries.
    pub fn iter(&self) -> (r: std::collections::btree_map::Iter<'_, K, V>)
        requires
            obeys_cmp::<K>(),
        ensures
            r.remaining().len() == self@.dom().len(),
            forall|i: int|
                0 <= i < r.remaining().len() ==> self@.contains_key(
                    #[trigger] (*r.remaining()[i].0),
                ) && self@[*r.remaining()[i].0] == *r.remaining()[i].1,
            forall|k: K| #[trigger]
                self@.contains_key(k) ==> r.remaining().contains((&k, &self@[k])),
            r.remaining().no_duplicates(),
            vstd::std_specs::btree::increasing_seq(
                r.remaining().map_values(|kv: (&K, &V)| *kv.0),
            ),
    {
        self.inner.iter()
    }

    /// Relies on `BTreeMap::values_mut`: an iterator handing out mutable
    /// references to the values, in ascending key order. Nothing reached
    /// through it can add or remove entries, so the key set and the stored
    /// default are preserved; what the values become is up to the caller.
    #[verifier::external_body]
    pub fn values_mut(&mut self) -> (r: std::collections::btree_map::ValuesMut<'_, K, V>)
        ensures
            final(self)@.dom() == old(self)@.dom(),
            final(self).spec_default() == old(self).spec_default(),
    {
        self.inner.values_mut()
    }

    /// Relies on `BTreeMap::iter_mut`: an iterator over the entries handing
    /// out mutable references to the values, in ascending key order. Nothing
    /// reached through it can add or remove entries, so the key set and the
    /// stored default are preserved.
    #[verifier::external_body]
    pub fn iter_mut(&mut self) -> (r: std::collections::btree_map::IterMut<'_, K, V>)
        ensures
            final(self)@.dom() == old(self)@.dom(),
            final(self).spec_default() == old(self).spec_default(),
    {
        self.inner.iter_mut()
    }

    /// Relies on `BTreeMap::range_mut`: an iterator over the entries whose
    /// keys lie inside the half-open range, handing out mutable references
    /// to their values, in ascending key order. Nothing reached through it
    /// can add or remove entries, and entries outside the range are not
    /// touched; the range must not run backwards.
    #[verifier::external_body]
    pub fn range_mut(&mut self, range: core::ops::Range<K>) -> (r:
        std::collections::btree_map::RangeMut<'_, K, V>)
        requires
            obeys_cmp::<K>(),
            range.start.cmp_spec(&range.end) != (core::cmp::Ordering::Greater),
        ensures
            final(self)@.dom() == old(self)@.dom(),
            final(self).spec_default() == old(self).spec_default(),
            forall|k: K|
                old(self)@.contains_key(k) && !in_key_range(range.start, range.end, k)
                    ==> final(self)@[k] == old(self)@[k],
    {
        self.inner.range_mut(range)
    }
}

impl<K, V> DefaultBTreeMap<K, V>
where
    K: Eq + Ord,
    V: Default,
{
    /// Wraps an existing backing tree, pairing it with a freshly constructed
    /// default value. The entries are taken over unchanged.
    pub fn from(tree: BTreeMap<K, V>) -> (r: Self)
        ensures
            r@ == tree@,
            call_ensures(V::default, (), r.spec_default()),
    {
        DefaultBTreeMap { inner: tree, default_value: V::default() }
    }

    /// Consumes the map and hands back the backing tree with its entries
    /// unchanged; the stored default is discarded.
    pub fn into_inner(self) -> (r: BTreeMap<K, V>)
        ensures
            r@ == self@,
    {
        self.inner
    }
}

impl<K, V> Default for DefaultBTreeMap<K, V>
where
    K: Eq + Ord,
    V: Default,
{
    /// An empty map, exactly as [`DefaultBTreeMap::new`] builds it.
    fn default() -> (r: Self)
        ensures
            r@ == (Map::<K, V>::empty()),
            call_ensures(V::default, (), r.spec_default()),
    {
        DefaultBTreeMap::new()
    }
}

impl<K, V> core::ops::Index<&K> for DefaultBTreeMap<K, V>
where
    K: Eq + Ord,
    V: Default,
{
    type Output = V;

    /// Indexing reads like [`DefaultBTreeMap::get`]: an absent key yields the
    /// stored default rather than a panic.
    fn index(&self, key: &K) -> (r: &V)
        ensures
            *r == self.spec_get(*key),
    {
        self.get(key)
    }
}

impl<K, V> vstd::std_specs::core::IndexSpecImpl<&K> for DefaultBTreeMap<K, V>
where
    K: Eq + Ord,
    V: Default,
{
    open spec fn index_req(&self, key: &&K) -> bool {
        obeys_cmp::<K>()
    }
}

/// Specification marker for the standard library's mutable value iterator
/// over a `BTreeMap`; the type is opaque to the verifier.
#[verifier::external_type_specification]
#[verifier::external_body]
#[verifier::reject_recursive_types(K)]
#[verifier::reject_recursive_types(V)]
pub struct ExValuesMut<'a, K, V>(std::collections::btree_map::ValuesMut<'a, K, V>);

/// Specification marker for the standard library's mutable entry iterator
/// over a `BTreeMap`; the type is opaque to the verifier.
#[verifier::external_type_specification]
#[verifier::external_body]
#[verifier::reject_recursive_types(K)]
#[verifier::reject_recursive_types(V)]
pub struct ExIterMut<'a, K: 'a, V: 'a>(std::collections::btree_map::IterMut<'a, K, V>);

/// Specification marker for the standard library's mutable range iterator
/// over a `BTreeMap`; the type is opaque to the verifier.
#[verifier::external_type_specification]
#[verifier::external_body]
#[verifier::reject_recursive_types(K)]
#[verifier::reject_recursive_types(V)]
pub struct ExRangeMut<'a, K: 'a, V: 'a>(std::collections::btree_map::RangeMut<'a, K, V>);

impl<K, V> DefaultBTreeMap<K, V>
where
    K: Eq + Ord,
    V: Default,
{
    /// Builds a map from explicit key/value pairs, as the bracketed
    /// pair-list construction does: the pairs are inserted from the front,
    /// so a repeated key keeps its last value.
    pub fn from_pairs(pairs: Vec<(K, V)>) -> (r: Self)
        requires
            obeys_cmp::<K>(),
        ensures
            r@ == crate::map_of_pairs(pairs@),
            call_ensures(V::default, (), r.spec_default()),
    {
        let ghost pairs_view = pairs@;
        let mut pairs = pairs;
        let mut r = DefaultBTreeMap::new();
        while pairs.len() > 0
            invariant
                obeys_cmp::<K>(),
                pairs@ == pairs_view.skip(pairs_view.len() - pairs@.len()),
                pairs_view.len() >= pairs@.len(),
                r@ == crate::map_of_pairs(pairs_view.take(pairs_view.len() - pairs@.len())),
                call_ensures(V::default, (), r.spec_default()),
            decreases pairs@.len(),
        {
            let ghost n = pairs_view.len() - pairs@.len();
            let p = pairs.remove(0);
            proof {
                assert(p == pairs_view[n as int]);
                assert(pairs@ =~= pairs_view.skip(n + 1));
            }
            let (k, v) = p;
            let _ = r.insert(k, v);
            proof {
                assert(pairs_view.take(n + 1).drop_last() =~= pairs_view.take(n as int));
            }
        }
        proof {
            assert(pairs_view.take(pairs_view.len() as int) =~= pairs_view);
        }
        r
    }

    /// Builds a map from bare keys, as the bracketed key-list construction
    /// does: every listed key is materialized with a clone of the stored
    /// default.
    pub fn from_keys(keys: Vec<K>) -> (r: Self) where K: Clone, V: Clone
        requires
            obeys_cmp::<K>(),
            clone_is_identity::<K>(),
        ensures
            forall|k: K| #[trigger] r@.contains_key(k) <==> keys@.contains(k),
            forall|k: K| #[trigger]
                r@.contains_key(k) ==> vstd::pervasive::cloned(r.spec_default(), r@[k]),
            call_ensures(V::default, (), r.spec_default()),
    {
        let ghost keys_view = keys@;
        let mut keys = keys;
        let mut r = DefaultBTreeMap::new();
        while keys.len() > 0
            invariant
                obeys_cmp::<K>(),
                clone_is_identity::<K>(),
                keys@ == keys_view.skip(keys_view.len() - keys@.len()),
                keys_view.len() >= keys@.len(),
                forall|k: K| #[trigger]
                    r@.contains_key(k) <==> keys_view.take(
                        keys_view.len() - keys@.len(),
                    ).contains(k),
                forall|k: K| #[trigger]
                    r@.contains_key(k) ==> vstd::pervasive::cloned(r.spec_default(), r@[k]),
                call_ensures(V::default, (), r.spec_default()),
            decreases keys@.len(),
        {
            let ghost n = keys_view.len() - keys@.len();
            let k = keys.remove(0);
            proof {
                assert(k == keys_view[n as int]);
                assert(keys@ =~= keys_view.skip(n + 1));
            }
            let _ = r.get_mut(&k);
            proof {
                assert forall|k2: K|
                    keys_view.take(n + 1).contains(k2) <==> (keys_view.take(n as int).contains(k2)
                        || k2 == keys_view[n as int]) by {
                    if keys_view.take(n + 1).contains(k2) {
                        let j = choose|j: int|
                            0 <= j < n + 1 && (#[trigger] keys_view.take(n + 1)[j]) == k2;
                        if j < n {
                            assert(keys_view.take(n as int)[j] == k2);
                        }
                    }
                    if keys_view.take(n as int).contains(k2) {
                        let j = choose|j: int|
                            0 <= j < n && (#[trigger] keys_view.take(n as int)[j]) == k2;
                        assert(keys_view.take(n + 1)[j] == k2);
                    }
                    if k2 == keys_view[n as int] {
                        assert(keys_view.take(n + 1)[n as int] == k2);
                    }
                }
            }
        }
        proof {
            assert(keys_view.take(keys_view.len() as int) =~= keys_view);
        }
        r
    }
}

/// A read of an absent key always yields the stored default: `spec_get`,
/// which [`DefaultBTreeMap::get`] returns and which leaves the map untouched,
/// equals `spec_default` on every key without an entry. Since the result is a
/// function of the map alone, any number of repeated reads of the same absent
/// key agree, and none of them changes the number of entries.
pub proof fn lemma_btree_absent_get_is_default<K, V>(m: DefaultBTreeMap<K, V>, k: K) where
    K: Eq + Ord,
    V: Default,

    requires
        !m@.contains_key(k),
    ensures
        m.spec_get(k) == m.spec_default(),
{
}

/// Whether `k` lies inside the half-open key range from `lo` (inclusive) to
/// `hi` (exclusive), in the order given by `cmp_spec`.
pub open spec fn in_key_range<K: Ord>(lo: K, hi: K, k: K) -> bool {
    lo.cmp_spec(&k) != core::cmp::Ordering::Greater && k.cmp_spec(&hi)
        == core::cmp::Ordering::Less
}

/// Consumes a backing tree and returns its entries as a vector in ascending
/// key order, by repeatedly removing the minimum entry.
fn btree_into_pairs<K: Ord, V>(m: BTreeMap<K, V>) -> (r: Vec<(K, V)>)
    requires
        obeys_cmp::<K>(),
    ensures
        r@.len() == m@.len(),
        forall|i: int|
            0 <= i < r@.len() ==> m@.contains_key(#[trigger] r@[i].0) && r@[i].1 == m@[r@[i].0],
        forall|k: K| #[trigger]
            m@.contains_key(k) ==> exists|i: int| 0 <= i < r@.len() && (#[trigger] r@[i].0) == k,
        forall|i: int, j: int|
            0 <= i < j < r@.len() ==> (#[trigger] r@[i].0.cmp_spec(&r@[j].0))
                == core::cmp::Ordering::Less,
{
    let ghost orig = m@;
    let mut m = m;
    let mut r: Vec<(K, V)> = Vec::new();
    while !m.is_empty()
        invariant
            obeys_cmp::<K>(),
            forall|i: int|
                0 <= i < r@.len() ==> orig.contains_key(#[trigger] r@[i].0) && r@[i].1
                    == orig[r@[i].0],
            forall|k: K| #[trigger]
                m@.contains_key(k) ==> orig.contains_key(k) && orig[k] == m@[k],
            forall|k: K| #[trigger]
                orig.contains_key(k) ==> m@.contains_key(k) || exists|i: int|
                    0 <= i < r@.len() && (#[trigger] r@[i].0) == k,
            forall|i: int, k: K|
                0 <= i < r@.len() && m@.contains_key(k) ==> (#[trigger] r@[i].0.cmp_spec(&k))
                    == core::cmp::Ordering::Less,
            forall|i: int, j: int|
                0 <= i < j < r@.len() ==> (#[trigger] r@[i].0.cmp_spec(&r@[j].0))
                    == core::cmp::Ordering::Less,
            r@.len() + m@.len() == orig.len(),
        decreases m@.len(),
    {
        let ghost m0 = m@;
        let ghost r0 = r@;
        match btree_pop_first(&mut m) {
            Some(kv) => {
                r.push(kv);
                proof {
                    assert(r@[r0.len() as int].0 == kv.0);
                    assert forall|k: K| orig.contains_key(k) implies m@.contains_key(k) || exists|
                        i: int,
                    |
                        0 <= i < r@.len() && (#[trigger] r@[i].0) == k by {
                        if !m@.contains_key(k) {
                            if k == kv.0 {
                                assert(r@[r0.len() as int].0 == k);
                            } else if !m0.contains_key(k) {
                                let i = choose|i: int|
                                    0 <= i < r0.len() && (#[trigger] r0[i].0) == k;
                                assert(r@[i].0 == k);
                            }
                        }
                    }
                }
            },
            None => {
                proof {
                    assert(false);
                }
            },
        }
    }
    r
}

/// Under a lawful total order, the executable `cmp` of the key type agrees
/// with its specification `cmp_spec`; `obeys_cmp` keeps that fact behind an
/// opaque definition, and this lemma brings it out for the comparisons made
/// by `split_off` and `range`.
proof fn lemma_cmp_agrees_with_spec<K: Ord>()
    requires
        obeys_cmp::<K>(),
    ensures
        K::obeys_cmp_spec(),
{
    reveal(vstd::laws_cmp::obeys_cmp_ord);
}

/// Relies on `BTreeMap::append`: moves all entries of `other` into `m`,
/// preferring the value from `other` for a key present in both.
#[verifier::external_body]
fn btree_append<K: Ord, V>(m: &mut BTreeMap<K, V>, other: &mut BTreeMap<K, V>)
    requires
        obeys_cmp::<K>(),
    ensures
        final(m)@ == old(m)@.union_prefer_right(old(other)@),
        final(other)@ == (Map::<K, V>::empty()),
{
    m.append(other)
}

/// Relies on `BTreeMap::pop_first`: removes and returns the entry whose key
/// is strictly smaller than every other key, or `None` on an empty map.
#[verifier::external_body]
fn btree_pop_first<K: Ord, V>(m: &mut BTreeMap<K, V>) -> (r: Option<(K, V)>)
    requires
        obeys_cmp::<K>(),
    ensures
        match r {
            Some(kv) => old(m)@.contains_key(kv.0) && kv.1 == old(m)@[kv.0] && final(m)@ == old(m)@.remove(kv.0) && forall|k2: K|
                old(m)@.contains_key(k2) && k2 != kv.0 ==> (#[trigger] kv.0.cmp_spec(&k2))
                    == core::cmp::Ordering::Less,
            None => old(m)@ == (Map::<K, V>::empty()) && final(m)@ == old(m)@,
        },
{
    m.pop_first()
}

/// Relies on `BTreeMap::pop_last`: removes and returns the entry whose key is
/// strictly greater than every other key, or `None` on an empty map.
#[verifier::external_body]
fn btree_pop_last<K: Ord, V>(m: &mut BTreeMap<K, V>) -> (r: Option<(K, V)>)
    requires
        obeys_cmp::<K>(),
    ensures
        match r {
            Some(kv) => old(m)@.contains_key(kv.0) && kv.1 == old(m)@[kv.0] && final(m)@ == old(m)@.remove(kv.0) && forall|k2: K|
                old(m)@.contains_key(k2) && k2 != kv.0 ==> (#[trigger] kv.0.cmp_spec(&k2))
                    == core::cmp::Ordering::Greater,
            None => old(m)@ == (Map::<K, V>::empty()) && final(m)@ == old(m)@,
        },
{
    m.pop_last()
}

/// Relies on `BTreeMap::first_key_value`: the entry whose key is strictly
/// smaller than every other key, or `None` on an empty map.
#[verifier::external_body]
fn btree_first_key_value<K: Ord, V>(m: &BTreeMap<K, V>) -> (r: Option<(&K, &V)>)
    requires
        obeys_cmp::<K>(),
    ensures
        match r {
            Some(kv) => m@.contains_key(*kv.0) && *kv.1 == m@[*kv.0] && forall|k2: K|
                m@.contains_key(k2) && k2 != *kv.0 ==> (#[trigger] kv.0.cmp_spec(&k2))
                    == core::cmp::Ordering::Less,
            None => m@ == (Map::<K, V>::empty()),
        },
{
    m.first_key_value()
}

/// Relies on `BTreeMap::last_key_value`: the entry whose key is strictly
/// greater than every other key, or `None` on an empty map.
#[verifier::external_body]
fn btree_last_key_value<K: Ord, V>(m: &BTreeMap<K, V>) -> (r: Option<(&K, &V)>)
    requires
        obeys_cmp::<K>(),
    ensures
        match r {
            Some(kv) => m@.contains_key(*kv.0) && *kv.1 == m@[*kv.0] && forall|k2: K|
                m@.contains_key(k2) && k2 != *kv.0 ==> (#[trigger] kv.0.cmp_spec(&k2))
                    == core::cmp::Ordering::Greater,
            None => m@ == (Map::<K, V>::empty()),
        },
{
    m.last_key_value()
}

/// Relies on `BTreeMap::get_mut`: a mutable handle to the value stored for
/// `key`, which must be present.
#[verifier::external_body]
fn btree_get_mut<'a, K: Ord, V>(m: &'a mut BTreeMap<K, V>, key: &K) -> (r: &'a mut V)
    requires
        obeys_cmp::<K>(),
        old(m)@.contains_key(*key),
    ensures
        *r == old(m)@[*key],
        final(m)@ == old(m)@.insert(*key, *final(r)),
{
    m.get_mut(key).unwrap()
}

} // verus!