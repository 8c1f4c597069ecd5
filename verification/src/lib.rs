//! Default-valued associative containers.
//!
//! A [`DefaultBTreeMap`] wraps a `std::collections::BTreeMap` together with one
//! eagerly constructed default value; lookups of absent keys return that
//! default instead of signalling absence. A hash-backed variant lives in
//! [`default_hashmap`].

pub mod default_btree;

pub mod default_hashmap;

pub use default_btree::DefaultBTreeMap;

pub use default_hashmap::DefaultHashMap;

pub use default_hashmap::DefaultHashMapIter;

use vstd::prelude::*;

verus! {

/// A `Clone` implementation is *faithful* when every value it can produce is
/// equal to the value it was cloned from. Primitive types and the common
/// standard-library types behave this way; the contracts of this crate that
/// clone keys ask for this property so that they can speak of the clone and
/// the original interchangeably.
pub open spec fn clone_is_identity<T: Clone>() -> bool {
    forall|a: T, b: T| vstd::pervasive::cloned::<T>(a, b) ==> b == a
}

/// The map described by a sequence of key/value pairs, inserted from the
/// front: a key that occurs more than once keeps the value of its last
/// occurrence.
pub open spec fn map_of_pairs<K, V>(pairs: Seq<(K, V)>) -> Map<K, V>
    decreases pairs.len(),
{
    if pairs.len() == 0 {
        Map::empty()
    } else {
        map_of_pairs(pairs.drop_last()).insert(pairs.last().0, pairs.last().1)
    }
}

} // verus!
