//! Ordered maps written with the Haskell `store` ascending-order marker.
//!
//! Haskell's `store` library (>= 0.4) writes a magic marker before the entries of a
//! `Map` or an `IntMap` to say that they come in ascending key order. `OrderedMap`
//! is a `BTreeMap` that is written with that marker and must be read with it.

use crate::deserializer::{failure_message, ReadFailure};
use std::collections::BTreeMap;
use vstd::laws_cmp::obeys_cmp;
use vstd::prelude::*;
use vstd::std_specs::btree::{contains_borrowed_key, key_obeys_cmp_spec, maps_borrowed_key_to_value};
use vstd::string::*;
use crate::text::append_decimal;

verus! {

/// Magic marker that indicates a map is stored in ascending order.
/// This value matches the Haskell store library's `markMapPokedInAscendingOrder`.
pub const ASCENDING_MAP_MARKER: u32 = 1217678090u32;

/// A `BTreeMap` that the store format writes after the ascending-order marker.
/// Its view is the map's view.
#[derive(Debug, Clone, PartialEq, Eq, PartialOrd, Ord, Hash)]
pub struct OrderedMap<K, V>(pub BTreeMap<K, V>);

impl<K, V> View for OrderedMap<K, V> {
    type V = Map<K, V>;

    open spec fn view(&self) -> Map<K, V> {
        self.0@
    }
}

impl<K, V> OrderedMap<K, V> {
    /// Create a new empty ordered map.
    pub fn new() -> (m: Self)
        ensures
            m@ == Map::<K, V>::empty(),
    {
        OrderedMap(BTreeMap::new())
    }

    /// Get a reference to the inner BTreeMap.
    pub fn inner(&self) -> (r: &BTreeMap<K, V>)
        ensures
            *r == self.0,
    {
        &self.0
    }

    /// Get a mutable reference to the inner BTreeMap.
    pub fn inner_mut(&mut self) -> (r: &mut BTreeMap<K, V>)
        ensures
            *r == old(self).0,
            final(self).0 == *final(r),
    {
        &mut self.0
    }

    /// Convert into the inner BTreeMap.
    pub fn into_inner(self) -> (r: BTreeMap<K, V>)
        ensures
            r == self.0,
    {
        self.0
    }

    /// Insert a key-value pair into the map; returns the value that the key held before.
    pub fn insert(&mut self, k: K, v: V) -> (r: Option<V>) where K: Ord
        ensures
            obeys_cmp::<K>() ==> final(self)@ == old(self)@.insert(k, v),
            obeys_cmp::<K>() ==> match r {
                Some(prev) => old(self)@.contains_key(k) && prev == old(self)@[k],
                None => !old(self)@.contains_key(k),
            },
    {
        self.0.insert(k, v)
    }

    /// Get a value from the map.
    pub fn get<Q>(&self, k: &Q) -> (r: Option<&V>) where K: std::borrow::Borrow<Q> + Ord, Q: Ord + ?Sized
        ensures
            obeys_cmp::<K>() ==> match r {
                Some(v) => maps_borrowed_key_to_value(self@, k, *v),
                None => !contains_borrowed_key(self@, k),
            },
    {
        self.0.get(k)
    }

    /// Get the number of entries in the map.
    pub fn len(&self) -> (n: usize)
        ensures
            key_obeys_cmp_spec::<K>() ==> n == self@.len(),
    {
        self.0.len()
    }

    /// Check if the map is empty.
    pub fn is_empty(&self) -> (b: bool)
        ensures
            b == self@.is_empty(),
    {
        self.0.is_empty()
    }
}

impl<K, V> Default for OrderedMap<K, V> {
    fn default() -> (m: Self)
        ensures
            m@ == Map::<K, V>::empty(),
    {
        Self::new()
    }
}

/// Checks the marker read before an ordered map's entries: it must be present and equal
/// to `ASCENDING_MAP_MARKER`; otherwise this gives the message of the error.
pub fn check_ascending_marker(marker: Option<u32>) -> (r: Result<(), String>)
    ensures
        match marker {
            None => r matches Err(m) && m@ == "missing ascending map marker"@,
            Some(x) => if x == ASCENDING_MAP_MARKER {
                r is Ok
            } else {
                r matches Err(m) && m@ == failure_message(ReadFailure::BadMarker(x))
            },
        },
{
    match marker {
        None => Err(String::from_str("missing ascending map marker")),
        Some(x) => if x == ASCENDING_MAP_MARKER {
            Ok(())
        } else {
            let mut m = String::from_str("invalid ascending map marker: expected 1217678090, got ");
            append_decimal(&mut m, x as u64);
            Err(m)
        },
    }
}

/// Checks that the entries follow the marker: `map` is what was read after it, and
/// an ordered map whose data is missing is an error with this message.
pub fn require_map_data<M>(map: Option<M>) -> (r: Result<M, String>)
    ensures
        match map {
            Some(m) => r == Ok::<M, String>(m),
            None => r matches Err(e) && e@ == "missing map data after marker"@,
        },
{
    match map {
        Some(m) => Ok(m),
        None => Err(String::from_str("missing map data after marker")),
    }
}

impl<K, V> From<BTreeMap<K, V>> for OrderedMap<K, V> {
    fn from(map: BTreeMap<K, V>) -> (m: Self) {
        OrderedMap(map)
    }
}

impl<K, V> vstd::std_specs::convert::FromSpecImpl<BTreeMap<K, V>> for OrderedMap<K, V> {
    open spec fn obeys_from_spec() -> bool {
        true
    }

    open spec fn from_spec(map: BTreeMap<K, V>) -> Self {
        OrderedMap(map)
    }
}

impl<K, V> From<OrderedMap<K, V>> for BTreeMap<K, V> {
    fn from(ordered: OrderedMap<K, V>) -> (m: Self) {
        ordered.0
    }
}

impl<K, V> vstd::std_specs::convert::FromSpecImpl<OrderedMap<K, V>> for BTreeMap<K, V> {
    open spec fn obeys_from_spec() -> bool {
        true
    }

    open spec fn from_spec(ordered: OrderedMap<K, V>) -> Self {
        ordered.0
    }
}

impl<K, V> core::ops::Deref for OrderedMap<K, V> {
    type Target = BTreeMap<K, V>;

    fn deref(&self) -> (r: &BTreeMap<K, V>)
        ensures
            *r == self.0,
    {
        &self.0
    }
}

impl<K: Ord, V> FromIterator<(K, V)> for OrderedMap<K, V> {
    #[verifier::external_body]
    fn from_iter<I: IntoIterator<Item = (K, V)>>(iter: I) -> (m: Self) {
        OrderedMap(BTreeMap::from_iter(iter))
    }
}

} // verus!
