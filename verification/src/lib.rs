//! An in-memory associative container that preserves insertion order while
//! offering hashed lookup, insertion and removal.
//!
//! The engine keeps two synchronized structures: a dense, order-preserving
//! entry store (a vector of records) and a hashed index mapping each key's
//! hash to the current position of its record in the store. All mutation
//! goes through the map engine, which updates the store and then repairs the
//! index so that every surviving record can be found both by key and by
//! position. A set variant fixes the value type to the unit value, and a
//! family of pull-based adapters provides iteration and set algebra
//! (difference, intersection, union, symmetric difference, splicing).
//!
//! Keys are 64-bit integers and the hash capability is fixed to the identity
//! function, a perfect hash: hash equality coincides with key equality, so
//! the hashed index resolves each key's hash to exactly one position.

use vstd::prelude::*;

pub mod hash_index;
pub mod model;
pub mod map;
pub mod util;
pub mod set;

verus! {

/// Hash value newtype, the precomputed hash stored with each record.
#[derive(Clone, Copy, Debug, PartialEq, Eq, Structural)]
pub struct HashValue(pub u64);

impl HashValue {
    pub fn get(self) -> (r: u64)
        ensures
            r == self.0,
    {
        self.0
    }
}

/// One record of the entry store: a precomputed hash, a key and a value.
#[derive(Debug)]
pub struct Bucket<V> {
    pub hash: HashValue,
    pub key: u64,
    pub value: V,
}

impl<V> Bucket<V> {
    pub fn key_ref(&self) -> (r: &u64)
        ensures
            *r == self.key,
    {
        &self.key
    }

    pub fn value_ref(&self) -> (r: &V)
        ensures
            *r == self.value,
    {
        &self.value
    }

    pub fn value_mut(&mut self) -> (r: &mut V)
        ensures
            *r == old(self).value,
            final(self).key == old(self).key,
            final(self).hash == old(self).hash,
            final(self).value == *final(r),
    {
        &mut self.value
    }

    pub fn key(self) -> (r: u64)
        ensures
            r == self.key,
    {
        self.key
    }

    pub fn value(self) -> (r: V)
        ensures
            r == self.value,
    {
        self.value
    }

    pub fn key_value(self) -> (r: (u64, V))
        ensures
            r == (self.key, self.value),
    {
        (self.key, self.value)
    }

    /// Mutable access to both key and value: the opt-in mutable-key
    /// capability. A caller who rewrites the key must keep it in the same
    /// hash and equality class, else the owning map's hashed index goes
    /// stale.
    pub fn muts(&mut self) -> (r: (&mut u64, &mut V))
        ensures
            *r.0 == old(self).key,
            *r.1 == old(self).value,
            final(self).hash == old(self).hash,
            final(self).key == *final(r.0),
            final(self).value == *final(r.1),
    {
        (&mut self.key, &mut self.value)
    }

    pub fn refs(&self) -> (r: (&u64, &V))
        ensures
            *r.0 == self.key,
            *r.1 == self.value,
    {
        (&self.key, &self.value)
    }

    pub fn ref_mut(&mut self) -> (r: (&u64, &mut V))
        ensures
            *r.0 == old(self).key,
            *r.1 == old(self).value,
            final(self).key == old(self).key,
            final(self).hash == old(self).hash,
            final(self).value == *final(r.1),
    {
        (&self.key, &mut self.value)
    }
}

} // verus!
