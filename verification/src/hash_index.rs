//! The hashed index: an open-addressed probing table that resolves a key's
//! hash to the current position of its record in the entry store.
//!
//! The probing primitive itself is hashbrown's `HashMap`; this module only
//! consumes that capability. Its observable contents are modelled by the
//! uninterpreted function [`index_entries`], a mathematical map from hash to
//! position, and each operation the engine calls is a trusted wrapper whose
//! contract states what hashbrown documents for it.

use vstd::prelude::*;

verus! {

/// The probing table itself. hashbrown's `HashMap` cannot be declared to the
/// verifier (its allocator parameter carries a trait bound the verifier does
/// not know), so the table lives in a private field of an opaque holder and
/// is reached only through the trusted operations below.
#[verifier::external_body]
pub struct HashIndex {
    slots: hashbrown::HashMap<u64, usize>,
}

/// The contents of the hashed index: which store position each hash resolves to.
pub uninterp spec fn index_entries(m: HashIndex) -> Map<u64, usize>;

/// The empty index: no hash resolves to any position.
pub open spec fn index_empty() -> Map<u64, usize> {
    Map::empty()
}

/// Relies on hashbrown::HashMap::new: a freshly created table is empty.
#[verifier::external_body]
pub fn index_new() -> (m: HashIndex)
    ensures
        index_entries(m) == index_empty(),
{
    HashIndex { slots: hashbrown::HashMap::new() }
}

/// Relies on hashbrown::HashMap::with_capacity: the table starts empty,
/// whatever room was reserved.
#[verifier::external_body]
pub fn index_with_capacity(capacity: usize) -> (m: HashIndex)
    ensures
        index_entries(m) == index_empty(),
{
    HashIndex { slots: hashbrown::HashMap::with_capacity(capacity) }
}

/// Relies on hashbrown::HashMap::insert: the slot for this hash now resolves
/// to the given position, every other slot is unchanged, and the previous
/// position for this hash (if any) is returned.
#[verifier::external_body]
pub fn index_insert(m: &mut HashIndex, hash: u64, pos: usize) -> (r: Option<
    usize,
>)
    ensures
        index_entries(*final(m)) == index_entries(*old(m)).insert(hash, pos),
        r == (if index_entries(*old(m)).dom().contains(hash) {
            Some(index_entries(*old(m))[hash])
        } else {
            None::<usize>
        }),
{
    m.slots.insert(hash, pos)
}

/// Relies on hashbrown::HashMap::get: returns the position this hash
/// resolves to, if the index holds a slot for it.
#[verifier::external_body]
pub fn index_get(m: &HashIndex, hash: u64) -> (r: Option<usize>)
    ensures
        r == (if index_entries(*m).dom().contains(hash) {
            Some(index_entries(*m)[hash])
        } else {
            None::<usize>
        }),
{
    m.slots.get(&hash).copied()
}

/// Relies on hashbrown::HashMap::remove: the slot for this hash is deleted,
/// every other slot is unchanged, and the position it held is returned.
#[verifier::external_body]
pub fn index_remove(m: &mut HashIndex, hash: u64) -> (r: Option<usize>)
    ensures
        index_entries(*final(m)) == index_entries(*old(m)).remove(hash),
        r == (if index_entries(*old(m)).dom().contains(hash) {
            Some(index_entries(*old(m))[hash])
        } else {
            None::<usize>
        }),
{
    m.slots.remove(&hash)
}

/// Relies on hashbrown::HashMap::clear: afterwards the table holds no slot.
#[verifier::external_body]
pub fn index_clear(m: &mut HashIndex)
    ensures
        index_entries(*final(m)) == index_empty(),
{
    m.slots.clear()
}

} // verus!
