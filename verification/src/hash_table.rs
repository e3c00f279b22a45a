//! Hash tables keyed by integers and hashed with `ahash`.
use ahash::RandomState;
use std::collections::HashMap;
use vstd::prelude::*;

verus! {

/// `ahash`'s hash builder, carried through as an opaque value.
#[verifier::external_type_specification]
#[verifier::external_body]
pub struct ExternalAHashRandomState(RandomState);

/// Calls `ahash::RandomState::new`, which seeds a new hash builder.
/// Nothing is stated of the seeds: they differ from one process to another.
#[verifier::external_body]
pub(crate) fn new_random_state() -> RandomState {
    RandomState::new()
}

/// Calls `HashMap::with_capacity_and_hasher`: the table it gives holds no entry.
#[verifier::external_body]
pub(crate) fn table_with_capacity_and_hasher<V>(capacity: usize, hasher: RandomState) -> (m: HashMap<u64, V, RandomState>)
    ensures
        m@.dom().is_empty(),
{
    HashMap::with_capacity_and_hasher(capacity, hasher)
}

/// Calls `HashMap::insert`: afterwards `k` maps to `v` and every other key is as before.
/// A hash table with an `ahash` builder hashes each `u64` the same way every time, so it
/// behaves as a map.
#[verifier::external_body]
pub(crate) fn table_insert<V>(m: &mut HashMap<u64, V, RandomState>, k: u64, v: V)
    ensures
        final(m)@ == old(m)@.insert(k, v),
{
    m.insert(k, v);
}

/// Calls `HashMap::get` and copies the value out: what `k` maps to, if anything.
#[verifier::external_body]
pub(crate) fn table_get<V: Copy>(m: &HashMap<u64, V, RandomState>, k: u64) -> (r: Option<V>)
    ensures
        r == (if m@.contains_key(k) {
            Some(m@[k])
        } else {
            None
        }),
{
    m.get(&k).copied()
}

/// Calls `HashMap::remove`: afterwards `k` maps to nothing and every other key is as before.
#[verifier::external_body]
pub(crate) fn table_remove<V>(m: &mut HashMap<u64, V, RandomState>, k: u64)
    ensures
        final(m)@ == old(m)@.remove(k),
{
    m.remove(&k);
}

/// Calls `HashMap::clear`: afterwards the table holds no entry.
#[verifier::external_body]
pub(crate) fn table_clear<V>(m: &mut HashMap<u64, V, RandomState>)
    ensures
        final(m)@.dom().is_empty(),
{
    m.clear();
}

/// Calls `HashMap::capacity`: how many entries the table can hold without growing. Nothing is
/// stated of it: it depends on what the allocator gave.
#[verifier::external_body]
pub(crate) fn table_capacity<V>(m: &HashMap<u64, V, RandomState>) -> usize {
    m.capacity()
}

/// Calls `HashMap::len`: the number of entries of the table.
#[verifier::external_body]
pub(crate) fn table_len<V>(m: &HashMap<u64, V, RandomState>) -> (r: usize)
    ensures
        r == m@.dom().len(),
{
    m.len()
}

/// Calls `Vec::capacity`: how many items the vector can hold without growing. Nothing is
/// stated of it: it depends on what the allocator gave.
#[verifier::external_body]
pub(crate) fn vec_capacity<T>(v: &Vec<T>) -> usize {
    v.capacity()
}

} // verus!
