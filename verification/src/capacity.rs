//! Allocation-related calls into std's `Vec` and `HashMap` that vstd gives
//! no specification for.
use vstd::prelude::*;
use std::collections::HashMap;
use std::hash::Hash;

verus! {

/// Calls `Vec::capacity`. The contract claims only what std documents for
/// every vector: it can hold at least its current elements, so the
/// capacity is at least the length. The exact number is chosen by the
/// allocator and is left unsaid.
#[verifier::external_body]
pub(crate) fn vec_capacity<T>(v: &Vec<T>) -> (cap: usize)
    ensures
        cap >= v@.len(),
{
    v.capacity()
}

/// Calls `Vec::shrink_to_fit`. The contract claims that the elements of the
/// vector are unchanged, which std documents; what happens to the capacity
/// is left unsaid.
#[verifier::external_body]
pub(crate) fn vec_shrink_to_fit<T>(v: &mut Vec<T>)
    ensures
        final(v)@ == old(v)@,
{
    v.shrink_to_fit()
}

/// Calls `HashMap::shrink_to_fit`. The contract claims that the contents of
/// the map are unchanged, which std documents (only the capacity is
/// lowered); what happens to the capacity is left unsaid.
#[verifier::external_body]
pub(crate) fn hash_map_shrink_to_fit<K: Hash + Eq, V>(m: &mut HashMap<K, V>)
    ensures
        final(m)@ == old(m)@,
{
    m.shrink_to_fit()
}

} // verus!
