//! The ordered key set of `indexmap`, as the index uses it.
//!
//! Nothing in this file is proved: each function states what the
//! documentation and source of `indexmap::IndexSet` say of one method.

use indexmap::IndexSet;
use std::collections::hash_map::RandomState;
use vstd::prelude::*;

verus! {

/// `indexmap::IndexSet`: a hash set that remembers the order of insertion.
#[verifier::external_type_specification]
#[verifier::external_body]
#[verifier::reject_recursive_types(T)]
#[verifier::reject_recursive_types(S)]
pub struct ExIndexSet<T, S>(IndexSet<T, S>);

/// The keys that an ordered key set holds, by position: the element at
/// position `i` is the one that `IndexSet::get_index(i)` returns.
pub uninterp spec fn ordered_keys(set: IndexSet<u128, RandomState>) -> Seq<u128>;

/// `IndexSet::new`: creates a set without elements.
#[verifier::external_body]
pub(crate) fn new_key_set() -> (set: IndexSet<u128, RandomState>)
    ensures
        ordered_keys(set) == Seq::<u128>::empty(),
{
    IndexSet::new()
}

/// `IndexSet::get_index_of`: the position of `key` if the set holds it,
/// `None` if it does not.
#[verifier::external_body]
pub(crate) fn key_position(set: &IndexSet<u128, RandomState>, key: u128) -> (found: Option<usize>)
    ensures
        match found {
            Some(i) => i < ordered_keys(*set).len() && ordered_keys(*set)[i as int] == key,
            None => !ordered_keys(*set).contains(key),
        },
{
    set.get_index_of(&key)
}

/// `IndexSet::insert`: where the set already holds `key` it is left as it
/// was and `false` is returned; otherwise `key` takes the next position
/// after the last one and `true` is returned.
#[verifier::external_body]
pub(crate) fn append_key(set: &mut IndexSet<u128, RandomState>, key: u128) -> (added: bool)
    ensures
        added == !ordered_keys(*old(set)).contains(key),
        added ==> ordered_keys(*final(set)) == ordered_keys(*old(set)).push(key),
        !added ==> ordered_keys(*final(set)) == ordered_keys(*old(set)),
{
    set.insert(key)
}

/// `IndexSet::shift_remove_full`: where the set holds `key`, removes it as
/// `Vec::remove` does, so that the keys behind it move up by one position
/// in their order, and returns the position it had; otherwise leaves the
/// set as it was and returns `None`.
#[verifier::external_body]
pub(crate) fn remove_key(set: &mut IndexSet<u128, RandomState>, key: u128) -> (removed: Option<usize>)
    ensures
        match removed {
            Some(i) => i < ordered_keys(*old(set)).len() && ordered_keys(*old(set))[i as int] == key
                && ordered_keys(*final(set)) == ordered_keys(*old(set)).remove(i as int),
            None => !ordered_keys(*old(set)).contains(key) && ordered_keys(*final(set))
                == ordered_keys(*old(set)),
        },
{
    set.shift_remove_full(&key).map(|removed| removed.0)
}

} // verus!
