//! The insertion-ordered set of suppressed keys, held in a
//! `linked_hash_set::LinkedHashSet` and seen by the proofs as the sequence of
//! its keys, oldest first.

use crate::keys::Key;
use linked_hash_set::LinkedHashSet;
use vstd::prelude::*;

verus! {

#[verifier::external_type_specification]
#[verifier::external_body]
#[verifier::reject_recursive_types(T)]
#[verifier::reject_recursive_types(S)]
pub struct ExLinkedHashSet<T, S>(LinkedHashSet<T, S>);

/// The keys of a set, in the order in which they were inserted.
pub uninterp spec fn linked_keys(s: LinkedHashSet<Key>) -> Seq<Key>;

/// Relies on `LinkedHashSet::new`: the new set holds no key.
#[verifier::external_body]
pub(crate) fn set_new() -> (r: LinkedHashSet<Key>)
    ensures
        linked_keys(r) == Seq::<Key>::empty(),
{
    LinkedHashSet::new()
}

/// Relies on `LinkedHashSet::contains`: whether the key is in the set.
#[verifier::external_body]
pub(crate) fn set_contains(s: &LinkedHashSet<Key>, k: Key) -> (r: bool)
    ensures
        r == linked_keys(*s).contains(k),
{
    s.contains(&k)
}

/// Relies on `LinkedHashSet::insert`: the key ends up last in the order,
/// whether or not it was present, and `true` comes back when it was absent.
#[verifier::external_body]
pub(crate) fn set_insert(s: &mut LinkedHashSet<Key>, k: Key) -> (r: bool)
    ensures
        r == !linked_keys(*old(s)).contains(k),
        linked_keys(*final(s)) == linked_keys(*old(s)).filter(|x: Key| x != k).push(k),
{
    s.insert(k)
}

/// Relies on `LinkedHashSet::remove`: the key leaves the set, the order of
/// the others is kept, and `true` comes back when it was present.
#[verifier::external_body]
pub(crate) fn set_remove(s: &mut LinkedHashSet<Key>, k: Key) -> (r: bool)
    ensures
        r == linked_keys(*old(s)).contains(k),
        linked_keys(*final(s)) == linked_keys(*old(s)).filter(|x: Key| x != k),
{
    s.remove(&k)
}

/// Relies on `LinkedHashSet::pop_back`: the most recently inserted key
/// leaves the set and comes back; an empty set stays empty.
#[verifier::external_body]
pub(crate) fn set_pop_back(s: &mut LinkedHashSet<Key>) -> (r: Option<Key>)
    ensures
        linked_keys(*old(s)).len() == 0 ==> r is None && linked_keys(*final(s)) == linked_keys(*old(s)),
        linked_keys(*old(s)).len() > 0 ==> r == Some(linked_keys(*old(s)).last())
            && linked_keys(*final(s)) == linked_keys(*old(s)).drop_last(),
{
    s.pop_back()
}

} // verus!
