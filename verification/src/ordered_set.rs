//! The insertion-ordered set of chunk identifiers in which requirements are
//! collected: `linked_hash_set::LinkedHashSet`, as far as the composition
//! uses it.

use vstd::prelude::*;
use linked_hash_set::LinkedHashSet;
use std::collections::hash_map::RandomState;

verus! {

/// `linked_hash_set::LinkedHashSet`: a set that keeps its items in the
/// order in which they were inserted. Nothing is known of a value of it but
/// through the functions below.
#[verifier::external_type_specification]
#[verifier::external_body]
#[verifier::reject_recursive_types(T)]
#[verifier::reject_recursive_types(S)]
pub struct ExLinkedHashSet<T, S>(LinkedHashSet<T, S>);

/// The items of a set, from the one that was inserted longest ago to the
/// one that was inserted last.
pub uninterp spec fn set_items(set: LinkedHashSet<String, RandomState>) -> Seq<Seq<char>>;

/// The test that every item but `value` passes.
pub open spec fn is_not(value: Seq<char>) -> spec_fn(Seq<char>) -> bool {
    |item: Seq<char>| item != value
}

/// `items` after `value` is inserted at its end: where it stood before, it
/// stands no more.
pub open spec fn insert_last(items: Seq<Seq<char>>, value: Seq<char>) -> Seq<Seq<char>> {
    items.filter(is_not(value)).push(value)
}

/// `LinkedHashSet::new`: a set without items.
#[verifier::external_body]
pub(crate) fn set_new() -> (r: LinkedHashSet<String, RandomState>)
    ensures
        set_items(r) == Seq::<Seq<char>>::empty(),
{
    LinkedHashSet::new()
}

/// `LinkedHashSet::contains`: whether `value` is one of the items.
#[verifier::external_body]
pub(crate) fn set_contains(set: &LinkedHashSet<String, RandomState>, value: &String) -> (r: bool)
    ensures
        r == set_items(*set).contains(value@),
{
    set.contains(value)
}

/// `LinkedHashSet::insert`: `value` becomes the last item, whether the set
/// held it or not, and the other items keep their order. The result says
/// whether the set did not hold it.
#[verifier::external_body]
pub(crate) fn set_insert(set: &mut LinkedHashSet<String, RandomState>, value: String) -> (r: bool)
    ensures
        set_items(*final(set)) == insert_last(set_items(*old(set)), value@),
        r == !set_items(*old(set)).contains(value@),
{
    set.insert(value)
}

/// `LinkedHashSet::iter`: the items in their order, each one copied.
#[verifier::external_body]
pub(crate) fn set_to_vec(set: &LinkedHashSet<String, RandomState>) -> (r: Vec<String>)
    ensures
        r.deep_view() == set_items(*set),
{
    set.iter().map(|item| item.to_string()).collect()
}

} // verus!
