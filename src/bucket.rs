//! The frequency buckets: insertion-ordered key sets from `linked_hash_set`.
use linked_hash_set::LinkedHashSet;
use vstd::prelude::*;

verus! {

#[verifier::external_type_specification]
#[verifier::external_body]
#[verifier::reject_recursive_types(T)]
#[verifier::reject_recursive_types(S)]
pub struct ExLinkedHashSet<T, S>(LinkedHashSet<T, S>);

/// The keys a bucket holds, oldest first.
pub uninterp spec fn bucket_keys(b: LinkedHashSet<i32>) -> Seq<i32>;

/// Relies on `LinkedHashSet::new`: a new set is empty.
#[verifier::external_body]
pub(crate) fn bucket_new() -> (r: LinkedHashSet<i32>)
    ensures
        bucket_keys(r) == Seq::<i32>::empty(),
{
    LinkedHashSet::new()
}

/// Relies on `LinkedHashSet::insert`: a value not yet present is placed at
/// the end of the ordering.
#[verifier::external_body]
pub(crate) fn bucket_push(b: &mut LinkedHashSet<i32>, k: i32)
    requires
        !bucket_keys(*old(b)).contains(k),
    ensures
        bucket_keys(*final(b)) == bucket_keys(*old(b)).push(k),
{
    b.insert(k);
}

/// Relies on `LinkedHashSet::remove`: the value leaves the set, the order of
/// the others is kept, and the result says whether it was there.
#[verifier::external_body]
pub(crate) fn bucket_remove(b: &mut LinkedHashSet<i32>, k: i32) -> (r: bool)
    requires
        bucket_keys(*old(b)).no_duplicates(),
    ensures
        r == bucket_keys(*old(b)).contains(k),
        r ==> bucket_keys(*final(b)) == bucket_keys(*old(b)).remove(
            bucket_keys(*old(b)).index_of(k),
        ),
        !r ==> bucket_keys(*final(b)) == bucket_keys(*old(b)),
{
    b.remove(&k)
}

/// Relies on `LinkedHashSet::pop_front`: removes and returns the oldest value.
#[verifier::external_body]
pub(crate) fn bucket_pop_front(b: &mut LinkedHashSet<i32>) -> (r: Option<i32>)
    ensures
        bucket_keys(*old(b)).len() == 0 ==> r is None && bucket_keys(*final(b)) == bucket_keys(
            *old(b),
        ),
        bucket_keys(*old(b)).len() > 0 ==> r == Some(bucket_keys(*old(b))[0]) && bucket_keys(
            *final(b),
        ) == bucket_keys(*old(b)).drop_first(),
{
    b.pop_front()
}

/// Relies on `LinkedHashSet::front`: the oldest value, if any.
#[verifier::external_body]
pub(crate) fn bucket_front(b: &LinkedHashSet<i32>) -> (r: Option<i32>)
    ensures
        bucket_keys(*b).len() == 0 ==> r is None,
        bucket_keys(*b).len() > 0 ==> r == Some(bucket_keys(*b)[0]),
{
    b.front().copied()
}

/// Relies on `LinkedHashSet::is_empty`.
#[verifier::external_body]
pub(crate) fn bucket_is_empty(b: &LinkedHashSet<i32>) -> (r: bool)
    ensures
        r == (bucket_keys(*b).len() == 0),
{
    b.is_empty()
}

} // verus!
