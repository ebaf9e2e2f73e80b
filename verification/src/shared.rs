//! The reference-counted pointer that nodes and entries are shared by.
//!
//! Verus looks through an `Arc`: two pointers are equal in a specification when
//! what they point at is equal.
use std::sync::Arc;
use vstd::prelude::*;

verus! {

/// The value behind a pointer.
#[verifier::inline]
pub open spec fn inside<T>(ptr: Arc<T>) -> T {
    *ptr
}

/// `Arc::clone`: another pointer to the same allocation, hence to the same value.
#[verifier::external_body]
pub(crate) fn share<T>(ptr: &Arc<T>) -> (copy: Arc<T>)
    ensures
        copy == *ptr,
{
    Arc::clone(ptr)
}

/// `Arc::ptr_eq`: whether both pointers point to one allocation. One allocation
/// holds one value; two allocations may hold equal values, so a `false` says
/// nothing.
#[verifier::external_body]
pub(crate) fn same_allocation<T>(a: &Arc<T>, b: &Arc<T>) -> (same: bool)
    ensures
        same ==> *a == *b,
{
    Arc::ptr_eq(a, b)
}

/// Whether two places that may be empty are one and the same: two empty ones are,
/// an empty one and a taken one are not, and of two taken ones `one_allocation`
/// says whether what stands in them is one allocation.
pub fn same_place<T>(a: &Option<Arc<T>>, b: &Option<Arc<T>>, one_allocation: bool) -> (same: bool)
    ensures
        same == match (*a, *b) {
            (Some(_), Some(_)) => one_allocation,
            (None, None) => true,
            _ => false,
        },
{
    match (a, b) {
        (Some(_), Some(_)) => one_allocation,
        (None, None) => true,
        _ => false,
    }
}

/// Whether two places that may be empty are one and the same, by a comparison of
/// the pointers where both are taken. The outcome of that comparison is not
/// stated: [`same_place`] says what is made of it.
pub(crate) fn same_root<T>(a: &Option<Arc<T>>, b: &Option<Arc<T>>) -> (same: bool)
    ensures
        same ==> *a == *b,
        *a is None && *b is None ==> same,
        *a is None != *b is None ==> !same,
{
    let one_allocation = match (a, b) {
        (Some(x), Some(y)) => same_allocation(x, y),
        _ => false,
    };
    same_place(a, b, one_allocation)
}

/// `Arc::get_mut`: access to the value in place where no other pointer to it
/// exists, and nothing otherwise. Whether another one exists is not stated.
#[verifier::external_body]
pub(crate) fn unique_mut<T>(ptr: &mut Arc<T>) -> (slot: Option<&mut T>)
    ensures
        match slot {
            Some(value) => *value == **old(ptr) && **final(ptr) == *final(value),
            None => *final(ptr) == *old(ptr),
        },
{
    Arc::get_mut(ptr)
}

/// `Arc::make_mut`: access to the value behind the pointer, which is first
/// replaced by a clone of itself where other pointers to it exist.
#[verifier::external_body]
pub(crate) fn own_mut<T: Clone>(ptr: &mut Arc<T>) -> (slot: &mut T)
    ensures
        cloned(**old(ptr), *slot),
        **final(ptr) == *final(slot),
{
    Arc::make_mut(ptr)
}

/// `Arc::unwrap_or_clone`: the value itself where this is the only pointer to
/// it, and a clone of it otherwise.
#[verifier::external_body]
pub(crate) fn take<T: Clone>(ptr: Arc<T>) -> (value: T)
    ensures
        cloned(*ptr, value),
{
    Arc::unwrap_or_clone(ptr)
}

} // verus!
