//! Keys that can be hashed and compared.
use vstd::prelude::*;

pub use vstd::prelude::View;

verus! {

/// The state of a hasher: what a collection keeps to hash its keys.
pub trait HashState: Sized {
    /// The same state again.
    fn share_state(&self) -> (copy: Self)
        ensures
            copy == *self,
    ;

    /// Tests whether two states are the same, so that they hash alike.
    fn same_state(&self, other: &Self) -> (same: bool)
        ensures
            same == (*self == *other),
    ;
}

/// A type whose values can be hashed by a hasher state of type `S` and tested
/// for equality.
///
/// A key is known by its view: equal views are the same key, and a hash depends
/// on the view and the state alone.
pub trait HashKey<S>: View {
    /// The hash of a key under a state.
    spec fn hash_in(key: <Self as View>::V, state: S) -> u64;

    /// Hashes the key.
    fn hash_with(&self, state: &S) -> (hash: u64)
        ensures
            hash == Self::hash_in(self@, *state),
    ;

    /// Tests whether two keys are the same key.
    fn same_key(&self, other: &Self) -> (same: bool)
        ensures
            same == (self@ == other@),
    ;
}

/// Whether a state may be a default one.
pub open spec fn is_default<S: Default>(state: S) -> bool {
    call_ensures(S::default, (), state)
}

/// Whether every clone of a key is the same key.
pub open spec fn faithful<K: View + Clone>() -> bool {
    forall|key: K, copy: K| #[trigger] cloned(key, copy) ==> copy@ == key@
}

} // verus!
