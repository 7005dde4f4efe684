//! The shapes in which a key is handed to a lookup: owned, so that an
//! insertion can keep it, or borrowed, so that a miss costs nothing.

use vstd::prelude::*;
use vstd::std_specs::cmp::PartialEqSpec;

verus! {

/// Equal keys are the same key: `==` on `K` decides identity. The cache
/// finds a key by comparing with `==`, and its contracts speak of the key
/// that was found as of the key that was asked for.
pub open spec fn obeys_key_eq<K: PartialEq>() -> bool {
    &&& K::obeys_eq_spec()
    &&& forall|a: K, b: K| #[trigger] a.eq_spec(&b) <==> a == b
}

/// What can be used to look an entry up.
pub trait Key: Sized {
    /// The type of the keys that it is compared with.
    type Key;

    /// The key that it stands for; each shape of lookup key says which.
    open spec fn spec_ref(&self) -> Self::Key {
        arbitrary()
    }

    /// The key to compare with.
    fn as_ref(this: &Self) -> (r: &Self::Key)
        ensures
            *r == this.spec_ref(),
    ;
}

/// A lookup key that can become the key of a new entry.
pub trait InsertionKey<K>: Key<Key = K> + Sized {
    /// The key to keep: the key that was looked up.
    fn into_owned(this: Self) -> (r: K)
        ensures
            r == this.spec_ref(),
    ;
}

/// A key that is handed over: an insertion keeps it as it is.
#[derive(Debug, Hash, PartialEq, Eq)]
pub struct OwnedKey<K>(pub K);

impl<K> Key for OwnedKey<K> {
    type Key = K;

    open spec fn spec_ref(&self) -> K {
        self.0
    }

    fn as_ref(this: &Self) -> (r: &K) {
        &this.0
    }
}

impl<K> InsertionKey<K> for OwnedKey<K> {
    fn into_owned(this: Self) -> (r: K) {
        this.0
    }
}

/// A key that is only lent: enough to find an entry, to read it, to change
/// it and to remove it.
#[derive(Debug, Hash, PartialEq, Eq)]
pub struct BorrowedKey<'a, K>(pub &'a K);

impl<'a, K> Key for BorrowedKey<'a, K> {
    type Key = K;

    open spec fn spec_ref(&self) -> K {
        *self.0
    }

    fn as_ref(this: &Self) -> (r: &K) {
        this.0
    }
}

/// A key that is only lent can become the key of a new entry where keys are
/// copied: the new entry holds a copy of it.
impl<'a, K: Copy> InsertionKey<K> for BorrowedKey<'a, K> {
    fn into_owned(this: Self) -> (r: K) {
        *this.0
    }
}

} // verus!
