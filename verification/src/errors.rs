//! The failures a store operation can report.

use vstd::prelude::*;

verus! {

/// Why a store operation was rejected.
///
/// Every rejected operation leaves the store as it found it. The variants that
/// concern a key carry that key, so that a caller can render it.
#[derive(Debug, PartialEq, Eq)]
pub enum Error<K> {
    /// The write would have given two records the same key.
    Conflict { key: K },
    /// The update addressed a key that the store does not hold.
    KeyNotFound { key: K },
    /// Two values of one batch were given the same key.
    Cardinality { key: K },
    /// Exclusive access to the store could not be had.
    Locking { message: String },
}

/// The failure that reports `message` as the reason why the store could not be
/// locked.
pub fn locking<K>(message: String) -> (e: Error<K>)
    ensures
        e == (Error::<K>::Locking { message }),
{
    Error::Locking { message }
}

} // verus!
