//! What a caller hands to the operations that work on many records.

use vstd::prelude::*;

verus! {

/// What `find_many` and `find_one` look for, and in which order they return
/// it.
///
/// `matcher` is a predicate on a record; without one every record is taken.
/// `order` compares two records; without one the records come in the order
/// in which the store walks them.
pub struct FindArguments<M, O> {
    pub matcher: Option<M>,
    pub order: Option<O>,
}

impl<M, O> Default for FindArguments<M, O> {
    fn default() -> (args: Self)
        ensures
            args.matcher is None,
            args.order is None,
    {
        FindArguments { matcher: None, order: None }
    }
}

/// Which records `update_many` changes, and how.
///
/// `matcher` is a predicate on a record; without one every record is taken.
/// `updater` gives, for a record, the record that replaces it; without one
/// the records stay as they are.
pub struct UpdateArguments<M, U> {
    pub matcher: Option<M>,
    pub updater: Option<U>,
}

impl<M, U> Default for UpdateArguments<M, U> {
    fn default() -> (args: Self)
        ensures
            args.matcher is None,
            args.updater is None,
    {
        UpdateArguments { matcher: None, updater: None }
    }
}

} // verus!
