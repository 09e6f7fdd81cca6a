//! What the operations that find many records return.

use std::cmp::Ordering;
use vstd::prelude::*;

use crate::args::FindArguments;
use crate::model::copies_selection;
use crate::sorting::is_stable_sort;

verus! {

/// Whether `order` can be asked to compare any two records.
pub open spec fn can_order<T, O: Fn(&T, &T) -> Ordering>(order: Option<O>) -> bool {
    order matches Some(compare) ==> forall|a: &T, b: &T| call_requires(compare, (a, b))
}

/// Whether `found` holds the records of `copies` as `order` arranges them:
/// sorted, or as they stand where there is no order.
pub open spec fn arranged<T, O: Fn(&T, &T) -> Ordering>(
    copies: Seq<T>,
    order: Option<O>,
    found: Seq<T>,
) -> bool {
    match order {
        Some(compare) => is_stable_sort(copies, compare, found),
        None => found == copies,
    }
}

/// Whether `find_many`, called with `args` on `records`, may return `found`:
/// a clone of each record that the matcher takes, in the order in which
/// the store walks them or, where `args` has an order, sorted by it.
pub open spec fn finds<K, V: Clone, M: Fn(&V) -> bool, O: Fn(&V, &V) -> Ordering>(
    records: Map<K, V>,
    args: FindArguments<M, O>,
    found: Seq<V>,
) -> bool {
    exists|picked: Seq<K>, copies: Seq<V>|
        {
            &&& #[trigger] copies_selection(records, args.matcher, picked, copies)
            &&& arranged(copies, args.order, found)
        }
}

/// Whether `find_one`, called with `args` on `records`, may return `first`:
/// the first of what `find_many` finds, if it finds anything.
pub open spec fn finds_first<K, V: Clone, M: Fn(&V) -> bool, O: Fn(&V, &V) -> Ordering>(
    records: Map<K, V>,
    args: FindArguments<M, O>,
    first: Option<V>,
) -> bool {
    exists|found: Seq<V>|
        {
            &&& #[trigger] finds(records, args, found)
            &&& first == if found.len() == 0 {
                None
            } else {
                Some(found[0])
            }
        }
}

} // verus!
