//! What holds of the store whatever is done with it.

use std::cmp::Ordering;
use vstd::prelude::*;

use crate::args::{FindArguments, UpdateArguments};
use crate::errors::Error;
use crate::finding::{arranged, finds};
use crate::identifier::Identifier;
use crate::model::{
    admits, checked_cardinality, clashes, copies_selection, extends, fits, found_by_id,
    inserted_many, is_update, selects, stored_many, updated_many,
};
use crate::sorting::{agrees, in_order, is_total_preorder, rearranges};

verus! {

/// No two records share a key: a batch that was stored holds no key twice
/// and no key that the store had, so that the store has grown by as many
/// records as the batch has.
pub proof fn law_keys_stay_unique<K, V>(rest: Map<K, V>, batch: Seq<(K, V)>, after: Map<K, V>)
    requires
        rest.dom().finite(),
        fits(rest, batch, batch.len() as int),
        extends(rest, batch, after),
    ensures
        forall|i: int| 0 <= i < batch.len() ==> !rest.contains_key((#[trigger] batch[i]).0),
        forall|i: int, j: int|
            0 <= i < j < batch.len() ==> (#[trigger] batch[i]).0 != (#[trigger] batch[j]).0,
        after.dom().finite(),
        after.len() == rest.len() + batch.len(),
    decreases batch.len(),
{
    assert forall|i: int| 0 <= i < batch.len() implies !rest.contains_key(
        (#[trigger] batch[i]).0,
    ) by {
        assert(!clashes(rest, batch, i));
    }
    assert forall|i: int, j: int| 0 <= i < j < batch.len() implies (#[trigger] batch[i]).0 != (
    #[trigger] batch[j]).0 by {
        assert(!clashes(rest, batch, j));
    }
    if batch.len() == 0 {
        assert(after.dom() =~= rest.dom());
    } else {
        let last = batch.last();
        let shorter = batch.drop_last();
        let middle = after.remove(last.0);
        assert forall|i: int| 0 <= i < shorter.len() implies !#[trigger] clashes(
            rest,
            shorter,
            i,
        ) by {
            assert(!clashes(rest, batch, i));
            if exists|j: int| 0 <= j < i && (#[trigger] shorter[j]).0 == shorter[i].0 {
                let j = choose|j: int| 0 <= j < i && (#[trigger] shorter[j]).0 == shorter[i].0;
                assert(batch[j].0 == batch[i].0);
            }
        }
        assert forall|key: K| #[trigger]
            middle.contains_key(key) <==> rest.contains_key(key) || exists|i: int|
                0 <= i < shorter.len() && (#[trigger] shorter[i]).0 == key by {
            if exists|i: int| 0 <= i < shorter.len() && (#[trigger] shorter[i]).0 == key {
                let i = choose|i: int| 0 <= i < shorter.len() && (#[trigger] shorter[i]).0 == key;
                assert(batch[i].0 == key);
            }
            if middle.contains_key(key) && !rest.contains_key(key) {
                let i = choose|i: int| 0 <= i < batch.len() && (#[trigger] batch[i]).0 == key;
                assert(shorter[i].0 == key);
            }
        }
        assert forall|i: int| 0 <= i < shorter.len() implies middle[(#[trigger] shorter[i]).0]
            == shorter[i].1 by {
            assert(batch[i].0 != last.0);
            assert(after[batch[i].0] == batch[i].1);
        }
        law_keys_stay_unique(rest, shorter, middle);
        assert(batch[batch.len() - 1].0 == last.0);
        assert(after.contains_key(last.0));
        assert(after.dom() =~= middle.dom().insert(last.0));
    }
}

/// A batch that is stored gives every value a key of its own: the store
/// keeps the records that it had and has as many more as the batch has
/// values.
pub proof fn law_insert_many_adds_every_value<K, V, I: Identifier<V, Id = K>>(
    before: Map<K, V>,
    start: I,
    values: Seq<V>,
    done: Result<(), Error<K>>,
    after: Map<K, V>,
    end: I,
)
    requires
        before.dom().finite(),
        inserted_many(before, start, values, done, after, end),
        done is Ok,
    ensures
        before.submap_of(after),
        after.dom().finite(),
        after.len() == before.len() + values.len(),
{
    let (check, middle) = choose|check: Result<(), Error<K>>, middle: I|
        {
            &&& #[trigger] checked_cardinality(start, values, check, middle)
            &&& if check is Ok {
                stored_many(before, middle, values, done, after, end)
            } else {
                done == check && after == before && end == middle
            }
        };
    let (batch, chain) = choose|batch: Seq<(K, V)>, chain: Seq<I>|
        {
            &&& #[trigger] admits(before, middle, values, batch, chain, end)
            &&& fits(before, batch, batch.len() as int)
            &&& extends(before, batch, after)
        };
    if batch.len() < values.len() {
        assert(!clashes(before, batch, batch.len() - 1));
    }
    law_keys_stay_unique(before, batch, after);
}

/// The store holds one record under each of its keys: what `find_many` finds
/// without a matcher is as many records as the store has keys.
pub proof fn law_one_record_per_key<K, V: Clone, M: Fn(&V) -> bool, O: Fn(&V, &V) -> Ordering>(
    records: Map<K, V>,
    args: FindArguments<M, O>,
    found: Seq<V>,
)
    requires
        records.dom().finite(),
        args.matcher is None,
        finds(records, args, found),
    ensures
        found.len() == records.len(),
{
    let (picked, copies) = choose|picked: Seq<K>, copies: Seq<V>|
        {
            &&& #[trigger] copies_selection(records, args.matcher, picked, copies)
            &&& arranged(copies, args.order, found)
        };
    assert(found.len() == copies.len());
    assert forall|key: K| records.contains_key(key) implies picked.contains(key) by {
        if !picked.contains(key) {
            assert(selects(args.matcher, records[key], false));
        }
    }
    assert(picked.to_set() =~= records.dom());
    picked.unique_seq_to_set();
}

/// A batch that is turned down leaves the store as it was.
pub proof fn law_insert_many_is_atomic<K, V, I: Identifier<V, Id = K>>(
    before: Map<K, V>,
    start: I,
    values: Seq<V>,
    done: Result<(), Error<K>>,
    after: Map<K, V>,
    end: I,
)
    requires
        inserted_many(before, start, values, done, after, end),
        done is Err,
    ensures
        after == before,
{
}

/// An update of many records that is turned down leaves every record, taken
/// by the matcher or not, under its key and as it was.
pub proof fn law_update_many_rolls_back<
    K,
    V,
    I: Identifier<V, Id = K>,
    M: Fn(&V) -> bool,
    U: Fn(&V) -> V,
>(
    before: Map<K, V>,
    start: I,
    args: UpdateArguments<M, U>,
    done: Result<(), Error<K>>,
    after: Map<K, V>,
    end: I,
)
    requires
        updated_many(before, start, args, done, after, end),
        done is Err,
    ensures
        after == before,
{
}

/// An update of many records that is made loses no record and makes none:
/// the store holds as many records as before.
pub proof fn law_update_many_keeps_the_count<
    K,
    V,
    I: Identifier<V, Id = K>,
    M: Fn(&V) -> bool,
    U: Fn(&V) -> V,
>(
    before: Map<K, V>,
    start: I,
    args: UpdateArguments<M, U>,
    done: Result<(), Error<K>>,
    after: Map<K, V>,
    end: I,
)
    requires
        before.dom().finite(),
        updated_many(before, start, args, done, after, end),
        done is Ok,
    ensures
        after.dom().finite(),
        after.len() == before.len(),
{
    let (rekeys, picked, moved, chain) = choose|
        rekeys: bool,
        picked: Seq<K>,
        moved: Seq<(K, V)>,
        chain: Seq<I>,
    | is_update(before, start, args, rekeys, picked, moved, chain, done, after, end);
    let rest = before.remove_keys(picked.to_set());
    picked.unique_seq_to_set();
    vstd::seq_lib::seq_to_set_is_finite(picked);
    before.lemma_remove_keys_len(picked.to_set());
    assert(rest.dom().finite()) by {
        assert(rest.dom() =~= before.dom().difference(picked.to_set()));
    }
    law_keys_stay_unique(rest, moved, after);
}

/// Under a strategy that leaves the records their keys, an update of many
/// records is always made.
pub proof fn law_update_many_with_kept_keys_is_made<
    K,
    V,
    I: Identifier<V, Id = K>,
    M: Fn(&V) -> bool,
    U: Fn(&V) -> V,
>(
    before: Map<K, V>,
    start: I,
    args: UpdateArguments<M, U>,
    done: Result<(), Error<K>>,
    after: Map<K, V>,
    end: I,
)
    requires
        !start.reports(true),
        updated_many(before, start, args, done, after, end),
    ensures
        done is Ok,
        end == start,
{
    let (rekeys, picked, moved, chain) = choose|
        rekeys: bool,
        picked: Seq<K>,
        moved: Seq<(K, V)>,
        chain: Seq<I>,
    | is_update(before, start, args, rekeys, picked, moved, chain, done, after, end);
    if done is Err {
        let last = moved.len() - 1;
        let rest = before.remove_keys(picked.to_set());
        assert(moved[last].0 == picked[last]);
        assert(picked.to_set().contains(picked[last]));
        if exists|j: int| 0 <= j < last && (#[trigger] moved[j]).0 == moved[last].0 {
            let j = choose|j: int| 0 <= j < last && (#[trigger] moved[j]).0 == moved[last].0;
            assert(picked[j] == picked[last]);
        }
    }
}

/// A record that was stored under a free key is found under that key, as a
/// clone; taken out again, it is the record that comes back, the key is free
/// again, and the store is as it was before.
pub proof fn law_round_trip<K, V: Clone>(
    before: Map<K, V>,
    id: K,
    value: V,
    found: Option<V>,
    found_again: Option<V>,
)
    requires
        !before.contains_key(id),
        found_by_id(before.insert(id, value), id, found),
        found_by_id(before.insert(id, value).remove(id), id, found_again),
    ensures
        found matches Some(copy) && cloned(value, copy),
        before.insert(id, value).contains_key(id),
        before.insert(id, value)[id] == value,
        before.insert(id, value).remove(id) == before,
        found_again is None,
{
    assert(before.insert(id, value).remove(id) =~= before);
}

/// What `find_many` returns for an order that compares by a total preorder
/// stands in that order, and what ranks alike stands as the store walked
/// it.
pub proof fn law_found_in_order<K, V: Clone, M: Fn(&V) -> bool, O: Fn(&V, &V) -> Ordering>(
    records: Map<K, V>,
    args: FindArguments<M, O>,
    found: Seq<V>,
    le: spec_fn(V, V) -> bool,
)
    requires
        finds(records, args, found),
        args.order matches Some(order) && agrees(order, le),
        is_total_preorder(le),
    ensures
        forall|i: int, j: int|
            0 <= i < j < found.len() ==> le(#[trigger] found[i], #[trigger] found[j]),
        exists|walked: Seq<V>, source: Seq<int>|
            #[trigger] rearranges(walked, found, source) && in_order(le, found, source),
{
    let order = args.order->0;
    assert(agrees(order, le));
}

} // verus!
