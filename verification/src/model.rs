//! The vocabulary in which the contracts of the store are written.

use vstd::prelude::*;
use vstd::std_specs::hash::obeys_key_model;

use crate::args::UpdateArguments;
use crate::errors::Error;
use crate::identifier::Identifier;

verus! {

/// Whether keys of type `K` behave as plain values: equal keys are the same
/// key to a hash table, and a clone of a key is that key.
pub open spec fn plain_keys<K: Clone>() -> bool {
    &&& obeys_key_model::<K>()
    &&& forall|a: K, b: K| #[trigger] cloned(a, b) ==> a == b
}

/// Whether `find_by_id`, asked for `id` among `records`, may return `found`:
/// a clone of the record under `id`, if there is one.
pub open spec fn found_by_id<K, V: Clone>(
    records: Map<K, V>,
    id: K,
    found: Option<V>,
) -> bool {
    match found {
        Some(value) => records.contains_key(id) && cloned(records[id], value),
        None => !records.contains_key(id),
    }
}

/// Whether `matcher`, asked about `value`, may answer `verdict`. Without a
/// matcher every value is taken.
pub open spec fn selects<V, M: Fn(&V) -> bool>(
    matcher: Option<M>,
    value: V,
    verdict: bool,
) -> bool {
    match matcher {
        Some(accept) => call_ensures(accept, (&value,), verdict),
        None => verdict,
    }
}

/// Whether `matcher` can be asked about every record of `records`.
pub open spec fn can_select<K, V, M: Fn(&V) -> bool>(
    matcher: Option<M>,
    records: Map<K, V>,
) -> bool {
    matcher matches Some(accept) ==> forall|key: K| #[trigger]
        records.contains_key(key) ==> call_requires(accept, (&records[key],))
}

/// Whether `picked` is a selection that `matcher` may make among `records`:
/// it lists, each once, the keys of records that the matcher took, and the
/// matcher turned down every record it does not list.
pub open spec fn is_selection<K, V, M: Fn(&V) -> bool>(
    records: Map<K, V>,
    matcher: Option<M>,
    picked: Seq<K>,
) -> bool {
    &&& picked.no_duplicates()
    &&& forall|i: int|
        0 <= i < picked.len() ==> records.contains_key(#[trigger] picked[i]) && selects(
            matcher,
            records[picked[i]],
            true,
        )
    &&& forall|key: K| #[trigger]
        records.contains_key(key) && !picked.contains(key) ==> selects(
            matcher,
            records[key],
            false,
        )
}

/// Whether `updater`, given the record `before`, may give `after` to replace
/// it. Without an updater a record stays as it is.
pub open spec fn revises<V, U: Fn(&V) -> V>(updater: Option<U>, before: V, after: V) -> bool {
    match updater {
        Some(revise) => call_ensures(revise, (&before,), after),
        None => after == before,
    }
}

/// Whether `updater` can be given every record of `records`.
pub open spec fn can_revise<K, V, U: Fn(&V) -> V>(
    updater: Option<U>,
    records: Map<K, V>,
) -> bool {
    updater matches Some(revise) ==> forall|key: K| #[trigger]
        records.contains_key(key) ==> call_requires(revise, (&records[key],))
}

/// Whether the record `batch[i]` cannot be stored beside `rest` and the
/// records of `batch` before it: one of them has its key.
pub open spec fn clashes<K, V>(rest: Map<K, V>, batch: Seq<(K, V)>, i: int) -> bool {
    ||| rest.contains_key(batch[i].0)
    ||| exists|j: int| 0 <= j < i && (#[trigger] batch[j]).0 == batch[i].0
}

/// The keys of the records of `batch`.
pub open spec fn keys_of<K, V>(batch: Seq<(K, V)>) -> Set<K> {
    Set::new(|key: K| exists|i: int| 0 <= i < batch.len() && (#[trigger] batch[i]).0 == key)
}

/// Whether none of the first `n` records of `batch` clashes.
pub open spec fn fits<K, V>(rest: Map<K, V>, batch: Seq<(K, V)>, n: int) -> bool {
    forall|i: int| 0 <= i < n ==> !#[trigger] clashes(rest, batch, i)
}

/// Whether `after` holds the records of `rest` and those of `batch`, each
/// under its key, and nothing else.
pub open spec fn extends<K, V>(rest: Map<K, V>, batch: Seq<(K, V)>, after: Map<K, V>) -> bool {
    &&& forall|key: K| #[trigger]
        after.contains_key(key) <==> rest.contains_key(key) || keys_of(batch).contains(key)
    &&& forall|key: K| #[trigger] rest.contains_key(key) ==> after[key] == rest[key]
    &&& forall|i: int| 0 <= i < batch.len() ==> after[(#[trigger] batch[i]).0] == batch[i].1
}

/// Whether the strategy may have handed out, one after the other, the key of
/// each record of `batch` for the value of that record, being in the state
/// `chain[i]` before it handed out the key of `batch[i]` and in the state
/// `chain[i + 1]` after it.
pub open spec fn issues_each<V, I: Identifier<V>>(chain: Seq<I>, batch: Seq<(I::Id, V)>) -> bool {
    &&& chain.len() == batch.len() + 1
    &&& forall|i: int|
        0 <= i < batch.len() ==> chain[i].issues(
            &batch[i].1,
            (#[trigger] batch[i]).0,
            &chain[i + 1],
        )
}

/// Whether the strategy, starting as `start`, may have given the values of
/// `values` their keys one after the other, up to the first whose key clashes
/// beside `rest`: `batch` holds the values that got a key, each with its key,
/// `chain` the states that the strategy went through, and `end` is the last
/// of them.
pub open spec fn admits<K, V, I: Identifier<V, Id = K>>(
    rest: Map<K, V>,
    start: I,
    values: Seq<V>,
    batch: Seq<(K, V)>,
    chain: Seq<I>,
    end: I,
) -> bool {
    &&& issues_each(chain, batch)
    &&& chain[0] == start
    &&& chain.last() == end
    &&& batch.len() <= values.len()
    &&& forall|i: int| 0 <= i < batch.len() ==> (#[trigger] batch[i]).1 == values[i]
    &&& fits(rest, batch, batch.len() - 1)
    &&& batch.len() < values.len() ==> batch.len() > 0 && clashes(rest, batch, batch.len() - 1)
}

/// Whether the check that no two values of a batch get the same key, made
/// on `values` with the strategy `start`, may end with `done` and the
/// strategy `end`.
pub open spec fn checked_cardinality<K, V, I: Identifier<V, Id = K>>(
    start: I,
    values: Seq<V>,
    done: Result<(), Error<K>>,
    end: I,
) -> bool {
    exists|batch: Seq<(K, V)>, chain: Seq<I>|
        {
            &&& #[trigger] admits(Map::<K, V>::empty(), start, values, batch, chain, end)
            &&& match done {
                Ok(()) => fits(Map::<K, V>::empty(), batch, batch.len() as int),
                Err(Error::Cardinality { key }) => {
                    &&& batch.len() > 0
                    &&& clashes(Map::<K, V>::empty(), batch, batch.len() - 1)
                    &&& key == batch.last().0
                },
                Err(_) => false,
            }
        }
}

/// Whether storing `values` beside the records `before`, with the strategy
/// `start`, may end with `done`, the records `after` and the strategy `end`.
pub open spec fn stored_many<K, V, I: Identifier<V, Id = K>>(
    before: Map<K, V>,
    start: I,
    values: Seq<V>,
    done: Result<(), Error<K>>,
    after: Map<K, V>,
    end: I,
) -> bool {
    exists|batch: Seq<(K, V)>, chain: Seq<I>|
        {
            &&& #[trigger] admits(before, start, values, batch, chain, end)
            &&& match done {
                Ok(()) => {
                    &&& fits(before, batch, batch.len() as int)
                    &&& extends(before, batch, after)
                },
                Err(Error::Conflict { key }) => {
                    &&& batch.len() > 0
                    &&& clashes(before, batch, batch.len() - 1)
                    &&& key == batch.last().0
                    &&& after == before
                },
                Err(_) => false,
            }
        }
}

/// Whether `insert_many`, called with `values` on the records `before` and
/// the strategy `start`, may end with `done`, the records `after` and the
/// strategy `end`: the batch is first checked for values that get the same
/// key, and stored only if it has none.
pub open spec fn inserted_many<K, V, I: Identifier<V, Id = K>>(
    before: Map<K, V>,
    start: I,
    values: Seq<V>,
    done: Result<(), Error<K>>,
    after: Map<K, V>,
    end: I,
) -> bool {
    exists|check: Result<(), Error<K>>, middle: I|
        {
            &&& #[trigger] checked_cardinality(start, values, check, middle)
            &&& if check is Ok {
                stored_many(before, middle, values, done, after, end)
            } else {
                done == check && after == before && end == middle
            }
        }
}

/// Whether `update_many` may have run as follows on the records `before` and
/// the strategy `start`: the strategy answered `rekeys` when it was asked
/// whether it derives keys from values; the matcher selected `picked`; the
/// records `moved` were made of the selected ones, in that order, up to the
/// first that clashes; the outcome was `done`, with the records `after` and the
/// strategy `end`.
pub open spec fn is_update<K, V, I: Identifier<V, Id = K>, M: Fn(&V) -> bool, U: Fn(&V) -> V>(
    before: Map<K, V>,
    start: I,
    args: UpdateArguments<M, U>,
    rekeys: bool,
    picked: Seq<K>,
    moved: Seq<(K, V)>,
    chain: Seq<I>,
    done: Result<(), Error<K>>,
    after: Map<K, V>,
    end: I,
) -> bool {
    let rest = before.remove_keys(picked.to_set());
    &&& start.reports(rekeys)
    &&& is_selection(before, args.matcher, picked)
    &&& moved.len() <= picked.len()
    &&& forall|i: int|
        0 <= i < moved.len() ==> revises(args.updater, before[picked[i]], (#[trigger] moved[i]).1)
    &&& if rekeys {
        &&& issues_each(chain, moved)
        &&& chain[0] == start
        &&& chain.last() == end
    } else {
        &&& forall|i: int| 0 <= i < moved.len() ==> (#[trigger] moved[i]).0 == picked[i]
        &&& end == start
    }
    &&& fits(rest, moved, moved.len() - 1)
    &&& match done {
        Ok(()) => {
            &&& moved.len() == picked.len()
            &&& fits(rest, moved, moved.len() as int)
            &&& extends(rest, moved, after)
        },
        Err(Error::Conflict { key }) => {
            &&& moved.len() > 0
            &&& clashes(rest, moved, moved.len() - 1)
            &&& key == moved.last().0
            &&& after == before
        },
        Err(_) => false,
    }
}

/// Whether `update_many`, called with `args` on the records `before` and the
/// strategy `start`, may end with `done`, the records `after` and the strategy
/// `end`.
pub open spec fn updated_many<K, V, I: Identifier<V, Id = K>, M: Fn(&V) -> bool, U: Fn(&V) -> V>(
    before: Map<K, V>,
    start: I,
    args: UpdateArguments<M, U>,
    done: Result<(), Error<K>>,
    after: Map<K, V>,
    end: I,
) -> bool {
    exists|rekeys: bool, picked: Seq<K>, moved: Seq<(K, V)>, chain: Seq<I>|
        is_update(before, start, args, rekeys, picked, moved, chain, done, after, end)
}

/// Whether `copies` holds a clone of each record that `picked` lists, in that
/// order, and `picked` is a selection that `matcher` may make among
/// `records`.
pub open spec fn copies_selection<K, V: Clone, M: Fn(&V) -> bool>(
    records: Map<K, V>,
    matcher: Option<M>,
    picked: Seq<K>,
    copies: Seq<V>,
) -> bool {
    &&& is_selection(records, matcher, picked)
    &&& copies.len() == picked.len()
    &&& forall|i: int| 0 <= i < picked.len() ==> cloned(records[picked[i]], #[trigger] copies[i])
}

/// Whether `delete_many`, called with `matcher` on the records `before`, may
/// return `removed` and leave the records `after`.
pub open spec fn deleted_many<K, V, M: Fn(&V) -> bool>(
    before: Map<K, V>,
    matcher: M,
    removed: Seq<Option<V>>,
    after: Map<K, V>,
) -> bool {
    exists|picked: Seq<K>|
        {
            &&& #[trigger] is_selection(before, Some(matcher), picked)
            &&& after == before.remove_keys(picked.to_set())
            &&& removed.len() == picked.len()
            &&& forall|i: int|
                0 <= i < picked.len() ==> #[trigger] removed[i] == Some(before[picked[i]])
        }
}

} // verus!
