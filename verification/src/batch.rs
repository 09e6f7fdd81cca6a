//! Giving the values of a batch their keys.

use std::collections::{HashMap, HashSet};
use std::hash::Hash;
use vstd::prelude::*;

use crate::identifier::{
    draws, lemma_draws_nothing, lemma_draws_one_more, lemma_draws_within, supplies, Identifier,
};
use crate::model::{admits, clashes, fits, issues_each, keys_of, plain_keys};

verus! {

/// The keys of a batch with one more record are those of the batch and the
/// key of that record.
pub(crate) proof fn lemma_keys_of_push<K, V>(batch: Seq<(K, V)>, record: (K, V))
    ensures
        keys_of(batch.push(record)) == keys_of(batch).insert(record.0),
{
    let longer = batch.push(record);
    assert forall|key: K| keys_of(longer).contains(key) <==> keys_of(batch).insert(
        record.0,
    ).contains(key) by {
        if keys_of(longer).contains(key) {
            let i = choose|i: int| 0 <= i < longer.len() && (#[trigger] longer[i]).0 == key;
            if i < batch.len() {
                assert(batch[i].0 == key);
            }
        }
        if keys_of(batch).contains(key) {
            let i = choose|i: int| 0 <= i < batch.len() && (#[trigger] batch[i]).0 == key;
            assert(longer[i].0 == key);
        }
        if key == record.0 {
            assert(longer[batch.len() as int].0 == key);
        }
    }
    assert(keys_of(longer) =~= keys_of(batch).insert(record.0));
}

/// A record that is added to a batch clashes where its key is taken, by
/// `rest` or by the batch; the records of the batch clash as they did.
pub(crate) proof fn lemma_clashes_push<K, V>(rest: Map<K, V>, batch: Seq<(K, V)>, record: (K, V))
    ensures
        clashes(rest, batch.push(record), batch.len() as int) <==> rest.contains_key(record.0)
            || keys_of(batch).contains(record.0),
        forall|n: int| 0 <= n <= batch.len() && fits(rest, batch, n) ==> #[trigger] fits(
            rest,
            batch.push(record),
            n,
        ),
{
    let longer = batch.push(record);
    let last = batch.len() as int;
    if exists|j: int| 0 <= j < last && (#[trigger] longer[j]).0 == longer[last].0 {
        let j = choose|j: int| 0 <= j < last && (#[trigger] longer[j]).0 == longer[last].0;
        assert(batch[j].0 == record.0);
    }
    if keys_of(batch).contains(record.0) {
        let j = choose|j: int| 0 <= j < batch.len() && (#[trigger] batch[j]).0 == record.0;
        assert(longer[j].0 == longer[last].0);
    }
    assert forall|n: int| 0 <= n <= batch.len() && fits(rest, batch, n) implies #[trigger] fits(
        rest,
        longer,
        n,
    ) by {
        assert forall|i: int| 0 <= i < n implies !#[trigger] clashes(rest, longer, i) by {
            assert(!clashes(rest, batch, i));
            if exists|j: int| 0 <= j < i && (#[trigger] longer[j]).0 == longer[i].0 {
                let j = choose|j: int| 0 <= j < i && (#[trigger] longer[j]).0 == longer[i].0;
                assert(batch[j].0 == batch[i].0);
            }
        }
    }
}

/// A strategy that went through a batch, and hands out one more key, went
/// through the batch with one more record.
pub(crate) proof fn lemma_issues_one_more<V, I: Identifier<V>>(
    chain: Seq<I>,
    batch: Seq<(I::Id, V)>,
    record: (I::Id, V),
    next: I,
)
    requires
        issues_each(chain, batch),
        chain.last().issues(&record.1, record.0, &next),
    ensures
        issues_each(chain.push(next), batch.push(record)),
{
    let links = chain.push(next);
    let longer = batch.push(record);
    assert forall|i: int| 0 <= i < longer.len() implies links[i].issues(
        &longer[i].1,
        (#[trigger] longer[i]).0,
        &links[i + 1],
    ) by {
        if i < batch.len() {
            assert(chain[i].issues(&batch[i].1, batch[i].0, &chain[i + 1]));
        }
    }
}

/// Gives the values of `values` their keys, one after the other, up to the
/// first whose key is taken by a record of `taken` or by a value before it.
///
/// Returns the keys, or the key that is taken.
pub(crate) fn assign_keys<K: Eq + Hash + Clone, V, I: Identifier<V, Id = K>>(
    identifier: &mut I,
    taken: &HashMap<K, V>,
    values: &[V],
) -> (assigned: Result<Vec<K>, K>)
    requires
        plain_keys::<K>(),
        supplies(*old(identifier), values@.len()),
    ensures
        draws(*old(identifier), *final(identifier), values@.len()),
        exists|batch: Seq<(K, V)>, chain: Seq<I>|
            {
                &&& #[trigger] admits(
                    taken@,
                    *old(identifier),
                    values@,
                    batch,
                    chain,
                    *final(identifier),
                )
                &&& match assigned {
                    Ok(keys) => {
                        &&& fits(taken@, batch, batch.len() as int)
                        &&& keys@.len() == values@.len()
                        &&& forall|i: int|
                            0 <= i < keys@.len() ==> #[trigger] keys@[i] == batch[i].0
                    },
                    Err(key) => {
                        &&& batch.len() > 0
                        &&& clashes(taken@, batch, batch.len() - 1)
                        &&& key == batch.last().0
                    },
                }
            },
{
    let ghost start = *identifier;
    let ghost rest = taken@;
    let mut keys: Vec<K> = Vec::new();
    let mut seen: HashSet<K> = HashSet::new();
    let ghost mut batch: Seq<(K, V)> = Seq::empty();
    let ghost mut chain: Seq<I> = seq![*identifier];
    proof {
        lemma_draws_nothing(start, 0);
        assert(keys_of(batch) =~= Set::<K>::empty());
    }
    let mut i: usize = 0;
    while i < values.len()
        invariant
            start == *old(identifier),
            rest == taken@,
            i <= values.len(),
            plain_keys::<K>(),
            supplies(start, values@.len()),
            draws(start, *identifier, i as nat),
            issues_each(chain, batch),
            chain[0] == start,
            chain.last() == *identifier,
            batch.len() == i,
            keys@.len() == i,
            forall|j: int| 0 <= j < i ==> #[trigger] keys@[j] == batch[j].0,
            forall|j: int| 0 <= j < i ==> (#[trigger] batch[j]).1 == values[j],
            fits(rest, batch, i as int),
            seen@ == keys_of(batch),
        decreases values.len() - i,
    {
        let ghost middle = *identifier;
        assert(supplies(*identifier, (values@.len() - i) as nat));
        assert(identifier.can_issue(1));
        let key = identifier.new_id(&values[i]);
        proof {
            let record = (key, values[i as int]);
            lemma_issues_one_more(chain, batch, record, *identifier);
            lemma_clashes_push(rest, batch, record);
            lemma_keys_of_push(batch, record);
            lemma_draws_one_more(start, middle, *identifier, i as nat);
            batch = batch.push(record);
            chain = chain.push(*identifier);
            assert(fits(rest, batch, i as int));
        }
        if taken.contains_key(&key) || seen.contains(&key) {
            proof {
                assert(clashes(rest, batch, i as int));
                lemma_draws_within(start, *identifier, (i + 1) as nat, values@.len());
                assert(admits(rest, start, values@, batch, chain, *identifier));
            }
            return Err(key);
        }
        assert(!clashes(rest, batch, i as int));
        let copy = key.clone();
        assert(cloned(key, copy));
        seen.insert(copy);
        keys.push(key);
        i = i + 1;
    }
    proof {
        assert(fits(rest, batch, batch.len() - 1)) by {
            assert forall|j: int| 0 <= j < batch.len() - 1 implies !#[trigger] clashes(
                rest,
                batch,
                j,
            ) by {}
        }
        assert(admits(rest, start, values@, batch, chain, *identifier));
    }
    Ok(keys)
}

} // verus!
