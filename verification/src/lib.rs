//! An in-memory store of records under unique keys, to stand in for a
//! database in tests.
//!
//! A [`FakeDb`] holds its records in a hash map. The key of a record comes
//! from a strategy, an [`identifier::Identifier`]: [`identifier::Sequence`]
//! numbers the records, other strategies may read the key off the record.
//! Records are found, changed and removed one by one, by key, or many at a
//! time, by a predicate on the record. A write of many records is made as a
//! whole or not at all.
//!
//! The store is the value `db@`, a map from keys to records, and every
//! operation says what it does to that map. The operations that change the
//! store take it by `&mut`: who shares a store between threads puts it behind
//! a lock, and each operation is then atomic with respect to the others.
//!
//! The closures that a caller hands in, and the strategy, may do as they
//! like. So the contracts speak of what a closure *may* answer, which is what
//! its own contract allows, and of a selection that the matcher *may* make;
//! the order in which the store walks its records is left open in the same
//! way. For closures that always answer alike, and a strategy that says which
//! key it hands out, the contracts say what the store holds afterwards.

use std::cmp::Ordering;
use std::collections::{HashMap, HashSet};
use std::hash::Hash;
use vstd::prelude::*;
use vstd::std_specs::hash::obeys_key_model;

pub mod args;
mod batch;
pub mod errors;
pub mod finding;
pub mod identifier;
pub mod laws;
pub mod model;
pub mod sorting;
mod walk;

use crate::args::{FindArguments, UpdateArguments};
use crate::batch::{assign_keys, lemma_clashes_push, lemma_issues_one_more, lemma_keys_of_push};
use crate::errors::Error;
use crate::finding::{can_order, finds, finds_first};
use crate::identifier::{
    draws, lemma_draws_nothing, lemma_draws_one_more, lemma_draws_twice, lemma_draws_within,
    supplies, Identifier, Sequence,
};
use crate::model::{
    admits, can_revise, can_select, checked_cardinality, clashes, deleted_many, fits,
    found_by_id, inserted_many, is_selection, is_update, issues_each, keys_of, plain_keys, revises,
    stored_many, updated_many,
};
use crate::sorting::sort_by;
use crate::walk::{gather, lemma_put_back, pick, put_all, settled, take_out};

verus! {

/// A store of values of type `V` under keys of type `K`, which the strategy
/// `I` derives.
#[derive(Debug)]
pub struct FakeDb<K, V, I> {
    storage: HashMap<K, V>,
    identifier: I,
}

impl<K, V, I> View for FakeDb<K, V, I> {
    type V = Map<K, V>;

    /// The records that the store holds, each under its key.
    closed spec fn view(&self) -> Map<K, V> {
        self.storage@
    }
}

impl<K, V, I> FakeDb<K, V, I> {
    /// The strategy, in the state in which the store holds it.
    pub closed spec fn identifier(&self) -> I {
        self.identifier
    }
}

impl<K, V, I> FakeDb<K, V, I> where K: Eq + Hash + Clone, V: Clone, I: Identifier<V, Id = K> {
    /// An empty store whose keys come from `identifier`.
    pub fn new(identifier: I) -> (db: Self)
        ensures
            db@ == Map::<K, V>::empty(),
            db.identifier() == identifier,
    {
        FakeDb { storage: HashMap::new(), identifier }
    }

    /// A store that holds the records of `storage`, each under the key it has
    /// there.
    pub fn with_storage(identifier: I, storage: HashMap<K, V>) -> (db: Self)
        ensures
            db@ == storage@,
            db.identifier() == identifier,
    {
        FakeDb { storage, identifier }
    }

    /// The record under `id`, if there is one.
    pub fn find_by_id(&self, id: &K) -> (found: Option<V>)
        requires
            obeys_key_model::<K>(),
        ensures
            found_by_id(self@, *id, found),
    {
        match self.storage.get(id) {
            Some(value) => Some(value.clone()),
            None => None,
        }
    }

    /// A clone of the first record that `find_many` would return, if there is
    /// one.
    pub fn find_one<M: Fn(&V) -> bool, O: Fn(&V, &V) -> Ordering>(
        &self,
        args: FindArguments<M, O>,
    ) -> (first: Option<V>)
        requires
            obeys_key_model::<K>(),
            can_select(args.matcher, self@),
            can_order::<V, O>(args.order),
        ensures
            finds_first(self@, args, first),
    {
        let mut found = self.find_many(args);
        if found.len() == 0 {
            None
        } else {
            Some(found.swap_remove(0))
        }
    }

    /// A clone of every record that the matcher of `args` takes, in the order
    /// of `args`.
    pub fn find_many<M: Fn(&V) -> bool, O: Fn(&V, &V) -> Ordering>(
        &self,
        args: FindArguments<M, O>,
    ) -> (found: Vec<V>)
        requires
            obeys_key_model::<K>(),
            can_select(args.matcher, self@),
            can_order::<V, O>(args.order),
        ensures
            finds(self@, args, found@),
    {
        Self::_find_many(&self.storage, args)
    }

    /// A clone of every record of `storage` that the matcher of `args` takes,
    /// in the order of `args`.
    pub fn _find_many<M: Fn(&V) -> bool, O: Fn(&V, &V) -> Ordering>(
        storage: &HashMap<K, V>,
        args: FindArguments<M, O>,
    ) -> (found: Vec<V>)
        requires
            obeys_key_model::<K>(),
            can_select(args.matcher, storage@),
            can_order::<V, O>(args.order),
        ensures
            finds(storage@, args, found@),
    {
        let mut matches = gather(storage, &args.matcher);
        match &args.order {
            Some(order) => {
                sort_by(&mut matches, order);
            },
            None => {},
        }
        matches
    }

    /// Stores `value` under the key that the strategy gives it, unless a
    /// record has that key already.
    pub fn insert(&mut self, value: V) -> (done: Result<(), Error<K>>)
        requires
            obeys_key_model::<K>(),
            old(self).identifier().can_issue(1),
        ensures
            match done {
                Ok(()) => exists|id: K|
                    {
                        &&& #[trigger] old(self).identifier().issues(
                            &value,
                            id,
                            &final(self).identifier(),
                        )
                        &&& !old(self)@.contains_key(id)
                        &&& final(self)@ == old(self)@.insert(id, value)
                    },
                Err(Error::Conflict { key }) => {
                    &&& old(self).identifier().issues(&value, key, &final(self).identifier())
                    &&& old(self)@.contains_key(key)
                    &&& final(self)@ == old(self)@
                },
                Err(_) => false,
            },
            draws(old(self).identifier(), final(self).identifier(), 1),
    {
        let ghost start = self.identifier;
        proof {
            lemma_draws_nothing(start, 0);
        }
        let id = self.identifier.new_id(&value);
        proof {
            lemma_draws_one_more(start, start, self.identifier, 0);
        }
        self.insert_with_id(id, value)
    }

    /// Stores `value` under `id`, unless a record has that key already.
    pub fn insert_with_id(&mut self, id: K, value: V) -> (done: Result<(), Error<K>>)
        requires
            obeys_key_model::<K>(),
        ensures
            final(self).identifier() == old(self).identifier(),
            old(self)@.contains_key(id) ==> done == Err::<(), Error<K>>(Error::Conflict { key: id })
                && final(self)@ == old(self)@,
            !old(self)@.contains_key(id) ==> done is Ok && final(self)@ == old(self)@.insert(
                id,
                value,
            ),
    {
        if self.storage.contains_key(&id) {
            Err(Error::Conflict { key: id })
        } else {
            self.storage.insert(id, value);
            Ok(())
        }
    }

    /// Stores every value of `values` under the key that the strategy gives
    /// it, or none of them.
    ///
    /// The strategy gives every value a key twice: once for the check that no
    /// two values of the batch get the same key, which fails with
    /// [`Error::Cardinality`], and once to store them, which fails with
    /// [`Error::Conflict`] if a key is taken.
    pub fn insert_many(&mut self, values: Vec<V>) -> (done: Result<(), Error<K>>)
        requires
            plain_keys::<K>(),
            supplies(old(self).identifier(), (2 * values.len()) as nat),
        ensures
            inserted_many(
                old(self)@,
                old(self).identifier(),
                values@,
                done,
                final(self)@,
                final(self).identifier(),
            ),
            draws(old(self).identifier(), final(self).identifier(), (2 * values.len()) as nat),
    {
        let ghost start = self.identifier;
        match self.check_cardinality(values.as_slice()) {
            Err(failure) => {
                proof {
                    lemma_draws_within(
                        start,
                        self.identifier,
                        values.len() as nat,
                        (2 * values.len()) as nat,
                    );
                }
                Err(failure)
            },
            Ok(()) => {
                let ghost middle = self.identifier;
                assert(supplies(middle, values.len() as nat));
                let done = self._insert_many(values);
                proof {
                    lemma_draws_twice(
                        start,
                        middle,
                        self.identifier,
                        values.len() as nat,
                        values.len() as nat,
                    );
                }
                done
            },
        }
    }

    /// Checks that the strategy gives no two values of `values` the same key.
    fn check_cardinality(&mut self, values: &[V]) -> (done: Result<(), Error<K>>)
        requires
            plain_keys::<K>(),
            supplies(old(self).identifier(), values@.len()),
        ensures
            checked_cardinality(old(self).identifier(), values@, done, final(self).identifier()),
            draws(old(self).identifier(), final(self).identifier(), values@.len()),
            final(self)@ == old(self)@,
    {
        let nothing: HashMap<K, V> = HashMap::new();
        match assign_keys(&mut self.identifier, &nothing, values) {
            Ok(_) => Ok(()),
            Err(key) => Err(Error::Cardinality { key }),
        }
    }

    /// Stores every value of `values` under the key that the strategy gives
    /// it, unless one of the keys is taken: then it stores none.
    fn _insert_many(&mut self, values: Vec<V>) -> (done: Result<(), Error<K>>)
        requires
            plain_keys::<K>(),
            supplies(old(self).identifier(), values.len() as nat),
        ensures
            stored_many(
                old(self)@,
                old(self).identifier(),
                values@,
                done,
                final(self)@,
                final(self).identifier(),
            ),
            draws(old(self).identifier(), final(self).identifier(), values.len() as nat),
    {
        match assign_keys(&mut self.identifier, &self.storage, values.as_slice()) {
            Ok(keys) => {
                let ghost staged = settled(keys@, Seq::<Option<V>>::empty(), values@);
                proof {
                    let (batch, chain) = choose|batch: Seq<(K, V)>, chain: Seq<I>|
                        {
                            &&& #[trigger] admits(
                                old(self)@,
                                old(self).identifier(),
                                values@,
                                batch,
                                chain,
                                self.identifier,
                            )
                            &&& fits(old(self)@, batch, batch.len() as int)
                            &&& forall|i: int|
                                0 <= i < keys@.len() ==> #[trigger] keys@[i] == batch[i].0
                        };
                    assert(staged =~= batch);
                }
                put_all(&mut self.storage, keys, Vec::new(), values);
                Ok(())
            },
            Err(key) => Err(Error::Conflict { key }),
        }
    }

    /// Stores `value` in the place of the record that has the key which the
    /// strategy gives it, if there is one.
    pub fn update(&mut self, value: V) -> (done: Result<(), Error<K>>)
        requires
            obeys_key_model::<K>(),
            old(self).identifier().can_issue(1),
        ensures
            match done {
                Ok(()) => exists|id: K|
                    {
                        &&& #[trigger] old(self).identifier().issues(
                            &value,
                            id,
                            &final(self).identifier(),
                        )
                        &&& old(self)@.contains_key(id)
                        &&& final(self)@ == old(self)@.insert(id, value)
                    },
                Err(Error::KeyNotFound { key }) => {
                    &&& old(self).identifier().issues(&value, key, &final(self).identifier())
                    &&& !old(self)@.contains_key(key)
                    &&& final(self)@ == old(self)@
                },
                Err(_) => false,
            },
            draws(old(self).identifier(), final(self).identifier(), 1),
    {
        let ghost start = self.identifier;
        proof {
            lemma_draws_nothing(start, 0);
        }
        let id = self.identifier.new_id(&value);
        proof {
            lemma_draws_one_more(start, start, self.identifier, 0);
        }
        self.update_with_id(id, value)
    }

    /// Stores `value` under `id` in the place of the record that has that
    /// key, if there is one.
    pub fn update_with_id(&mut self, id: K, value: V) -> (done: Result<(), Error<K>>)
        requires
            obeys_key_model::<K>(),
        ensures
            final(self).identifier() == old(self).identifier(),
            old(self)@.contains_key(id) ==> done is Ok && final(self)@ == old(self)@.insert(
                id,
                value,
            ),
            !old(self)@.contains_key(id) ==> done == Err::<(), Error<K>>(
                Error::KeyNotFound { key: id },
            ) && final(self)@ == old(self)@,
    {
        if self.storage.contains_key(&id) {
            self.storage.insert(id, value);
            Ok(())
        } else {
            Err(Error::KeyNotFound { key: id })
        }
    }

    /// Replaces every record that the matcher takes by what the updater makes
    /// of it, under the key that it then has, unless two records would share a
    /// key: then nothing changes.
    ///
    /// A record keeps its key where the strategy does not derive keys from
    /// values; where it does, the strategy gives the new record its key.
    pub fn update_many<M: Fn(&V) -> bool, U: Fn(&V) -> V>(
        &mut self,
        args: UpdateArguments<M, U>,
    ) -> (done: Result<(), Error<K>>)
        requires
            plain_keys::<K>(),
            can_select(args.matcher, old(self)@),
            can_revise(args.updater, old(self)@),
            old(self).identifier().reports(true) ==> supplies(
                old(self).identifier(),
                old(self)@.len(),
            ),
        ensures
            updated_many(
                old(self)@,
                old(self).identifier(),
                args,
                done,
                final(self)@,
                final(self).identifier(),
            ),
            draws(old(self).identifier(), final(self).identifier(), old(self)@.len()),
    {
        let ghost before = self.storage@;
        let ghost start = self.identifier;
        let rekeys = self.identifier.is_autogenerated();
        // The records that the matcher takes leave the store.
        let picked = pick(&self.storage, &args.matcher);
        let taken = take_out(&mut self.storage, &picked);
        let ghost rest = self.storage@;
        let mut new_keys: Vec<K> = Vec::new();
        let mut revised: Vec<Option<V>> = Vec::new();
        let mut staged: HashSet<K> = HashSet::new();
        let ghost mut chain: Seq<I> = seq![self.identifier];
        let ghost mut moved: Seq<(K, V)> = Seq::empty();
        proof {
            lemma_draws_nothing(start, 0);
            assert(keys_of(moved) =~= Set::<K>::empty());
        }
        // Each one is made anew and gets its key, as long as the keys are free.
        let mut i: usize = 0;
        while i < picked.len()
            invariant
                before == old(self)@,
                start == old(self).identifier(),
                i <= picked.len(),
                picked.len() == taken.len(),
                picked.len() <= before.len(),
                plain_keys::<K>(),
                can_revise(args.updater, before),
                is_selection(before, args.matcher, picked@),
                forall|j: int| 0 <= j < picked.len() ==> #[trigger] taken[j] == before[picked[j]],
                rest == before.remove_keys(picked@.to_set()),
                self.storage@ == rest,
                new_keys.len() == i,
                revised.len() == i,
                moved == settled(new_keys@, revised@, taken@),
                start.reports(rekeys),
                rekeys ==> supplies(start, before.len()),
                draws(start, self.identifier, if rekeys { i as nat } else { 0 }),
                forall|j: int|
                    0 <= j < i ==> revises(
                        args.updater,
                        before[picked[j]],
                        (#[trigger] moved[j]).1,
                    ),
                rekeys ==> issues_each(chain, moved) && chain[0] == start && chain.last()
                    == self.identifier,
                !rekeys ==> self.identifier == start && forall|j: int|
                    0 <= j < i ==> (#[trigger] moved[j]).0 == picked[j],
                fits(rest, moved, i as int),
                staged@ == keys_of(moved),
            decreases picked.len() - i,
        {
            let ghost middle = self.identifier;
            let record = match &args.updater {
                Some(revise) => {
                    assert(before.contains_key(picked[i as int]));
                    Some(revise(&taken[i]))
                },
                None => None,
            };
            let ghost value = if record is Some {
                record->0
            } else {
                taken[i as int]
            };
            let new_key = if rekeys {
                assert(supplies(self.identifier, (before.len() - i) as nat));
                assert(self.identifier.can_issue(1));
                let issued = match &record {
                    Some(value) => self.identifier.new_id(value),
                    None => self.identifier.new_id(&taken[i]),
                };
                proof {
                    lemma_issues_one_more(chain, moved, (issued, value), self.identifier);
                    lemma_draws_one_more(start, middle, self.identifier, i as nat);
                    chain = chain.push(self.identifier);
                }
                issued
            } else {
                let kept = picked[i].clone();
                assert(cloned(picked[i as int], kept));
                kept
            };
            proof {
                lemma_clashes_push(rest, moved, (new_key, value));
                lemma_keys_of_push(moved, (new_key, value));
                moved = moved.push((new_key, value));
                assert(fits(rest, moved, i as int));
            }
            if self.storage.contains_key(&new_key) || staged.contains(&new_key) {
                // The key is taken: the records come back as they were.
                let ghost end = self.identifier;
                assert(clashes(rest, moved, i as int));
                put_all(&mut self.storage, picked, Vec::new(), taken);
                proof {
                    lemma_put_back(before, picked@, taken@, self.storage@);
                    lemma_draws_within(
                        start,
                        end,
                        if rekeys { (i + 1) as nat } else { 0 },
                        before.len(),
                    );
                    assert(is_update(
                        before,
                        start,
                        args,
                        rekeys,
                        picked@,
                        moved,
                        chain,
                        Err::<(), Error<K>>(Error::Conflict { key: new_key }),
                        self.storage@,
                        end,
                    ));
                }
                return Err(Error::Conflict { key: new_key });
            }
            assert(!clashes(rest, moved, i as int));
            let copy = new_key.clone();
            assert(cloned(new_key, copy));
            staged.insert(copy);
            new_keys.push(new_key);
            revised.push(record);
            assert(settled(new_keys@, revised@, taken@) =~= moved);
            i = i + 1;
        }
        // Every record has a key of its own: they come back as they are now.
        let ghost end = self.identifier;
        put_all(&mut self.storage, new_keys, revised, taken);
        proof {
            lemma_draws_within(start, end, if rekeys { i as nat } else { 0 }, before.len());
            assert(is_update(
                before,
                start,
                args,
                rekeys,
                picked@,
                moved,
                chain,
                Ok::<(), Error<K>>(()),
                self.storage@,
                end,
            ));
        }
        Ok(())
    }

    /// Takes the record under `id` out of the store, if there is one, and
    /// returns it.
    pub fn delete_by_id(&mut self, id: &K) -> (removed: Option<V>)
        requires
            obeys_key_model::<K>(),
        ensures
            final(self)@ == old(self)@.remove(*id),
            final(self).identifier() == old(self).identifier(),
            removed == if old(self)@.contains_key(*id) {
                Some(old(self)@[*id])
            } else {
                None
            },
    {
        self.storage.remove(id)
    }

    /// Takes every record that `matcher` takes out of the store, and returns
    /// them.
    pub fn delete_many<M: Fn(&V) -> bool>(&mut self, matcher: M) -> (removed: Vec<Option<V>>)
        requires
            plain_keys::<K>(),
            can_select(Some(matcher), old(self)@),
        ensures
            deleted_many(old(self)@, matcher, removed@, final(self)@),
            final(self).identifier() == old(self).identifier(),
    {
        let matcher = Some(matcher);
        let to_remove = pick(&self.storage, &matcher);
        let taken = take_out(&mut self.storage, &to_remove);
        let ghost all = taken@;
        let mut removed: Vec<Option<V>> = Vec::new();
        for record in it: taken
            invariant
                it.seq() == all,
                removed.len() == it.index(),
                forall|j: int| 0 <= j < removed.len() ==> #[trigger] removed[j] == Some(all[j]),
        {
            removed.push(Some(record));
        }
        removed
    }
}

impl<V: Clone> Default for FakeDb<u32, V, Sequence> {
    /// An empty store that numbers its records from 1.
    fn default() -> (db: Self)
        ensures
            db@ == Map::<u32, V>::empty(),
            db.identifier().last() == 0,
    {
        FakeDb::new(Sequence::new())
    }
}

} // verus!
