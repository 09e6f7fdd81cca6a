//! Walking the records of a hash map.

use std::collections::HashMap;
use std::hash::Hash;
use vstd::prelude::*;
use vstd::std_specs::hash::obeys_key_model;
use vstd::std_specs::iter::IteratorSpec;

use crate::model::{
    can_select, clashes, copies_selection, extends, fits, is_selection, plain_keys, selects,
};

verus! {

/// Whether `all` lists the records of `records`, each once.
pub open spec fn walks<K, V>(all: Seq<(&K, &V)>, records: Map<K, V>) -> bool {
    &&& forall|i: int|
        0 <= i < all.len() ==> records.contains_key(*(#[trigger] all[i]).0) && records[*all[i].0]
            == *all[i].1
    &&& forall|i: int, j: int|
        0 <= i < j < all.len() ==> *(#[trigger] all[i]).0 != *(#[trigger] all[j]).0
    &&& forall|key: K| #[trigger]
        records.contains_key(key) ==> exists|i: int|
            0 <= i < all.len() && *(#[trigger] all[i]).0 == key
}

/// What the iterator of a hash map promises of the records `all` that it
/// yields: no record comes twice, each is a record of the map, and each
/// record of the map is among them.
spec fn yields<K, V>(all: Seq<(&K, &V)>, records: Map<K, V>) -> bool {
    &&& all.no_duplicates()
    &&& forall|i: int|
        0 <= i < all.len() ==> records.contains_key(*(#[trigger] all[i]).0) && records[*all[i].0]
            == *all[i].1
    &&& forall|key: K| #[trigger]
        records.contains_key(key) ==> all.contains((&key, &records[key]))
}

/// The records that the iterator of a hash map yields list the records of
/// the map, each once.
proof fn lemma_walk<K, V>(records: Map<K, V>)
    ensures
        forall|all: Seq<(&K, &V)>| #[trigger] yields(all, records) ==> walks(all, records),
{
    assert forall|all: Seq<(&K, &V)>| #[trigger] yields(all, records) implies walks(
        all,
        records,
    ) by {
        assert forall|i: int, j: int| 0 <= i < j < all.len() implies *(#[trigger] all[i]).0 != *(
        #[trigger] all[j]).0 by {
            if *all[i].0 == *all[j].0 {
                assert(all[i] == all[j]);
            }
        }
        assert forall|key: K| #[trigger] records.contains_key(key) implies exists|i: int|
            0 <= i < all.len() && *(#[trigger] all[i]).0 == key by {
            let entry = (&key, &records[key]);
            assert(all.contains(entry));
            let i = choose|i: int| 0 <= i < all.len() && all[i] == entry;
            assert(*all[i].0 == key);
        }
    }
}

/// The records of `storage`, in the order in which the map walks them.
pub(crate) fn entries<'a, K: Eq + Hash, V>(storage: &'a HashMap<K, V>) -> (all: Vec<(&'a K, &'a V)>)
    requires
        obeys_key_model::<K>(),
    ensures
        walks(all@, storage@),
{
    let mut all: Vec<(&'a K, &'a V)> = Vec::new();
    proof {
        lemma_walk(storage@);
    }
    for entry in it: storage.iter()
        invariant
            all@.len() == it.index(),
            forall|i: int| 0 <= i < all@.len() ==> all@[i] == it.seq()[i],
            it.seq() == storage.iter().remaining(),
            it.seq().no_duplicates(),
            it.index() == it.seq().len() ==> walks(all@, storage@),
    {
        all.push(entry);
        proof {
            lemma_walk(storage@);
        }
        assert(it.index() + 1 == it.seq().len() ==> all@ =~= it.seq());
        assert(it.index() + 1 == it.seq().len() ==> yields(all@, storage@));
    }
    all
}

/// The keys of the records that `chosen` lists.
spec fn keys_in<K, V>(chosen: Seq<(&K, &V)>) -> Seq<K> {
    Seq::new(chosen.len(), |i: int| *chosen[i].0)
}

/// The records of `storage` that `matcher` takes.
fn select<'a, K: Eq + Hash, V, M: Fn(&V) -> bool>(
    storage: &'a HashMap<K, V>,
    matcher: &Option<M>,
) -> (chosen: Vec<(&'a K, &'a V)>)
    requires
        obeys_key_model::<K>(),
        can_select(*matcher, storage@),
    ensures
        is_selection(storage@, *matcher, keys_in(chosen@)),
        forall|i: int|
            0 <= i < chosen.len() ==> *(#[trigger] chosen[i]).1 == storage@[*chosen[i].0],
        chosen.len() <= storage@.len(),
{
    let all = entries(storage);
    let mut chosen: Vec<(&'a K, &'a V)> = Vec::new();
    let mut i: usize = 0;
    while i < all.len()
        invariant
            i <= all.len(),
            can_select(*matcher, storage@),
            walks(all@, storage@),
            forall|j: int|
                0 <= j < chosen.len() ==> exists|at: int|
                    0 <= at < i && #[trigger] all[at] == #[trigger] chosen[j],
            keys_in(chosen@).no_duplicates(),
            forall|j: int|
                0 <= j < chosen.len() ==> selects(*matcher, *(#[trigger] chosen[j]).1, true),
            forall|at: int|
                0 <= at < i ==> keys_in(chosen@).contains(*(#[trigger] all[at]).0) || selects(
                    *matcher,
                    *all[at].1,
                    false,
                ),
        decreases all.len() - i,
    {
        let (key, value) = all[i];
        assert(storage@.contains_key(*key));
        let taken = match matcher {
            Some(accept) => accept(value),
            None => true,
        };
        if taken {
            let ghost earlier = keys_in(chosen@);
            chosen.push((key, value));
            let ghost longer = keys_in(chosen@);
            assert(longer =~= earlier.push(*key));
            assert forall|at: int| 0 <= at < i + 1 implies longer.contains(
                *(#[trigger] all[at]).0,
            ) || selects(*matcher, *all[at].1, false) by {
                if at < i {
                    if earlier.contains(*all[at].0) {
                        let j = choose|j: int| 0 <= j < earlier.len() && earlier[j] == *all[at].0;
                        assert(longer[j] == *all[at].0);
                    }
                } else {
                    assert(longer[longer.len() - 1] == *all[at].0);
                }
            }
            assert forall|a: int, b: int| 0 <= a < longer.len() && 0 <= b < longer.len() && a
                != b implies longer[a] != longer[b] by {
                if a < earlier.len() && b < earlier.len() {
                    assert(earlier[a] != earlier[b]);
                } else if a < earlier.len() {
                    let at = choose|at: int| 0 <= at < i && #[trigger] all[at] == chosen[a];
                    assert(*all[at].0 != *all[i as int].0);
                } else {
                    let at = choose|at: int| 0 <= at < i && #[trigger] all[at] == chosen[b];
                    assert(*all[at].0 != *all[i as int].0);
                }
            }
        }
        i = i + 1;
    }
    proof {
        let picked = keys_in(chosen@);
        assert forall|j: int| 0 <= j < picked.len() implies storage@.contains_key(
            #[trigger] picked[j],
        ) && selects(*matcher, storage@[picked[j]], true) by {
            let at = choose|at: int| 0 <= at < all.len() && #[trigger] all[at] == chosen[j];
            assert(selects(*matcher, *chosen[j].1, true));
        }
        assert forall|key: K| #[trigger]
            storage@.contains_key(key) && !picked.contains(key) implies selects(
            *matcher,
            storage@[key],
            false,
        ) by {
            let at = choose|at: int| 0 <= at < all.len() && *(#[trigger] all[at]).0 == key;
            assert(picked.contains(*all[at].0) || selects(*matcher, *all[at].1, false));
        }
        assert forall|j: int| 0 <= j < chosen.len() implies *(#[trigger] chosen[j]).1
            == storage@[*chosen[j].0] by {
            let at = choose|at: int| 0 <= at < all.len() && #[trigger] all[at] == chosen[j];
        }
        lemma_selection_is_short(storage@, *matcher, picked);
    }
    chosen
}

/// The keys of the records of `storage` that `matcher` takes.
pub(crate) fn pick<K: Eq + Hash + Clone, V, M: Fn(&V) -> bool>(
    storage: &HashMap<K, V>,
    matcher: &Option<M>,
) -> (picked: Vec<K>)
    requires
        plain_keys::<K>(),
        can_select(*matcher, storage@),
    ensures
        is_selection(storage@, *matcher, picked@),
        picked.len() <= storage@.len(),
{
    let chosen = select(storage, matcher);
    let mut picked: Vec<K> = Vec::new();
    let mut i: usize = 0;
    while i < chosen.len()
        invariant
            i <= chosen.len(),
            plain_keys::<K>(),
            picked@ == keys_in(chosen@).take(i as int),
        decreases chosen.len() - i,
    {
        let key = chosen[i].0.clone();
        assert(cloned(*chosen[i as int].0, key));
        picked.push(key);
        assert(picked@ =~= keys_in(chosen@).take(i + 1));
        i = i + 1;
    }
    assert(picked@ =~= keys_in(chosen@));
    picked
}

/// A clone of each record of `storage` that `matcher` takes.
pub(crate) fn gather<K: Eq + Hash, V: Clone, M: Fn(&V) -> bool>(
    storage: &HashMap<K, V>,
    matcher: &Option<M>,
) -> (copies: Vec<V>)
    requires
        obeys_key_model::<K>(),
        can_select(*matcher, storage@),
    ensures
        exists|picked: Seq<K>| copies_selection(storage@, *matcher, picked, copies@),
{
    let chosen = select(storage, matcher);
    let mut copies: Vec<V> = Vec::new();
    let mut i: usize = 0;
    while i < chosen.len()
        invariant
            i <= chosen.len(),
            copies.len() == i,
            forall|j: int| 0 <= j < i ==> cloned(*chosen[j].1, #[trigger] copies[j]),
        decreases chosen.len() - i,
    {
        copies.push(chosen[i].1.clone());
        i = i + 1;
    }
    assert(copies_selection(storage@, *matcher, keys_in(chosen@), copies@));
    copies
}

/// The records that are stored where `keys[i]` gets the record `revised[i]`
/// if there is one, and the record `unchanged[i]` if not.
pub open spec fn settled<K, V>(keys: Seq<K>, revised: Seq<Option<V>>, unchanged: Seq<V>) -> Seq<
    (K, V),
> {
    Seq::new(
        keys.len(),
        |i: int|
            (
                keys[i],
                if i < revised.len() && revised[i] is Some {
                    revised[i]->0
                } else {
                    unchanged[i]
                },
            ),
    )
}

/// Takes the records under `keys` out of `storage`.
pub(crate) fn take_out<K: Eq + Hash, V>(storage: &mut HashMap<K, V>, keys: &Vec<K>) -> (taken: Vec<
    V,
>)
    requires
        obeys_key_model::<K>(),
        keys@.no_duplicates(),
        forall|i: int| 0 <= i < keys.len() ==> old(storage)@.contains_key(#[trigger] keys[i]),
    ensures
        final(storage)@ == old(storage)@.remove_keys(keys@.to_set()),
        taken.len() == keys.len(),
        forall|i: int| 0 <= i < keys.len() ==> #[trigger] taken[i] == old(storage)@[keys[i]],
{
    let mut taken: Vec<V> = Vec::new();
    let mut i: usize = 0;
    while i < keys.len()
        invariant
            i <= keys.len(),
            obeys_key_model::<K>(),
            keys@.no_duplicates(),
            taken.len() == i,
            forall|j: int| 0 <= j < i ==> #[trigger] taken[j] == old(storage)@[keys[j]],
            forall|key: K| #[trigger]
                storage@.contains_key(key) <==> old(storage)@.contains_key(key) && !keys@.take(
                    i as int,
                ).contains(key),
            forall|key: K| #[trigger]
                storage@.contains_key(key) ==> storage@[key] == old(storage)@[key],
            forall|j: int| 0 <= j < keys.len() ==> old(storage)@.contains_key(#[trigger] keys[j]),
        decreases keys.len() - i,
    {
        assert(!keys@.take(i as int).contains(keys[i as int]));
        let record = storage.remove(&keys[i]);
        taken.push(record.unwrap());
        let ghost shorter = keys@.take(i as int);
        let ghost longer = keys@.take(i + 1);
        assert forall|key: K| #[trigger]
            storage@.contains_key(key) <==> old(storage)@.contains_key(key) && !longer.contains(
                key,
            ) by {
            if longer.contains(key) {
                let j = choose|j: int| 0 <= j < longer.len() && longer[j] == key;
                if j < i {
                    assert(shorter[j] == key);
                }
            }
            if shorter.contains(key) {
                let j = choose|j: int| 0 <= j < shorter.len() && shorter[j] == key;
                assert(longer[j] == key);
            }
            if key == keys[i as int] {
                assert(longer[i as int] == key);
            }
        }
        i = i + 1;
    }
    assert(keys@.take(i as int) == keys@);
    assert(storage@ =~= old(storage)@.remove_keys(keys@.to_set()));
    taken
}

/// Stores under each key of `keys` its record: the one of `revised` where
/// there is one, else the one of `unchanged`.
pub(crate) fn put_all<K: Eq + Hash, V>(
    storage: &mut HashMap<K, V>,
    keys: Vec<K>,
    revised: Vec<Option<V>>,
    unchanged: Vec<V>,
)
    requires
        obeys_key_model::<K>(),
        keys.len() == unchanged.len(),
        revised.len() <= keys.len(),
        fits(old(storage)@, settled(keys@, revised@, unchanged@), keys.len() as int),
    ensures
        extends(old(storage)@, settled(keys@, revised@, unchanged@), final(storage)@),
{
    let ghost all_keys = keys@;
    let ghost all_revised = revised@;
    let ghost all_unchanged = unchanged@;
    let ghost batch = settled(keys@, revised@, unchanged@);
    let ghost rest = storage@;
    let mut keys = keys;
    let mut revised = revised;
    let mut unchanged = unchanged;
    while keys.len() > 0
        invariant
            obeys_key_model::<K>(),
            keys.len() == unchanged.len(),
            keys.len() <= batch.len(),
            fits(rest, batch, batch.len() as int),
            batch == settled(all_keys, all_revised, all_unchanged),
            all_keys.len() == all_unchanged.len(),
            all_revised.len() <= all_keys.len(),
            keys@ == all_keys.take(keys.len() as int),
            unchanged@ == all_unchanged.take(keys.len() as int),
            revised.len() <= all_revised.len(),
            revised.len() <= keys.len(),
            revised.len() == all_revised.len() || revised.len() == keys.len(),
            revised@ == all_revised.take(revised.len() as int),
            forall|key: K| #[trigger]
                storage@.contains_key(key) <==> rest.contains_key(key) || exists|i: int|
                    keys.len() <= i < batch.len() && (#[trigger] batch[i]).0 == key,
            forall|key: K| #[trigger] rest.contains_key(key) ==> storage@[key] == rest[key],
            forall|i: int|
                keys.len() <= i < batch.len() ==> storage@[(#[trigger] batch[i]).0] == batch[i].1,
        decreases keys.len(),
    {
        let ghost at = keys.len() - 1;
        let key = keys.pop().unwrap();
        let standing = unchanged.pop().unwrap();
        assert(keys@ =~= all_keys.take(keys.len() as int));
        assert(unchanged@ =~= all_unchanged.take(keys.len() as int));
        let record = if revised.len() > keys.len() {
            match revised.pop().unwrap() {
                Some(value) => value,
                None => standing,
            }
        } else {
            standing
        };
        assert(revised@ =~= all_revised.take(revised.len() as int));
        assert(batch[at] == (key, record));
        assert(!clashes(rest, batch, at));
        storage.insert(key, record);
        assert forall|i: int| keys.len() <= i < batch.len() implies storage@[(
        #[trigger] batch[i]).0] == batch[i].1 by {
            if i > at {
                assert(!clashes(rest, batch, i));
                assert(batch[at].0 != batch[i].0);
            }
        }
        assert forall|k: K| #[trigger] rest.contains_key(k) implies storage@[k] == rest[k] by {
            assert(k != key);
        }
    }
    assert(keys.len() == 0);
}

/// Records that were taken out of a store and are put back under their keys
/// leave the store as it was.
pub(crate) proof fn lemma_put_back<K, V>(
    before: Map<K, V>,
    keys: Seq<K>,
    taken: Seq<V>,
    after: Map<K, V>,
)
    requires
        keys.len() == taken.len(),
        forall|i: int| 0 <= i < keys.len() ==> before.contains_key(#[trigger] keys[i]),
        forall|i: int| 0 <= i < keys.len() ==> #[trigger] taken[i] == before[keys[i]],
        extends(
            before.remove_keys(keys.to_set()),
            settled(keys, Seq::<Option<V>>::empty(), taken),
            after,
        ),
    ensures
        after == before,
{
    let rest = before.remove_keys(keys.to_set());
    let batch = settled(keys, Seq::<Option<V>>::empty(), taken);
    assert forall|key: K| after.contains_key(key) <==> before.contains_key(key) by {
        if before.contains_key(key) && !rest.contains_key(key) {
            assert(keys.contains(key));
            let i = choose|i: int| 0 <= i < keys.len() && keys[i] == key;
            assert(batch[i].0 == key);
        }
        if after.contains_key(key) && !rest.contains_key(key) {
            let i = choose|i: int| 0 <= i < batch.len() && (#[trigger] batch[i]).0 == key;
            assert(keys[i] == key);
        }
    }
    assert forall|key: K| before.contains_key(key) implies after[key] == before[key] by {
        if !rest.contains_key(key) {
            assert(keys.contains(key));
            let i = choose|i: int| 0 <= i < keys.len() && keys[i] == key;
            assert(batch[i].0 == key);
            assert(batch[i].1 == taken[i]);
        }
    }
    assert(after =~= before);
}

/// A selection lists no more keys than there are records.
proof fn lemma_selection_is_short<K, V, M: Fn(&V) -> bool>(
    records: Map<K, V>,
    matcher: Option<M>,
    picked: Seq<K>,
)
    requires
        records.dom().finite(),
        is_selection(records, matcher, picked),
    ensures
        picked.len() <= records.len(),
{
    picked.unique_seq_to_set();
    vstd::set_lib::lemma_len_subset(picked.to_set(), records.dom());
}

} // verus!
