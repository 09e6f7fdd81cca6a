use std::cmp::Ordering;
use std::collections::HashMap;

use fake_db::args::{FindArguments, UpdateArguments};
use fake_db::errors::Error;
use fake_db::identifier::Identifier;
use fake_db::FakeDb;

#[derive(Clone, Debug, PartialEq)]
struct Land {
    id: u32,
    name: &'static str,
}

struct LandId;

impl Identifier<Land> for LandId {
    type Id = u32;

    fn new_id(&mut self, value: &Land) -> u32 {
        value.id
    }

    fn is_autogenerated(&self) -> bool {
        true
    }
}

type NoMatcher = fn(&Land) -> bool;
type NoOrder = fn(&Land, &Land) -> Ordering;
type NoUpdater = fn(&Land) -> Land;

fn land(id: u32, name: &'static str) -> Land {
    Land { id, name }
}

fn store(lands: Vec<Land>) -> FakeDb<u32, Land, LandId> {
    let storage: HashMap<u32, Land> = lands.into_iter().map(|l| (l.id, l)).collect();
    FakeDb::with_storage(LandId, storage)
}

fn by_id(a: &Land, b: &Land) -> Ordering {
    a.id.cmp(&b.id)
}

fn all_sorted(db: &FakeDb<u32, Land, LandId>) -> Vec<Land> {
    db.find_many(FindArguments {
        matcher: None::<NoMatcher>,
        order: Some(by_id),
    })
}

#[test]
fn test_insert_then_find() {
    let mut db = FakeDb::new(LandId);

    assert_eq!(db.insert(land(7, "Kazakhstan")), Ok(()));

    assert_eq!(db.find_by_id(&7), Some(land(7, "Kazakhstan")));
}

#[test]
fn test_failed_batch_leaves_the_store_alone() {
    let mut db = store(vec![land(49, "Germany")]);

    assert_eq!(db.insert_many(vec![land(39, "Italy")]), Ok(()));
    assert_eq!(
        db.insert_many(vec![land(39, "Italy"), land(39, "Italy")]),
        Err(Error::Cardinality { key: 39 })
    );

    assert_eq!(all_sorted(&db), vec![land(39, "Italy"), land(49, "Germany")]);
}

#[test]
fn test_failed_update_of_many_leaves_the_store_alone() {
    let mut db = store(vec![land(51, "Peru"), land(56, "Chile"), land(506, "Costa Rica")]);

    let done = db.update_many(UpdateArguments {
        matcher: Some(|l: &Land| l.id < 506),
        updater: Some(|l: &Land| land(51, l.name)),
    });

    assert_eq!(done, Err(Error::Conflict { key: 51 }));
    assert_eq!(
        all_sorted(&db),
        vec![land(51, "Peru"), land(56, "Chile"), land(506, "Costa Rica")]
    );
}

#[test]
fn test_delete_returns_the_record_and_frees_the_key() {
    let mut db = store(vec![land(90, "Turkey"), land(30, "Greece")]);

    assert_eq!(db.delete_by_id(&90), Some(land(90, "Turkey")));

    assert_eq!(db.find_by_id(&90), None);
    assert_eq!(db.find_by_id(&30), Some(land(30, "Greece")));
    assert_eq!(db.delete_by_id(&90), None);
}

#[test]
fn test_keys_stay_unique_over_many_inserts() {
    let mut db = FakeDb::new(LandId);
    let batches: Vec<Vec<u32>> = vec![
        vec![1, 2, 3],
        vec![3, 4],
        vec![5, 5],
        vec![6],
        vec![2],
        vec![7, 8],
    ];
    let mut expected: Vec<u32> = Vec::new();

    for batch in batches {
        let lands: Vec<Land> = batch.iter().map(|id| land(*id, "x")).collect();
        if db.insert_many(lands).is_ok() {
            expected.extend(batch);
        }
        let ids: Vec<u32> = all_sorted(&db).iter().map(|l| l.id).collect();
        let mut unique = ids.clone();
        unique.dedup();
        assert_eq!(ids, unique);
        let mut wanted = expected.clone();
        wanted.sort();
        assert_eq!(ids, wanted);
    }

    assert_eq!(expected, vec![1, 2, 3, 6, 7, 8]);
}

#[test]
fn test_batch_that_meets_a_stored_key_changes_nothing() {
    let mut db = store(vec![land(1, "one"), land(2, "two")]);

    let done = db.insert_many(vec![land(3, "three"), land(2, "zwei"), land(4, "four")]);

    assert_eq!(done, Err(Error::Conflict { key: 2 }));
    assert_eq!(all_sorted(&db), vec![land(1, "one"), land(2, "two")]);
}

#[test]
fn test_round_trip() {
    let mut db = store(vec![land(1, "one")]);
    let value = land(2, "two");

    assert_eq!(db.insert(value.clone()), Ok(()));
    assert_eq!(db.find_by_id(&2), Some(value.clone()));
    assert_eq!(db.delete_by_id(&2), Some(value));
    assert_eq!(db.find_by_id(&2), None);
    assert_eq!(all_sorted(&db), vec![land(1, "one")]);
}

#[test]
fn test_update_of_many_gives_new_keys() {
    let mut db = store(vec![land(1, "one"), land(2, "two"), land(9, "nine")]);

    let done = db.update_many(UpdateArguments {
        matcher: Some(|l: &Land| l.id < 9),
        updater: Some(|l: &Land| land(l.id + 10, l.name)),
    });

    assert_eq!(done, Ok(()));
    assert_eq!(
        all_sorted(&db),
        vec![land(9, "nine"), land(11, "one"), land(12, "two")]
    );
}

#[test]
fn test_update_of_many_may_exchange_keys() {
    let mut db = store(vec![land(1, "one"), land(2, "two")]);

    let done = db.update_many(UpdateArguments {
        matcher: None::<NoMatcher>,
        updater: Some(|l: &Land| land(3 - l.id, l.name)),
    });

    assert_eq!(done, Ok(()));
    assert_eq!(all_sorted(&db), vec![land(1, "two"), land(2, "one")]);
}

#[test]
fn test_update_of_many_meets_a_record_that_stays() {
    let mut db = store(vec![land(1, "one"), land(2, "two")]);

    let done = db.update_many(UpdateArguments {
        matcher: Some(|l: &Land| l.id == 1),
        updater: Some(|l: &Land| land(2, l.name)),
    });

    assert_eq!(done, Err(Error::Conflict { key: 2 }));
    assert_eq!(all_sorted(&db), vec![land(1, "one"), land(2, "two")]);
}

#[test]
fn test_update_of_many_without_arguments_keeps_the_records() {
    let mut db = store(vec![land(1, "one"), land(2, "two")]);

    let done = db.update_many(UpdateArguments::<NoMatcher, NoUpdater>::default());

    assert_eq!(done, Ok(()));
    assert_eq!(all_sorted(&db), vec![land(1, "one"), land(2, "two")]);
}

#[test]
fn test_update_of_many_on_an_empty_store() {
    let mut db = store(vec![]);

    let done = db.update_many(UpdateArguments {
        matcher: None::<NoMatcher>,
        updater: Some(|l: &Land| land(1, l.name)),
    });

    assert_eq!(done, Ok(()));
    assert_eq!(all_sorted(&db), vec![]);
}

#[test]
fn test_delete_many_returns_what_it_removed() {
    let mut db = store(vec![land(242, "Congo"), land(243, "DR Congo"), land(250, "Rwanda")]);

    let mut removed = db.delete_many(|l: &Land| l.id < 250);

    removed.sort_by(|a, b| a.as_ref().map(|l| l.id).cmp(&b.as_ref().map(|l| l.id)));
    assert_eq!(
        removed,
        vec![Some(land(242, "Congo")), Some(land(243, "DR Congo"))]
    );
    assert_eq!(all_sorted(&db), vec![land(250, "Rwanda")]);
}

#[test]
fn test_delete_many_that_takes_nothing() {
    let mut db = store(vec![land(250, "Rwanda")]);

    let removed = db.delete_many(|l: &Land| l.id < 250);

    assert_eq!(removed, vec![]);
    assert_eq!(all_sorted(&db), vec![land(250, "Rwanda")]);
}

#[test]
fn test_find_many_without_arguments_returns_every_record() {
    let db = store(vec![land(3, "three"), land(1, "one"), land(2, "two")]);

    let mut found = db.find_many(FindArguments::<NoMatcher, NoOrder>::default());

    found.sort_by(by_id);
    assert_eq!(found, vec![land(1, "one"), land(2, "two"), land(3, "three")]);
}

#[test]
fn test_find_many_in_descending_order() {
    let db = store(vec![land(3, "three"), land(1, "one"), land(2, "two")]);

    let found = db.find_many(FindArguments {
        matcher: Some(|l: &Land| l.id != 2),
        order: Some(|a: &Land, b: &Land| b.id.cmp(&a.id)),
    });

    assert_eq!(found, vec![land(3, "three"), land(1, "one")]);
}

#[test]
fn test_find_many_keeps_alike_records_as_the_store_walks_them() {
    let db = store(vec![land(3, "b"), land(1, "a"), land(2, "b"), land(4, "a")]);

    let walked = db.find_many(FindArguments::<NoMatcher, NoOrder>::default());
    let found = db.find_many(FindArguments {
        matcher: None::<NoMatcher>,
        order: Some(|a: &Land, b: &Land| a.name.cmp(b.name)),
    });

    let mut wanted: Vec<Land> = walked.iter().filter(|l| l.name == "a").cloned().collect();
    wanted.extend(walked.iter().filter(|l| l.name == "b").cloned());
    assert_eq!(found, wanted);
}

#[test]
fn test_find_one_returns_the_first_in_order() {
    let db = store(vec![land(3, "three"), land(1, "one"), land(2, "two")]);

    let first = db.find_one(FindArguments {
        matcher: Some(|l: &Land| l.id > 1),
        order: Some(by_id),
    });

    assert_eq!(first, Some(land(2, "two")));
}

#[test]
fn test_find_one_finds_nothing() {
    let db = store(vec![land(3, "three")]);

    let first = db.find_one(FindArguments {
        matcher: Some(|l: &Land| l.id > 3),
        order: None::<NoOrder>,
    });

    assert_eq!(first, None);
}

#[test]
fn test_storage_of_find_many_is_what_find_many_finds() {
    let mut storage: HashMap<u32, Land> = HashMap::new();
    storage.insert(5, land(5, "five"));
    storage.insert(4, land(4, "four"));

    let found = FakeDb::<u32, Land, LandId>::_find_many(
        &storage,
        FindArguments {
            matcher: Some(|l: &Land| l.id == 4),
            order: None::<NoOrder>,
        },
    );

    assert_eq!(found, vec![land(4, "four")]);
}

#[test]
fn test_arguments_default_to_nothing() {
    let find = FindArguments::<NoMatcher, NoOrder>::default();
    let update = UpdateArguments::<NoMatcher, NoUpdater>::default();

    assert!(find.matcher.is_none());
    assert!(find.order.is_none());
    assert!(update.matcher.is_none());
    assert!(update.updater.is_none());
}
