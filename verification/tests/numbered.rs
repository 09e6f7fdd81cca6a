use std::cmp::Ordering;

use fake_db::args::{FindArguments, UpdateArguments};
use fake_db::errors::Error;
use fake_db::identifier::Sequence;
use fake_db::FakeDb;

type NoMatcher = fn(&String) -> bool;

fn text(s: &str) -> String {
    String::from(s)
}

fn all(db: &FakeDb<u32, String, Sequence>) -> Vec<String> {
    db.find_many(FindArguments {
        matcher: None::<NoMatcher>,
        order: Some(|a: &String, b: &String| a.cmp(b)),
    })
}

#[test]
fn test_default_store_numbers_its_records_from_one() {
    let mut db: FakeDb<u32, String, Sequence> = FakeDb::default();

    assert_eq!(db.insert(text("a")), Ok(()));
    assert_eq!(db.insert(text("b")), Ok(()));
    assert_eq!(db.insert(text("a")), Ok(()));

    assert_eq!(db.find_by_id(&1), Some(text("a")));
    assert_eq!(db.find_by_id(&2), Some(text("b")));
    assert_eq!(db.find_by_id(&3), Some(text("a")));
    assert_eq!(db.find_by_id(&4), None);
    assert_eq!(db.find_by_id(&0), None);
}

#[test]
fn test_default_store_numbers_a_batch_after_the_check() {
    let mut db: FakeDb<u32, String, Sequence> = FakeDb::default();

    assert_eq!(db.insert_many(vec![text("a"), text("b")]), Ok(()));

    assert_eq!(db.find_by_id(&1), None);
    assert_eq!(db.find_by_id(&2), None);
    assert_eq!(db.find_by_id(&3), Some(text("a")));
    assert_eq!(db.find_by_id(&4), Some(text("b")));
    assert_eq!(db.insert(text("c")), Ok(()));
    assert_eq!(db.find_by_id(&5), Some(text("c")));
}

#[test]
fn test_default_store_updates_under_the_next_number() {
    let mut db: FakeDb<u32, String, Sequence> = FakeDb::default();
    assert_eq!(db.insert(text("a")), Ok(()));

    assert_eq!(db.update(text("b")), Err(Error::KeyNotFound { key: 2 }));

    assert_eq!(db.find_by_id(&1), Some(text("a")));
    assert_eq!(db.insert(text("c")), Ok(()));
    assert_eq!(db.find_by_id(&3), Some(text("c")));
}

#[test]
fn test_default_store_keeps_the_keys_when_it_updates_many() {
    let mut db: FakeDb<u32, String, Sequence> = FakeDb::default();
    assert_eq!(db.insert(text("a")), Ok(()));
    assert_eq!(db.insert(text("b")), Ok(()));

    let done = db.update_many(UpdateArguments {
        matcher: Some(|s: &String| s == "a"),
        updater: Some(|s: &String| format!("{s}!")),
    });

    assert_eq!(done, Ok(()));
    assert_eq!(db.find_by_id(&1), Some(text("a!")));
    assert_eq!(db.find_by_id(&2), Some(text("b")));
    assert_eq!(db.insert(text("c")), Ok(()));
    assert_eq!(db.find_by_id(&3), Some(text("c")));
    assert_eq!(all(&db), vec![text("a!"), text("b"), text("c")]);
}

#[test]
fn test_order_that_ranks_all_alike_changes_nothing() {
    let mut db: FakeDb<u32, String, Sequence> = FakeDb::default();
    for word in ["d", "a", "c", "b", "e"] {
        assert_eq!(db.insert(text(word)), Ok(()));
    }

    let walked = db.find_many(FindArguments {
        matcher: None::<NoMatcher>,
        order: None::<fn(&String, &String) -> Ordering>,
    });
    let found = db.find_many(FindArguments {
        matcher: None::<NoMatcher>,
        order: Some(|_: &String, _: &String| Ordering::Equal),
    });

    assert_eq!(found, walked);
    assert_eq!(found.len(), 5);
}
