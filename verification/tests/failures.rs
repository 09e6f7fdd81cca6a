use std::collections::HashMap;

use fake_db::errors::{locking, Error};
use fake_db::identifier::Identifier;
use fake_db::FakeDb;

#[derive(Clone, Debug, PartialEq)]
struct City {
    code: u32,
    name: &'static str,
}

struct ByCode;

impl Identifier<City> for ByCode {
    type Id = u32;

    fn new_id(&mut self, value: &City) -> u32 {
        value.code
    }

    fn is_autogenerated(&self) -> bool {
        true
    }
}

fn city(code: u32, name: &'static str) -> City {
    City { code, name }
}

fn store(cities: Vec<City>) -> FakeDb<u32, City, ByCode> {
    let storage: HashMap<u32, City> = cities.into_iter().map(|c| (c.code, c)).collect();
    FakeDb::with_storage(ByCode, storage)
}

#[test]
fn test_insert_reports_the_key_in_conflict() {
    let mut db = store(vec![city(7, "Almaty")]);

    let done = db.insert(city(7, "Astana"));

    assert_eq!(done, Err(Error::Conflict { key: 7 }));
    assert_eq!(db.find_by_id(&7), Some(city(7, "Almaty")));
}

#[test]
fn test_insert_with_id_reports_the_key_in_conflict() {
    let mut db = store(vec![city(7, "Almaty")]);

    assert_eq!(
        db.insert_with_id(7, city(8, "Astana")),
        Err(Error::Conflict { key: 7 })
    );
    assert_eq!(db.insert_with_id(9, city(8, "Astana")), Ok(()));
    assert_eq!(db.find_by_id(&9), Some(city(8, "Astana")));
    assert_eq!(db.find_by_id(&8), None);
}

#[test]
fn test_update_reports_the_key_not_found() {
    let mut db = store(vec![city(1, "Lima")]);

    let done = db.update(city(55, "Cusco"));

    assert_eq!(done, Err(Error::KeyNotFound { key: 55 }));
    assert_eq!(db.find_by_id(&1), Some(city(1, "Lima")));
    assert_eq!(db.find_by_id(&55), None);
}

#[test]
fn test_update_with_id_replaces_only_what_is_there() {
    let mut db = store(vec![city(1, "Lima")]);

    assert_eq!(db.update_with_id(1, city(1, "Cusco")), Ok(()));
    assert_eq!(
        db.update_with_id(2, city(2, "Arequipa")),
        Err(Error::KeyNotFound { key: 2 })
    );
    assert_eq!(db.find_by_id(&1), Some(city(1, "Cusco")));
    assert_eq!(db.find_by_id(&2), None);
}

#[test]
fn test_insert_many_reports_the_key_given_twice() {
    let mut db = store(vec![]);

    let done = db.insert_many(vec![city(1, "Oslo"), city(852, "Bergen"), city(852, "Bergen")]);

    assert_eq!(done, Err(Error::Cardinality { key: 852 }));
    assert_eq!(db.find_by_id(&1), None);
    assert_eq!(db.find_by_id(&852), None);
}

#[test]
fn test_insert_many_reports_the_key_that_is_taken() {
    let mut db = store(vec![city(82, "Seoul")]);

    let done = db.insert_many(vec![city(850, "Pyongyang"), city(82, "Busan"), city(81, "Tokyo")]);

    assert_eq!(done, Err(Error::Conflict { key: 82 }));
    assert_eq!(db.find_by_id(&850), None);
    assert_eq!(db.find_by_id(&81), None);
    assert_eq!(db.find_by_id(&82), Some(city(82, "Seoul")));
}

#[test]
fn test_insert_many_checks_the_batch_before_the_store() {
    let mut db = store(vec![city(39, "Rome")]);

    let done = db.insert_many(vec![city(39, "Milan"), city(39, "Turin")]);

    assert_eq!(done, Err(Error::Cardinality { key: 39 }));
    assert_eq!(db.find_by_id(&39), Some(city(39, "Rome")));
}

#[test]
fn test_insert_many_of_nothing_succeeds() {
    let mut db = store(vec![city(39, "Rome")]);

    assert_eq!(db.insert_many(vec![]), Ok(()));
    assert_eq!(db.find_by_id(&39), Some(city(39, "Rome")));
}

#[test]
fn test_locking_carries_the_message() {
    let failure: Error<u32> = locking(String::from("poisoned lock"));

    assert_eq!(
        failure,
        Error::Locking {
            message: String::from("poisoned lock")
        }
    );
}
