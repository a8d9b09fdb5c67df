use tinydb::catalog::{pg_attribute_relation, pg_class_relation};
use tinydb::heap::heap_scan;
use tinydb::insert::{insert_into, row_for_columns};
use tinydb::tuple::Datum;
use tinydb::buffer::BufferPool;
use tinydb::catalog::{
    get_pg_class_relation, heap_create, new_relation_oid, tuple_desc_from_relation, OidAllocator,
    DEFAULT_TABLESPACE_OID, TINYDB_DATABASE_OID,
};
use tinydb::storage::{RelLocator, StorageManager};
use tinydb::tuple::{PgAttribute, TupleDesc, INT4_TYPE_OID, TEXT_TYPE_OID};
use tinydb::Error;

fn attr(name: &str, ty: u32, num: u16) -> PgAttribute {
    PgAttribute { attrelid: 0, attname: name.as_bytes().to_vec(), atttypid: ty, attlen: 4, attnum: num, attnotnull: false }
}

#[test]
fn catalog_round_trip() {
    let mut pool = BufferPool::new(4, StorageManager::new());
    let desc = TupleDesc { attrs: vec![attr("a", INT4_TYPE_OID, 1), attr("b", TEXT_TYPE_OID, 2)] };
    heap_create(&mut pool, TINYDB_DATABASE_OID, "other", 30001, &TupleDesc { attrs: vec![attr("z", INT4_TYPE_OID, 1)] }).unwrap();
    let rel = heap_create(&mut pool, TINYDB_DATABASE_OID, "T", 30000, &desc).unwrap();
    assert_eq!(rel.locator, RelLocator { tablespace: DEFAULT_TABLESPACE_OID, database: TINYDB_DATABASE_OID, oid: 30000 });
    let got = tuple_desc_from_relation(&mut pool, TINYDB_DATABASE_OID, "T").unwrap();
    let names: Vec<Vec<u8>> = got.attrs.iter().map(|a| a.attname.clone()).collect();
    assert_eq!(names, vec![b"a".to_vec(), b"b".to_vec()]);
    assert_eq!(got.attrs[0].atttypid, INT4_TYPE_OID);
    assert_eq!(got.attrs[1].atttypid, TEXT_TYPE_OID);
    assert!(got.attrs.iter().all(|a| a.attrelid == 30000));
    let c = get_pg_class_relation(&mut pool, TINYDB_DATABASE_OID, "T").unwrap();
    assert_eq!(c.oid, 30000);
    assert_eq!(pool.size_of_relation(rel.locator), 1);
}

#[test]
fn attributes_come_back_ordered_by_number() {
    let mut pool = BufferPool::new(4, StorageManager::new());
    let desc = TupleDesc { attrs: vec![attr("c", INT4_TYPE_OID, 3), attr("a", INT4_TYPE_OID, 1), attr("b", INT4_TYPE_OID, 2)] };
    heap_create(&mut pool, TINYDB_DATABASE_OID, "U", 30002, &desc).unwrap();
    let got = tuple_desc_from_relation(&mut pool, TINYDB_DATABASE_OID, "U").unwrap();
    let nums: Vec<u16> = got.attrs.iter().map(|a| a.attnum).collect();
    assert_eq!(nums, vec![1, 2, 3]);
}

#[test]
fn unknown_relation_is_not_found() {
    let mut pool = BufferPool::new(4, StorageManager::new());
    heap_create(&mut pool, TINYDB_DATABASE_OID, "T", 30000, &TupleDesc { attrs: vec![] }).unwrap();
    assert_eq!(get_pg_class_relation(&mut pool, TINYDB_DATABASE_OID, "nope"), Err(Error::RelationNotFound(b"nope".to_vec())));
    assert_eq!(tuple_desc_from_relation(&mut pool, TINYDB_DATABASE_OID, "nope"), Err(Error::RelationNotFound(b"nope".to_vec())));
}

#[test]
fn new_oid_skips_existing_files() {
    let mut smgr = StorageManager::new();
    smgr.extend(RelLocator { tablespace: 1663, database: 1, oid: 16384 }).unwrap();
    smgr.extend(RelLocator { tablespace: 1663, database: 1, oid: 16385 }).unwrap();
    let mut alloc = OidAllocator::new();
    assert_eq!(new_relation_oid(&mut alloc, &smgr, 1663, 1), Ok(16386));
    assert_eq!(new_relation_oid(&mut alloc, &smgr, 1663, 1), Ok(16387));
    let mut last = OidAllocator { next: u32::MAX };
    assert_eq!(new_relation_oid(&mut last, &smgr, 1663, 1), Err(Error::OidExhausted));
}

#[test]
fn insert_into_matches_columns_by_name() {
    let mut pool = BufferPool::new(4, StorageManager::new());
    let desc = TupleDesc { attrs: vec![attr("a", INT4_TYPE_OID, 1), attr("b", TEXT_TYPE_OID, 2)] };
    let rel = heap_create(&mut pool, TINYDB_DATABASE_OID, "T", 30000, &desc).unwrap();
    let cols = vec![b"b".to_vec()];
    let vals = vec![Some(Datum::Text(b"x".to_vec()))];
    assert_eq!(row_for_columns(&desc, &cols, &vals), Ok(vec![None, Some(Datum::Text(b"x".to_vec()))]));
    assert_eq!(row_for_columns(&desc, &cols, &vec![]), Err(Error::UnsupportedOperation));
    insert_into(&mut pool, TINYDB_DATABASE_OID, "T", &cols, &vals).unwrap();
    let rows: Vec<_> = heap_scan(&mut pool, &rel).unwrap().iter().map(|t| t.datums(&desc).unwrap()).collect();
    assert_eq!(rows, vec![vec![None, Some(Datum::Text(b"x".to_vec()))]]);
    assert_eq!(
        insert_into(&mut pool, TINYDB_DATABASE_OID, "T", &vec![b"a".to_vec()], &vec![Some(Datum::Bool(true))]),
        Err(Error::CodecError)
    );
}

#[test]
fn equal_attribute_numbers_keep_scan_order() {
    let mut pool = BufferPool::new(4, StorageManager::new());
    let desc = TupleDesc { attrs: vec![attr("y", INT4_TYPE_OID, 2), attr("x", INT4_TYPE_OID, 1), attr("z", INT4_TYPE_OID, 2)] };
    heap_create(&mut pool, TINYDB_DATABASE_OID, "V", 30003, &desc).unwrap();
    let got = tuple_desc_from_relation(&mut pool, TINYDB_DATABASE_OID, "V").unwrap();
    let names: Vec<Vec<u8>> = got.attrs.iter().map(|a| a.attname.clone()).collect();
    assert_eq!(names, vec![b"x".to_vec(), b"y".to_vec(), b"z".to_vec()]);
}

#[test]
fn first_create_initializes_one_pg_class_page() {
    let mut pool = BufferPool::new(4, StorageManager::new());
    let desc = TupleDesc { attrs: vec![attr("a", INT4_TYPE_OID, 1), attr("b", TEXT_TYPE_OID, 2)] };
    heap_create(&mut pool, TINYDB_DATABASE_OID, "T", 30000, &desc).unwrap();
    assert_eq!(pool.size_of_relation(pg_class_relation(TINYDB_DATABASE_OID).locator), 1);
    assert_eq!(heap_scan(&mut pool, &pg_class_relation(TINYDB_DATABASE_OID)).unwrap().len(), 1);
    assert_eq!(heap_scan(&mut pool, &pg_attribute_relation(TINYDB_DATABASE_OID)).unwrap().len(), 2);
    heap_create(&mut pool, TINYDB_DATABASE_OID, "U", 30001, &desc).unwrap();
    assert_eq!(pool.size_of_relation(pg_class_relation(TINYDB_DATABASE_OID).locator), 1);
    assert_eq!(get_pg_class_relation(&mut pool, TINYDB_DATABASE_OID, "U").unwrap().oid, 30001);
}
