use tinydb::buffer::BufferPool;
use tinydb::catalog::{heap_create, TINYDB_DATABASE_OID};
use tinydb::heap::{heap_insert, heap_scan, HeapScanner};
use tinydb::page::page_free_space;
use tinydb::storage::{RelLocator, Relation, StorageManager};
use tinydb::tuple::{Datum, HeapTuple, PgAttribute, TupleDesc, INT4_TYPE_OID, TEXT_TYPE_OID};

fn attr(name: &str, ty: u32, num: u16) -> PgAttribute {
    PgAttribute {
        attrelid: 0,
        attname: name.as_bytes().to_vec(),
        atttypid: ty,
        attlen: if ty == TEXT_TYPE_OID { -1 } else { 4 },
        attnum: num,
        attnotnull: false,
    }
}

fn pool(cap: usize) -> BufferPool {
    BufferPool::new(cap, StorageManager::new())
}

fn scan_rows(pool: &mut BufferPool, rel: &Relation, desc: &TupleDesc) -> Vec<Vec<Option<Datum>>> {
    heap_scan(pool, rel)
        .unwrap()
        .iter()
        .map(|t| t.datums(desc).unwrap())
        .collect()
}

#[test]
fn empty_scan_yields_nothing() {
    let mut pool = pool(8);
    let desc = TupleDesc { attrs: vec![attr("a", INT4_TYPE_OID, 1)] };
    let rel = heap_create(&mut pool, TINYDB_DATABASE_OID, "R", 20000, &desc).unwrap();
    assert!(heap_scan(&mut pool, &rel).unwrap().is_empty());
}

#[test]
fn single_insert_is_scanned_back() {
    let mut pool = pool(8);
    let desc = TupleDesc { attrs: vec![attr("a", INT4_TYPE_OID, 1), attr("b", TEXT_TYPE_OID, 2)] };
    let rel = heap_create(&mut pool, TINYDB_DATABASE_OID, "R", 20000, &desc).unwrap();
    let row = vec![Some(Datum::Int32(1)), Some(Datum::Text(b"hi".to_vec()))];
    let t = HeapTuple::from_datums(&desc, &row).unwrap();
    heap_insert(&mut pool, &rel, &t).unwrap();
    assert_eq!(scan_rows(&mut pool, &rel, &desc), vec![row]);
}

#[test]
fn null_value_takes_no_data_bytes() {
    let mut pool = pool(8);
    let desc = TupleDesc { attrs: vec![attr("a", INT4_TYPE_OID, 1), attr("b", INT4_TYPE_OID, 2)] };
    let rel = heap_create(&mut pool, TINYDB_DATABASE_OID, "R", 20000, &desc).unwrap();
    let row = vec![None, Some(Datum::Int32(7))];
    let t = HeapTuple::from_datums(&desc, &row).unwrap();
    assert_eq!(t.data.len(), 4);
    assert_eq!(t.header.null_bitmap, vec![0b10]);
    heap_insert(&mut pool, &rel, &t).unwrap();
    assert_eq!(scan_rows(&mut pool, &rel, &desc), vec![row]);
}

#[test]
fn many_inserts_extend_the_relation() {
    let mut pool = pool(4);
    let desc = TupleDesc { attrs: vec![attr("a", INT4_TYPE_OID, 1), attr("b", TEXT_TYPE_OID, 2)] };
    let rel = heap_create(&mut pool, TINYDB_DATABASE_OID, "R", 20000, &desc).unwrap();
    let mut rows = Vec::new();
    for i in 0..2000 {
        let row = vec![Some(Datum::Int32(i)), Some(Datum::Text(b"abcdefghi".to_vec()))];
        let t = HeapTuple::from_datums(&desc, &row).unwrap();
        assert_eq!(t.encode().unwrap().len(), 20);
        heap_insert(&mut pool, &rel, &t).unwrap();
        rows.push(row);
    }
    assert_eq!(scan_rows(&mut pool, &rel, &desc), rows);
    assert!(pool.size_of_relation(rel.locator) >= 2);
}

#[test]
fn inserted_tuple_is_visible_and_counted_once() {
    let mut pool = pool(3);
    let rel = Relation { locator: RelLocator { tablespace: 1663, database: 1, oid: 77 }, rel_name: b"s".to_vec() };
    let desc = TupleDesc { attrs: vec![attr("a", INT4_TYPE_OID, 1)] };
    let mut expected = Vec::new();
    for i in [3, 1, 3, 2] {
        let row = vec![Some(Datum::Int32(i))];
        heap_insert(&mut pool, &rel, &HeapTuple::from_datums(&desc, &row).unwrap()).unwrap();
        expected.push(row);
        let got = scan_rows(&mut pool, &rel, &desc);
        assert_eq!(got, expected);
    }
}

#[test]
fn oversized_tuple_is_rejected() {
    let mut pool = pool(2);
    let rel = Relation { locator: RelLocator { tablespace: 1663, database: 1, oid: 78 }, rel_name: b"s".to_vec() };
    let desc = TupleDesc { attrs: vec![attr("b", TEXT_TYPE_OID, 1)] };
    let row = vec![Some(Datum::Text(vec![b'x'; 9000]))];
    let t = HeapTuple::from_datums(&desc, &row).unwrap();
    assert_eq!(heap_insert(&mut pool, &rel, &t), Err(tinydb::Error::UnsupportedOperation));
    assert_eq!(pool.size_of_relation(rel.locator), 0);
}

#[test]
fn scan_reports_corrupt_page() {
    let mut smgr = StorageManager::new();
    let loc = RelLocator { tablespace: 1663, database: 1, oid: 79 };
    assert_eq!(smgr.extend(loc), Ok(1));
    let mut page = vec![0u8; 8192];
    page[0] = 2;
    page[2] = 1;
    smgr.write(loc, 1, &page).unwrap();
    let mut pool = BufferPool::new(2, smgr);
    let rel = Relation { locator: loc, rel_name: b"c".to_vec() };
    assert_eq!(heap_scan(&mut pool, &rel).unwrap_err(), tinydb::Error::PageCorruption);
}

#[test]
fn page_headers_stay_in_bounds() {
    let mut pool = pool(2);
    let rel = Relation { locator: RelLocator { tablespace: 1663, database: 1, oid: 80 }, rel_name: b"h".to_vec() };
    let desc = TupleDesc { attrs: vec![attr("b", TEXT_TYPE_OID, 1)] };
    for i in 0..300 {
        let row = vec![Some(Datum::Text(vec![b'y'; (i * 7) % 90]))];
        heap_insert(&mut pool, &rel, &HeapTuple::from_datums(&desc, &row).unwrap()).unwrap();
    }
    pool.flush_all_buffers().unwrap();
    let n = pool.size_of_relation(rel.locator);
    assert!(n >= 2);
    for k in 1..=n {
        let page = pool.storage().read(rel.locator, k).unwrap();
        let start = page[0] as usize + page[1] as usize * 256;
        let end = page[2] as usize + page[3] as usize * 256;
        assert!(6 <= start && start <= end && end <= 8192);
        assert_eq!((start - 6) % 4, 0);
        assert_eq!(page_free_space(&page), Some(end - start));
    }
}

#[test]
fn scanner_returns_tuples_in_order() {
    let mut pool = pool(2);
    let rel = Relation { locator: RelLocator { tablespace: 1663, database: 1, oid: 81 }, rel_name: b"s".to_vec() };
    let desc = TupleDesc { attrs: vec![attr("a", INT4_TYPE_OID, 1)] };
    for i in 0..3 {
        heap_insert(&mut pool, &rel, &HeapTuple::from_datums(&desc, &vec![Some(Datum::Int32(i))]).unwrap()).unwrap();
    }
    let mut scanner = HeapScanner::new(&pool, &rel);
    for i in 0..3 {
        let t = scanner.next_tuple(&mut pool).unwrap().unwrap();
        assert_eq!(t.datums(&desc).unwrap(), vec![Some(Datum::Int32(i))]);
    }
    assert!(scanner.next_tuple(&mut pool).unwrap().is_none());
    assert!(scanner.next_tuple(&mut pool).unwrap().is_none());
}

#[test]
fn scanner_reads_across_pages_and_reports_corruption() {
    let mut pool = pool(2);
    let rel = Relation { locator: RelLocator { tablespace: 1663, database: 1, oid: 82 }, rel_name: b"s".to_vec() };
    let desc = TupleDesc { attrs: vec![attr("b", TEXT_TYPE_OID, 1)] };
    for _ in 0..3 {
        let row = vec![Some(Datum::Text(vec![b'q'; 5000]))];
        heap_insert(&mut pool, &rel, &HeapTuple::from_datums(&desc, &row).unwrap()).unwrap();
    }
    assert_eq!(pool.size_of_relation(rel.locator), 3);
    let mut scanner = HeapScanner::new(&pool, &rel);
    let mut n = 0;
    while let Some(_) = scanner.next_tuple(&mut pool).unwrap() {
        n += 1;
    }
    assert_eq!(n, 3);

    let mut smgr = StorageManager::new();
    let loc = RelLocator { tablespace: 1663, database: 1, oid: 83 };
    smgr.extend(loc).unwrap();
    let mut page = vec![0u8; 8192];
    page[0] = 2;
    page[2] = 1;
    smgr.write(loc, 1, &page).unwrap();
    let mut bad = BufferPool::new(1, smgr);
    let mut s2 = HeapScanner::new(&bad, &Relation { locator: loc, rel_name: b"c".to_vec() });
    assert_eq!(s2.next_tuple(&mut bad).unwrap_err(), tinydb::Error::PageCorruption);
}
