//! System catalog: the self-describing `pg_class` and `pg_attribute` heaps
//! that record relations and their attributes.
use vstd::prelude::*;
use vstd::string::{StrSliceExecFns, StringSliceAdditionalSpecFns};

use crate::buffer::{BufferPage, BufferPool};
use crate::storage::StorageManager;
use crate::heap::{all_items, framed, heap_insert, heap_scan, tuple_bytes};
use crate::storage::{RelLocator, Relation};
use crate::tuple::{
    bitmap_of, enc_row, parse_row, row_typed, row_view, Datum, DatumView, HeapTuple, PgAttribute, TupleDesc,
    BOOL_TYPE_OID, INT4_TYPE_OID, INT8_TYPE_OID, MAX_BITMAP_LEN, TEXT_TYPE_OID,
};
use crate::Error;

verus! {

broadcast use vstd::seq_lib::lemma_multiset_commutative;

pub const DEFAULT_TABLESPACE_OID: u32 = 1663;

pub const TINYDB_DATABASE_OID: u32 = 16384;

pub const PG_CLASS_RELATION_OID: u32 = 1259;

pub const PG_ATTRIBUTE_RELATION_OID: u32 = 1249;

/// Catalog record of one relation.
#[derive(Debug, Clone, PartialEq, Eq)]
pub struct PgClass {
    pub oid: u32,
    /// Name, UTF-8.
    pub relname: Vec<u8>,
    pub reltablespace: u32,
}

impl View for PgClass {
    type V = (u32, Seq<u8>, u32);

    open spec fn view(&self) -> (u32, Seq<u8>, u32) {
        (self.oid, self.relname@, self.reltablespace)
    }
}

/// The locator of a catalog relation of database `db`.
pub open spec fn catalog_locator(db: u32, oid: u32) -> RelLocator {
    RelLocator { tablespace: DEFAULT_TABLESPACE_OID, database: db, oid }
}

pub fn pg_class_relation(db: u32) -> (r: Relation)
    ensures
        r.locator == catalog_locator(db, PG_CLASS_RELATION_OID),
{
    Relation {
        locator: RelLocator { tablespace: DEFAULT_TABLESPACE_OID, database: db, oid: PG_CLASS_RELATION_OID },
        rel_name: vec![112u8, 103, 95, 99, 108, 97, 115, 115],
    }
}

pub fn pg_attribute_relation(db: u32) -> (r: Relation)
    ensures
        r.locator == catalog_locator(db, PG_ATTRIBUTE_RELATION_OID),
{
    Relation {
        locator: RelLocator { tablespace: DEFAULT_TABLESPACE_OID, database: db, oid: PG_ATTRIBUTE_RELATION_OID },
        rel_name: vec![112u8, 103, 95, 97, 116, 116, 114, 105, 98, 117, 116, 101],
    }
}

pub open spec fn class_types() -> Seq<u32> {
    seq![INT8_TYPE_OID, TEXT_TYPE_OID, INT8_TYPE_OID]
}

pub open spec fn attribute_types() -> Seq<u32> {
    seq![INT8_TYPE_OID, TEXT_TYPE_OID, INT8_TYPE_OID, INT4_TYPE_OID, INT4_TYPE_OID, BOOL_TYPE_OID]
}

fn attr(relid: u32, name: Vec<u8>, ty: u32, len: i16, num: u16) -> (r: PgAttribute)
    ensures
        r.atttypid == ty,
{
    PgAttribute { attrelid: relid, attname: name, atttypid: ty, attlen: len, attnum: num, attnotnull: true }
}

/// Schema of `pg_class`: `oid`, `relname`, `reltablespace`.
pub fn pg_class_desc() -> (r: TupleDesc)
    ensures
        r.types() == class_types(),
{
    let mut attrs: Vec<PgAttribute> = Vec::new();
    attrs.push(attr(PG_CLASS_RELATION_OID, vec![111u8, 105, 100], INT8_TYPE_OID, 8, 1));
    attrs.push(attr(PG_CLASS_RELATION_OID, vec![114u8, 101, 108, 110, 97, 109, 101], TEXT_TYPE_OID, -1, 2));
    attrs.push(attr(PG_CLASS_RELATION_OID, vec![114u8, 101, 108, 116, 97, 98, 108, 101, 115, 112, 97, 99, 101], INT8_TYPE_OID, 8, 3));
    let r = TupleDesc { attrs };
    assert(r.types() =~= class_types());
    r
}

/// Schema of `pg_attribute`: `attrelid`, `attname`, `atttypid`, `attlen`,
/// `attnum`, `attnotnull`.
pub fn pg_attribute_desc() -> (r: TupleDesc)
    ensures
        r.types() == attribute_types(),
{
    let mut attrs: Vec<PgAttribute> = Vec::new();
    attrs.push(attr(PG_ATTRIBUTE_RELATION_OID, vec![97u8, 116, 116, 114, 101, 108, 105, 100], INT8_TYPE_OID, 8, 1));
    attrs.push(attr(PG_ATTRIBUTE_RELATION_OID, vec![97u8, 116, 116, 110, 97, 109, 101], TEXT_TYPE_OID, -1, 2));
    attrs.push(attr(PG_ATTRIBUTE_RELATION_OID, vec![97u8, 116, 116, 116, 121, 112, 105, 100], INT8_TYPE_OID, 8, 3));
    attrs.push(attr(PG_ATTRIBUTE_RELATION_OID, vec![97u8, 116, 116, 108, 101, 110], INT4_TYPE_OID, 4, 4));
    attrs.push(attr(PG_ATTRIBUTE_RELATION_OID, vec![97u8, 116, 116, 110, 117, 109], INT4_TYPE_OID, 4, 5));
    attrs.push(attr(PG_ATTRIBUTE_RELATION_OID, vec![97u8, 116, 116, 110, 111, 116, 110, 117, 108, 108], BOOL_TYPE_OID, 1, 6));
    let r = TupleDesc { attrs };
    assert(r.types() =~= attribute_types());
    r
}

pub open spec fn as_oid(d: Option<DatumView>) -> Option<u32> {
    match d {
        Some(DatumView::Int64(v)) => if 0 <= v <= u32::MAX { Some(v as u32) } else { None },
        _ => None,
    }
}

pub open spec fn as_text(d: Option<DatumView>) -> Option<Seq<u8>> {
    match d {
        Some(DatumView::Text(t)) => Some(t),
        _ => None,
    }
}

/// The record a `pg_class` row stands for.
pub open spec fn class_of_row(r: Seq<Option<DatumView>>) -> Option<(u32, Seq<u8>, u32)> {
    if r.len() == 3 && as_oid(r[0]) is Some && as_text(r[1]) is Some && as_oid(r[2]) is Some {
        Some((as_oid(r[0])->0, as_text(r[1])->0, as_oid(r[2])->0))
    } else {
        None
    }
}

/// The bitmap of stored tuple bytes.
pub open spec fn bitmap_part(b: Seq<u8>) -> Seq<u8> {
    b.subrange(2, 2 + crate::page::get_u16(b, 0))
}

/// The data region of stored tuple bytes.
pub open spec fn data_part(b: Seq<u8>) -> Seq<u8> {
    b.subrange(2 + crate::page::get_u16(b, 0), b.len() as int)
}

/// The row stored in tuple bytes, read against `types`.
pub open spec fn item_row(b: Seq<u8>, types: Seq<u32>) -> Option<Seq<Option<DatumView>>> {
    if framed(b) {
        parse_row(types, bitmap_part(b), 0, data_part(b))
    } else {
        None
    }
}

/// The `pg_class` record stored in tuple bytes.
pub open spec fn class_of_item(b: Seq<u8>) -> Option<(u32, Seq<u8>, u32)> {
    match item_row(b, class_types()) {
        Some(r) => class_of_row(r),
        None => None,
    }
}

/// The bytes hold a `pg_class` record of another name.
pub open spec fn other_class(b: Seq<u8>, name: Seq<u8>) -> bool {
    match class_of_item(b) {
        Some(x) => x.1 != name,
        None => false,
    }
}

proof fn lemma_tuple_parts(t: HeapTuple)
    requires
        t.header.null_bitmap@.len() <= MAX_BITMAP_LEN,
    ensures
        framed(tuple_bytes(t)),
        bitmap_part(tuple_bytes(t)) == t.header.null_bitmap@,
        data_part(tuple_bytes(t)) == t.data@,
{
    crate::tuple::lemma_frame_round_trip(t.header.null_bitmap@, t.data@);
}

fn oid_of(d: &Option<Datum>) -> (r: Option<u32>)
    ensures
        r == as_oid(crate::tuple::opt_view(*d)),
{
    match d {
        Some(Datum::Int64(v)) => if 0 <= *v && *v <= u32::MAX as i64 { Some(*v as u32) } else { None },
        _ => None,
    }
}

fn text_of(d: &Option<Datum>) -> (r: Option<Vec<u8>>)
    ensures
        r matches Some(t) ==> as_text(crate::tuple::opt_view(*d)) == Some(t@),
        r is None ==> as_text(crate::tuple::opt_view(*d)) is None,
{
    match d {
        Some(Datum::Text(t)) => Some(t.clone()),
        _ => None,
    }
}

impl PgClass {
    /// The record in a `pg_class` row. Fails with `CodecError` when the row
    /// is not one.
    pub fn from_row(row: &Vec<Option<Datum>>) -> (r: Result<PgClass, Error>)
        ensures
            class_of_row(row_view(row@)) is Some <==> r is Ok,
            r matches Ok(c) ==> class_of_row(row_view(row@)) == Some(c@),
            r matches Err(e) ==> e == Error::CodecError,
    {
        if row.len() != 3 {
            return Err(Error::CodecError);
        }
        let ghost rv = row_view(row@);
        assert(rv[0] == crate::tuple::opt_view(row@[0]));
        assert(rv[1] == crate::tuple::opt_view(row@[1]));
        assert(rv[2] == crate::tuple::opt_view(row@[2]));
        match (oid_of(&row[0]), text_of(&row[1]), oid_of(&row[2])) {
            (Some(oid), Some(relname), Some(reltablespace)) => Ok(PgClass { oid, relname, reltablespace }),
            _ => Err(Error::CodecError),
        }
    }

    /// The `pg_class` row of the record.
    pub fn to_datums(&self) -> (r: Vec<Option<Datum>>)
        ensures
            row_view(r@) == seq![
                Some(DatumView::Int64(self.oid as i64)),
                Some(DatumView::Text(self.relname@)),
                Some(DatumView::Int64(self.reltablespace as i64)),
            ],
    {
        let mut r: Vec<Option<Datum>> = Vec::new();
        r.push(Some(Datum::Int64(self.oid as i64)));
        r.push(Some(Datum::Text(self.relname.clone())));
        r.push(Some(Datum::Int64(self.reltablespace as i64)));
        assert(row_view(r@) =~= seq![
            Some(DatumView::Int64(self.oid as i64)),
            Some(DatumView::Text(self.relname@)),
            Some(DatumView::Int64(self.reltablespace as i64)),
        ]);
        r
    }
}

/// Finds the first `pg_class` record of database `db` named `rel_name`.
/// Fails with `RelationNotFound` when every record is read and none has that
/// name, with `CodecError` when a record cannot be read before a match, and
/// with the errors of scanning `pg_class`.
pub fn get_pg_class_relation(pool: &mut BufferPool, db: u32, rel_name: &str) -> (r: Result<PgClass, Error>)
    requires
        old(pool).wf(),
    ensures
        final(pool).wf(),
        final(pool).same_contents(old(pool)),
        final(pool).same_pins(old(pool)),
        ({
            let items = all_items(old(pool).rel_pages(catalog_locator(db, PG_CLASS_RELATION_OID)));
            &&& r matches Ok(c) ==> exists|i: int| 0 <= i < items.len()
                && #[trigger] class_of_item(items[i]) == Some(c@) && c.relname@ == rel_name.spec_bytes()
                && forall|j: int| 0 <= j < i ==> #[trigger] other_class(items[j], rel_name.spec_bytes())
            &&& r matches Err(Error::RelationNotFound(n)) ==> n@ == rel_name.spec_bytes()
                && forall|j: int| 0 <= j < items.len() ==> #[trigger] other_class(items[j], rel_name.spec_bytes())
            &&& old(pool).can_load() && crate::heap::pages_ok(old(pool).rel_pages(catalog_locator(db, PG_CLASS_RELATION_OID)))
                && crate::heap::items_framed(old(pool).rel_pages(catalog_locator(db, PG_CLASS_RELATION_OID)))
                && (forall|j: int| 0 <= j < items.len() ==> #[trigger] class_of_item(items[j]) is Some)
                ==> (r is Ok || (r matches Err(e) && e is RelationNotFound))
        }),
{
    let ghost old_p = *pool;
    let name = rel_name.as_bytes_vec();
    let rel = pg_class_relation(db);
    let desc = pg_class_desc();
    let tuples = match heap_scan(pool, &rel) {
        Ok(ts) => ts,
        Err(e) => {
            assert(!(e is RelationNotFound));
            return Err(e);
        },
    };
    let ghost items = all_items(old_p.rel_pages(rel.locator));
    let mut i: usize = 0;
    while i < tuples.len()
        invariant
            old_p == *old(pool),
            pool.wf(),
            pool.same_contents(&old_p),
            pool.same_pins(&old_p),
            rel.locator == catalog_locator(db, PG_CLASS_RELATION_OID),
            i <= tuples@.len(),
            items == all_items(old_p.rel_pages(rel.locator)),
            crate::heap::tuples_bytes(tuples@) == items,
            forall|x: int| 0 <= x < tuples@.len() ==> (#[trigger] tuples@[x]).header.null_bitmap@.len() <= MAX_BITMAP_LEN,
            desc.types() == class_types(),
            name@ == rel_name.spec_bytes(),
            forall|j: int| 0 <= j < i ==> #[trigger] other_class(items[j], rel_name.spec_bytes()),
        decreases tuples@.len() - i,
    {
        let t = &tuples[i];
        proof {
            lemma_tuple_parts(*t);
            assert(items[i as int] == tuple_bytes(*t));
        }
        let row = match t.datums(&desc) {
            Ok(row) => row,
            Err(e) => {
                assert(e == Error::CodecError);
                assert(class_of_item(items[i as int]) is None);
                return Err(e);
            },
        };
        let c = match PgClass::from_row(&row) {
            Ok(c) => c,
            Err(e) => {
                assert(e == Error::CodecError);
                assert(item_row(items[i as int], class_types()) == Some(row_view(row@)));
                assert(class_of_item(items[i as int]) is None);
                return Err(e);
            },
        };
        proof {
            assert(item_row(items[i as int], class_types()) == Some(row_view(row@)));
            assert(class_of_item(items[i as int]) == Some(c@));
        }
        if vec_eq(&c.relname, &name) {
            assert(class_of_item(items[i as int]) == Some(c@));
            return Ok(c);
        }
        i = i + 1;
    }
    Err(Error::RelationNotFound(name))
}

/// Whether two byte strings are equal.
pub fn vec_eq(a: &Vec<u8>, b: &Vec<u8>) -> (r: bool)
    ensures
        r == (a@ == b@),
{
    if a.len() != b.len() {
        return false;
    }
    let mut k: usize = 0;
    while k < a.len()
        invariant
            a@.len() == b@.len(),
            k <= a@.len(),
            forall|j: int| 0 <= j < k ==> a@[j] == b@[j],
        decreases a@.len() - k,
    {
        if a[k] != b[k] {
            return false;
        }
        k = k + 1;
    }
    assert(a@ =~= b@);
    true
}


/// Adds one page with the default header to the relation, writes it through
/// to disk and leaves it unpinned.
#[verifier::spinoff_prover]
pub fn initialize_default_page_header(pool: &mut BufferPool, rel: &Relation) -> (r: Result<(), Error>)
    requires
        old(pool).wf(),
    ensures
        final(pool).wf(),
        final(pool).same_pins(old(pool)),
        old(pool).can_load() && old(pool).disk(rel.locator).len() < crate::storage::MAX_PAGES ==> r is Ok,
        r is Err ==> final(pool).same_contents(old(pool)),
        r is Ok ==> final(pool).rel_pages(rel.locator) == old(pool).rel_pages(rel.locator).push(crate::page::empty_page()),
        r is Ok ==> final(pool).disk(rel.locator).last() == crate::page::empty_page(),
        r is Ok ==> forall|l: RelLocator| l != rel.locator ==> #[trigger] final(pool).rel_pages(l) == old(pool).rel_pages(l),
{
    let ghost old_p = *pool;
    let b = match pool.alloc_buffer(rel.locator) {
        Ok(b) => b,
        Err(e) => {
            proof {
                old_p.lemma_same_self();
            }
            return Err(e);
        },
    };
    let ghost s1 = *pool;
    let page = BufferPage::new_empty();
    proof {
        crate::page::lemma_empty_page_len();
    }
    let w = pool.write_page(b, &page);
    assert(w is Ok);
    let ghost s2 = *pool;
    let f = pool.flush_buffer(b);
    assert(f is Ok);
    let ghost s3 = *pool;
    let u = pool.unpin_buffer(b, true);
    assert(u is Ok);
    proof {
        let loc = rel.locator;
        let n = old_p.disk(loc).len();
        assert(s1.tag_of(b as int) == crate::buffer::BufferTag::of((n + 1) as u32, loc));
        old_p.lemma_wf_facts();
        s1.lemma_wf_facts();
        assert forall|c: int| #[trigger] pool.valid_buffer(c) implies pool.pins(c) == old_p.pins(c) by {
            assert(old_p.valid_buffer(c));
            assert(s1.valid_buffer(c));
            assert(s2.valid_buffer(c));
            assert(s2.pins(c) == s1.pins(c));
            if c != b {
                assert(s1.pins(c) == old_p.pins(c));
                assert(s3.resident(c) == s2.resident(c));
                assert(s3.pins(c) == s2.pins(c));
                assert(pool.resident(c) == s3.resident(c));
            } else {
                assert(s1.pins(c) == old_p.pins(c) + 1);
                assert(s3.pins(c) == s2.pins(c));
            }
        }
        assert forall|l: RelLocator| #[trigger] pool.rel_pages(l) == s2.rel_pages(l) by {
            assert(pool.rel_pages(l) == s3.rel_pages(l));
        }
        assert(s1.rel_pages(loc).len() == n + 1);
        assert(pool.rel_pages(loc) =~= old_p.rel_pages(loc).push(crate::page::empty_page()));
        assert(pool.disk(loc) == s3.disk(loc));
        assert(s3.disk(loc)[n as int] == crate::page::empty_page());
        assert forall|l: RelLocator| l != loc implies #[trigger] pool.rel_pages(l) == old_p.rel_pages(l) by {
            assert(s2.rel_pages(l) == s1.rel_pages(l));
        }
    }
    Ok(())
}

/// Hands out object identifiers in increasing order.
pub struct OidAllocator {
    pub next: u32,
}

/// First identifier handed to user relations.
pub const FIRST_NORMAL_OBJECT_ID: u32 = 16384;

impl OidAllocator {
    pub fn new() -> (r: Self)
        ensures
            r.next == FIRST_NORMAL_OBJECT_ID,
    {
        OidAllocator { next: FIRST_NORMAL_OBJECT_ID }
    }
}

/// A relation identifier of database `db` in `tablespace` whose file does not
/// exist yet: the allocator's candidates are tried in turn until one has no
/// file. Fails with `OidExhausted` when the candidates run out.
pub fn new_relation_oid(alloc: &mut OidAllocator, smgr: &StorageManager, tablespace: u32, db: u32) -> (r: Result<u32, Error>)
    requires
        smgr.wf(),
    ensures
        r matches Ok(o) ==> o != crate::INVALID_OID && o >= old(alloc).next && final(alloc).next == o + 1
            && !smgr@.contains_key(RelLocator { tablespace, database: db, oid: o })
            && forall|x: u32| old(alloc).next <= x < o && x != crate::INVALID_OID ==> smgr@.contains_key(RelLocator { tablespace, database: db, oid: x }),
        r matches Err(e) ==> e == Error::OidExhausted
            && forall|x: u32| old(alloc).next <= x < u32::MAX && x != crate::INVALID_OID
                ==> smgr@.contains_key(RelLocator { tablespace, database: db, oid: x }),
{
    loop
        invariant
            smgr.wf(),
            alloc.next >= old(alloc).next,
            forall|x: u32| old(alloc).next <= x < alloc.next && x != crate::INVALID_OID ==> smgr@.contains_key(RelLocator { tablespace, database: db, oid: x }),
        decreases u32::MAX - alloc.next,
    {
        let candidate = alloc.next;
        if candidate == u32::MAX {
            return Err(Error::OidExhausted);
        }
        alloc.next = candidate + 1;
        if candidate != crate::INVALID_OID && !smgr.has_relation(RelLocator { tablespace, database: db, oid: candidate }) {
            return Ok(candidate);
        }
    }
}


impl View for PgAttribute {
    type V = (u32, Seq<u8>, u32, i16, u16, bool);

    open spec fn view(&self) -> (u32, Seq<u8>, u32, i16, u16, bool) {
        (self.attrelid, self.attname@, self.atttypid, self.attlen, self.attnum, self.attnotnull)
    }
}

pub open spec fn as_i32(d: Option<DatumView>) -> Option<i32> {
    match d {
        Some(DatumView::Int32(v)) => Some(v),
        _ => None,
    }
}

pub open spec fn as_bool(d: Option<DatumView>) -> Option<bool> {
    match d {
        Some(DatumView::Bool(b)) => Some(b),
        _ => None,
    }
}

/// The record a `pg_attribute` row stands for.
pub open spec fn attr_of_row(r: Seq<Option<DatumView>>) -> Option<(u32, Seq<u8>, u32, i16, u16, bool)> {
    if r.len() == 6 && as_oid(r[0]) is Some && as_text(r[1]) is Some && as_oid(r[2]) is Some
        && as_i32(r[3]) is Some && i16::MIN <= as_i32(r[3])->0 <= i16::MAX
        && as_i32(r[4]) is Some && 0 <= as_i32(r[4])->0 <= u16::MAX && as_bool(r[5]) is Some {
        Some((as_oid(r[0])->0, as_text(r[1])->0, as_oid(r[2])->0, as_i32(r[3])->0 as i16,
            as_i32(r[4])->0 as u16, as_bool(r[5])->0))
    } else {
        None
    }
}

/// The `pg_attribute` record stored in tuple bytes.
pub open spec fn attr_of_item(b: Seq<u8>) -> Option<(u32, Seq<u8>, u32, i16, u16, bool)> {
    match item_row(b, attribute_types()) {
        Some(r) => attr_of_row(r),
        None => None,
    }
}

fn i32_of(d: &Option<Datum>) -> (r: Option<i32>)
    ensures
        r == as_i32(crate::tuple::opt_view(*d)),
{
    match d {
        Some(Datum::Int32(v)) => Some(*v),
        _ => None,
    }
}

fn bool_of(d: &Option<Datum>) -> (r: Option<bool>)
    ensures
        r == as_bool(crate::tuple::opt_view(*d)),
{
    match d {
        Some(Datum::Bool(b)) => Some(*b),
        _ => None,
    }
}

/// The record in a `pg_attribute` row. Fails with `CodecError` when the
/// row is not one.
pub fn attribute_from_row(row: &Vec<Option<Datum>>) -> (r: Result<PgAttribute, Error>)
    ensures
        attr_of_row(row_view(row@)) is Some <==> r is Ok,
        r matches Ok(a) ==> attr_of_row(row_view(row@)) == Some(a@),
        r matches Err(e) ==> e == Error::CodecError,
{
    if row.len() != 6 {
        return Err(Error::CodecError);
    }
    let ghost rv = row_view(row@);
    assert(rv[0] == crate::tuple::opt_view(row@[0]));
    assert(rv[1] == crate::tuple::opt_view(row@[1]));
    assert(rv[2] == crate::tuple::opt_view(row@[2]));
    assert(rv[3] == crate::tuple::opt_view(row@[3]));
    assert(rv[4] == crate::tuple::opt_view(row@[4]));
    assert(rv[5] == crate::tuple::opt_view(row@[5]));
    match (oid_of(&row[0]), text_of(&row[1]), oid_of(&row[2]), i32_of(&row[3]), i32_of(&row[4]), bool_of(&row[5])) {
        (Some(attrelid), Some(attname), Some(atttypid), Some(len), Some(num), Some(attnotnull)) => {
            if len < i16::MIN as i32 || len > i16::MAX as i32 || num < 0 || num > u16::MAX as i32 {
                return Err(Error::CodecError);
            }
            Ok(PgAttribute { attrelid, attname, atttypid, attlen: len as i16, attnum: num as u16, attnotnull })
        },
        _ => Err(Error::CodecError),
    }
}

/// The `pg_attribute` row of a record, with `attrelid` replaced by `relid`.
pub fn attribute_to_datums(a: &PgAttribute, relid: u32) -> (r: Vec<Option<Datum>>)
    ensures
        row_view(r@) == seq![
            Some(DatumView::Int64(relid as i64)),
            Some(DatumView::Text(a.attname@)),
            Some(DatumView::Int64(a.atttypid as i64)),
            Some(DatumView::Int32(a.attlen as i32)),
            Some(DatumView::Int32(a.attnum as i32)),
            Some(DatumView::Bool(a.attnotnull)),
        ],
{
    let mut r: Vec<Option<Datum>> = Vec::new();
    r.push(Some(Datum::Int64(relid as i64)));
    r.push(Some(Datum::Text(a.attname.clone())));
    r.push(Some(Datum::Int64(a.atttypid as i64)));
    r.push(Some(Datum::Int32(a.attlen as i32)));
    r.push(Some(Datum::Int32(a.attnum as i32)));
    r.push(Some(Datum::Bool(a.attnotnull)));
    assert(row_view(r@) =~= seq![
        Some(DatumView::Int64(relid as i64)),
        Some(DatumView::Text(a.attname@)),
        Some(DatumView::Int64(a.atttypid as i64)),
        Some(DatumView::Int32(a.attlen as i32)),
        Some(DatumView::Int32(a.attnum as i32)),
        Some(DatumView::Bool(a.attnotnull)),
    ]);
    r
}

/// Records a new relation `rel_name` of database `db` with identifier
/// `new_oid`: one `pg_attribute` record per attribute of `tupledesc` (its
/// `attrelid` set to `new_oid`), the first page of `pg_class` if it has none,
/// one `pg_class` record, and the first page of the new relation.
/// Returns the new relation. Fails with the first error of those steps.
#[verifier::spinoff_prover]
#[verifier::rlimit(100)]
pub fn heap_create(pool: &mut BufferPool, db: u32, rel_name: &str, new_oid: u32, tupledesc: &TupleDesc) -> (r: Result<Relation, Error>)
    requires
        old(pool).wf(),
    ensures
        final(pool).wf(),
        final(pool).same_pins(old(pool)),
        r matches Ok(rel) ==> rel.locator == (RelLocator { tablespace: DEFAULT_TABLESPACE_OID, database: db, oid: new_oid })
            && rel.rel_name@ == rel_name.spec_bytes(),
        r is Ok ==> final(pool).rel_pages(RelLocator { tablespace: DEFAULT_TABLESPACE_OID, database: db, oid: new_oid }).len() >= 1,
        r is Ok && new_oid != PG_CLASS_RELATION_OID && new_oid != PG_ATTRIBUTE_RELATION_OID ==> {
            let l = RelLocator { tablespace: DEFAULT_TABLESPACE_OID, database: db, oid: new_oid };
            final(pool).rel_pages(l) == old(pool).rel_pages(l).push(crate::page::empty_page())
        },
        r is Ok && new_oid != PG_CLASS_RELATION_OID && crate::heap::pages_wf(old(pool).rel_pages(catalog_locator(db, PG_CLASS_RELATION_OID)))
            ==> all_items(final(pool).rel_pages(catalog_locator(db, PG_CLASS_RELATION_OID))).len() > 0
            && exists|i: int| 0 <= i < all_items(final(pool).rel_pages(catalog_locator(db, PG_CLASS_RELATION_OID))).len()
                && #[trigger] class_of_item(all_items(final(pool).rel_pages(catalog_locator(db, PG_CLASS_RELATION_OID)))[i])
                == Some((new_oid, rel_name.spec_bytes(), DEFAULT_TABLESPACE_OID)),
        create_ready(*old(pool), db, rel_name.spec_bytes(), new_oid, *tupledesc) ==> r is Ok,
        r is Ok && new_oid != PG_CLASS_RELATION_OID && old(pool).rel_pages(catalog_locator(db, PG_CLASS_RELATION_OID)).len() == 0
            ==> final(pool).rel_pages(catalog_locator(db, PG_CLASS_RELATION_OID)).len() == 1
                && exists|b: Seq<u8>| #[trigger] class_of_item(b) == Some((new_oid, rel_name.spec_bytes(), DEFAULT_TABLESPACE_OID))
                    && crate::page::item_added(crate::page::empty_page(), b, final(pool).rel_pages(catalog_locator(db, PG_CLASS_RELATION_OID))[0]),
        r is Ok && new_oid != PG_CLASS_RELATION_OID && new_oid != PG_ATTRIBUTE_RELATION_OID
            && crate::heap::pages_wf(old(pool).rel_pages(catalog_locator(db, PG_ATTRIBUTE_RELATION_OID)))
            && crate::heap::pages_wf(old(pool).rel_pages(catalog_locator(db, PG_CLASS_RELATION_OID)))
            ==> crate::heap::pages_wf(final(pool).rel_pages(catalog_locator(db, PG_ATTRIBUTE_RELATION_OID)))
                && crate::heap::pages_wf(final(pool).rel_pages(catalog_locator(db, PG_CLASS_RELATION_OID)))
                && (catalog_readable(*old(pool), db) ==> catalog_readable(*final(pool), db)),
        r is Ok && new_oid != PG_ATTRIBUTE_RELATION_OID && crate::heap::pages_wf(old(pool).rel_pages(catalog_locator(db, PG_ATTRIBUTE_RELATION_OID)))
            ==> all_items(final(pool).rel_pages(catalog_locator(db, PG_ATTRIBUTE_RELATION_OID))).len()
                == all_items(old(pool).rel_pages(catalog_locator(db, PG_ATTRIBUTE_RELATION_OID))).len() + tupledesc.attrs@.len(),
        r is Ok && new_oid != PG_ATTRIBUTE_RELATION_OID && crate::heap::pages_wf(old(pool).rel_pages(catalog_locator(db, PG_ATTRIBUTE_RELATION_OID)))
            ==> exists|bs: Seq<Seq<u8>>| bs.len() == tupledesc.attrs@.len()
                && (forall|k: int| 0 <= k < bs.len() ==> #[trigger] attr_of_item(bs[k]) == Some(attr_record(tupledesc.attrs@[k], new_oid)))
                && #[trigger] all_items(final(pool).rel_pages(catalog_locator(db, PG_ATTRIBUTE_RELATION_OID))).to_multiset()
                == all_items(old(pool).rel_pages(catalog_locator(db, PG_ATTRIBUTE_RELATION_OID))).to_multiset().add(bs.to_multiset()),
        r is Ok && new_oid != PG_CLASS_RELATION_OID && crate::heap::pages_wf(old(pool).rel_pages(catalog_locator(db, PG_CLASS_RELATION_OID)))
            ==> exists|b: Seq<u8>| #[trigger] class_of_item(b) == Some((new_oid, rel_name.spec_bytes(), DEFAULT_TABLESPACE_OID))
                && all_items(final(pool).rel_pages(catalog_locator(db, PG_CLASS_RELATION_OID))).to_multiset()
                == all_items(old(pool).rel_pages(catalog_locator(db, PG_CLASS_RELATION_OID))).to_multiset().insert(b),
{
    let ghost ready = create_ready(*old(pool), db, rel_name.spec_bytes(), new_oid, *tupledesc);
    let ghost patt = catalog_locator(db, PG_ATTRIBUTE_RELATION_OID);
    let ghost att_wf = crate::heap::pages_wf(old(pool).rel_pages(patt));
    let ghost pgc = catalog_locator(db, PG_CLASS_RELATION_OID);
    let ghost l0 = RelLocator { tablespace: DEFAULT_TABLESPACE_OID, database: db, oid: new_oid };
    let ghost other = new_oid != PG_CLASS_RELATION_OID && new_oid != PG_ATTRIBUTE_RELATION_OID;
    let name = rel_name.as_bytes_vec();
    let new_rel = Relation {
        locator: RelLocator { tablespace: DEFAULT_TABLESPACE_OID, database: db, oid: new_oid },
        rel_name: name,
    };
    let pg_attribute = pg_attribute_relation(db);
    let attr_desc = pg_attribute_desc();
    let mut k: usize = 0;
    let ghost mut bs: Seq<Seq<u8>> = seq![];
    proof {
        bs.to_multiset_ensures();
        vstd::multiset::lemma_multiset_empty_len(bs.to_multiset());
        assert(bs.to_multiset() =~= vstd::multiset::Multiset::empty());
        assert(all_items(old(pool).rel_pages(patt)).to_multiset().add(bs.to_multiset()) =~= all_items(old(pool).rel_pages(patt)).to_multiset());
    }
    while k < tupledesc.attrs.len()
        invariant
            pool.wf(),
            pool.same_pins(old(pool)),
            attr_desc.types() == attribute_types(),
            pg_attribute.locator == catalog_locator(db, PG_ATTRIBUTE_RELATION_OID),
            l0 == new_rel.locator,
            l0 == (RelLocator { tablespace: DEFAULT_TABLESPACE_OID, database: db, oid: new_oid }),
            other == (new_oid != PG_CLASS_RELATION_OID && new_oid != PG_ATTRIBUTE_RELATION_OID),
            other ==> pool.rel_pages(l0) == old(pool).rel_pages(l0),
            pgc == catalog_locator(db, PG_CLASS_RELATION_OID),
            pool.rel_pages(pgc) == old(pool).rel_pages(pgc),
            ready == create_ready(*old(pool), db, rel_name.spec_bytes(), new_oid, *tupledesc),
            patt == catalog_locator(db, PG_ATTRIBUTE_RELATION_OID),
            att_wf == crate::heap::pages_wf(old(pool).rel_pages(patt)),
            k <= tupledesc.attrs@.len(),
            ready ==> pool.rel_pages(patt).len() <= old(pool).rel_pages(patt).len() + k,
            att_wf ==> crate::heap::pages_wf(pool.rel_pages(patt))
                && all_items(pool.rel_pages(patt)).len() == all_items(old(pool).rel_pages(patt)).len() + k
                && all_items(pool.rel_pages(patt)).to_multiset() == all_items(old(pool).rel_pages(patt)).to_multiset().add(bs.to_multiset()),
            bs.len() == k,
            forall|j: int| 0 <= j < k ==> #[trigger] attr_of_item(bs[j]) == Some(attr_record(tupledesc.attrs@[j], new_oid)),
        decreases tupledesc.attrs@.len() - k,
    {
        let row = attribute_to_datums(&tupledesc.attrs[k], new_oid);
        proof {
            let rv = row_view(row@);
            assert(rv == attr_row(tupledesc.attrs@[k as int], new_oid));
            if ready {
                assert(tupledesc.attrs@[k as int].attname@.len() <= u32::MAX);
                assert forall|i: int| 0 <= i < rv.len() implies (#[trigger] rv[i] matches Some(d) ==> crate::tuple::typed(d, attribute_types()[i])) by {}
                assert(row_typed(rv, attr_desc.types()));
            }
        }
        let t = match HeapTuple::from_datums(&attr_desc, &row) {
            Ok(t) => t,
            Err(e) => return Err(e),
        };
        let ghost before = *pool;
        proof {
            assert(row_view(row@) == attr_row(tupledesc.attrs@[k as int], new_oid));
            lemma_attr_tuple(t, tupledesc.attrs@[k as int], new_oid);
            assert(t.header.null_bitmap@.len() == 1);
            assert(tuple_bytes(t).len() == record_len(attr_row(tupledesc.attrs@[k as int], new_oid)));
            if ready {
                pool.lemma_can_load_kept(old(pool));
                lemma_wf_headers(pool.rel_pages(patt));
                pool.lemma_wf_facts();
            }
        }
        match heap_insert(pool, &pg_attribute, &t) {
            Ok(()) => {
                proof {
                    if other {
                        assert(l0 != pg_attribute.locator);
                        assert(pool.rel_pages(l0) == before.rel_pages(l0));
                    }
                    assert(pgc != pg_attribute.locator);
                    assert(pool.rel_pages(pgc) == before.rel_pages(pgc));
                    lemma_inserted_len(before.rel_pages(patt), pool.rel_pages(patt), tuple_bytes(t));
                    let a = tupledesc.attrs@[k as int];
                    let old_bs = bs;
                    bs = bs.push(tuple_bytes(t));
                    if att_wf {
                        crate::heap::lemma_insert_visible(before.rel_pages(patt), pool.rel_pages(patt), tuple_bytes(t));
                        all_items(before.rel_pages(patt)).to_multiset_ensures();
                        all_items(pool.rel_pages(patt)).to_multiset_ensures();
                        old_bs.to_multiset_ensures();
                        assert(bs.to_multiset() =~= old_bs.to_multiset().insert(tuple_bytes(t)));
                        assert(all_items(pool.rel_pages(patt)).to_multiset() =~= all_items(old(pool).rel_pages(patt)).to_multiset().add(bs.to_multiset()));
                    }
                }
            },
            Err(e) => {
                proof { lemma_same_pins_trans(*pool, before, *old(pool)); }
                return Err(e);
            },
        }
        proof { lemma_same_pins_trans(*pool, before, *old(pool)); }
        k = k + 1;
    }
    let pg_class = pg_class_relation(db);
    let ghost class_before = pool.rel_pages(pgc);
    let ghost att_after = pool.rel_pages(patt);
    proof {
        pool.lemma_wf_facts();
    }
    if pool.size_of_relation(pg_class.locator) == 0 {
        let ghost before = *pool;
        proof {
            if ready {
                pool.lemma_can_load_kept(old(pool));
            }
        }
        let r0 = initialize_default_page_header(pool, &pg_class);
        proof {
            if other && r0 is Ok {
                assert(pool.rel_pages(l0) == before.rel_pages(l0));
            }
            if r0 is Ok && crate::heap::pages_wf(class_before) {
                let np = pool.rel_pages(pgc);
                assert(np == class_before.push(crate::page::empty_page()));
                assert forall|k2: int| 0 <= k2 < np.len() implies #[trigger] crate::page::page_wf(np[k2]) by {
                    if k2 < class_before.len() {
                        assert(np[k2] == class_before[k2]);
                    } else {
                        assert(np[k2] == crate::page::empty_page());
                        assert(crate::page::n_items(crate::page::empty_page()) == 0);
                    }
                }
            }
        }
        proof { lemma_same_pins_trans(*pool, before, *old(pool)); }
        if let Err(e) = r0 {
            return Err(e);
        }
    }
    let c = PgClass { oid: new_oid, relname: new_rel.rel_name.clone(), reltablespace: DEFAULT_TABLESPACE_OID };
    proof {
        let rv = row_view_of_class(c);
        if ready {
            assert forall|i: int| 0 <= i < rv.len() implies (#[trigger] rv[i] matches Some(d) ==> crate::tuple::typed(d, class_types()[i])) by {}
        }
    }
    let t = match HeapTuple::from_datums(&pg_class_desc(), &c.to_datums()) {
        Ok(t) => t,
        Err(e) => return Err(e),
    };
    let ghost before = *pool;
    proof {
        assert(row_view_of_class(c) == class_row(new_oid, rel_name.spec_bytes(), DEFAULT_TABLESPACE_OID));
        assert(t.header.null_bitmap@.len() == 1);
        assert(tuple_bytes(t).len() == record_len(row_view_of_class(c)));
        if ready {
            pool.lemma_can_load_kept(old(pool));
            pool.lemma_wf_facts();
            lemma_wf_headers(pool.rel_pages(pgc));
        }
    }
    let r1 = heap_insert(pool, &pg_class, &t);
    proof {
        lemma_same_pins_trans(*pool, before, *old(pool));
        if other && r1 is Ok {
            assert(pool.rel_pages(l0) == before.rel_pages(l0));
        }
    }
    if let Err(e) = r1 {
        return Err(e);
    }
    let ghost after_class = *pool;
    proof {
        if crate::heap::pages_wf(before.rel_pages(pgc)) {
            crate::heap::lemma_insert_visible(before.rel_pages(pgc), pool.rel_pages(pgc), tuple_bytes(t));
            lemma_class_tuple(t, c);
        }
    }
    let ghost before2 = *pool;
    proof {
        if ready {
            pool.lemma_can_load_kept(old(pool));
            pool.lemma_wf_facts();
            assert(pool.rel_pages(l0) == old(pool).rel_pages(l0));
        }
    }
    let r2 = initialize_default_page_header(pool, &new_rel);
    proof { lemma_same_pins_trans(*pool, before2, *old(pool)); }
    if let Err(e) = r2 {
        return Err(e);
    }
    proof {
        assert(patt != pgc);
        assert(before.rel_pages(patt) == att_after);
        if new_oid != PG_ATTRIBUTE_RELATION_OID && att_wf {
            assert(bs.len() == tupledesc.attrs@.len());
        }
        assert(after_class.rel_pages(patt) == att_after);
        if new_oid != PG_ATTRIBUTE_RELATION_OID {
            assert(new_rel.locator != patt);
            assert(pool.rel_pages(patt) == att_after);
        }
        if new_oid != PG_CLASS_RELATION_OID && crate::heap::pages_wf(old(pool).rel_pages(pgc)) {
            assert(new_rel.locator != pgc);
            assert(pool.rel_pages(pgc) == after_class.rel_pages(pgc));
            assert(crate::heap::pages_wf(before.rel_pages(pgc)));
            let items = all_items(pool.rel_pages(pgc));
            assert(items.contains(tuple_bytes(t)));
            let w = choose|w: int| 0 <= w < items.len() && items[w] == tuple_bytes(t);
            assert(class_of_item(items[w]) == Some((new_oid, rel_name.spec_bytes(), DEFAULT_TABLESPACE_OID)));
            if true {
                assert(patt != pgc);
            }
            if class_before.len() == 0 {
                let z = crate::page::empty_page();
                assert(crate::page::n_items(z) == 0);
                assert(before.rel_pages(pgc).drop_last() =~= class_before);
                assert(all_items(before.rel_pages(pgc)) =~= all_items(class_before));
            }
            assert(all_items(before.rel_pages(pgc)) == all_items(old(pool).rel_pages(pgc)));
            assert(class_of_item(tuple_bytes(t)) == Some((new_oid, rel_name.spec_bytes(), DEFAULT_TABLESPACE_OID)));
        }
        if new_oid != PG_CLASS_RELATION_OID && class_before.len() == 0 {
            let tb = tuple_bytes(t);
            let z = crate::page::empty_page();
            let bp = before.rel_pages(pgc);
            let np = after_class.rel_pages(pgc);
            assert(new_rel.locator != pgc);
            assert(pool.rel_pages(pgc) == np);
            assert(bp =~= seq![z]);
            assert(tb.len() <= crate::heap::MAX_TUPLE_SIZE);
            assert(crate::page::lower(z) == 6 && crate::page::upper(z) == 8192);
            let p = choose|p: int| #[trigger] crate::heap::inserted_at(bp, np, tb, p)
                && crate::heap::no_room_before(bp, p, tb.len() as int)
                && exists|b: int| #[trigger] after_class.holds(b, crate::buffer::BufferTag::of((p + 1) as u32, pgc)) && after_class.dirty(b);
            if p == 1 {
                assert(crate::page::header_ok(bp[0]) && crate::page::free_space(bp[0]) < tb.len() + crate::page::ITEM_ID_SIZE);
            }
            assert(p == 0);
            assert(np.len() == 1);
            assert(crate::page::item_added(z, tb, np[0]));
            lemma_class_tuple(t, c);
        }
        if new_oid != PG_CLASS_RELATION_OID && new_oid != PG_ATTRIBUTE_RELATION_OID
            && att_wf && crate::heap::pages_wf(old(pool).rel_pages(pgc)) {
            let tb = tuple_bytes(t);
            assert(crate::heap::pages_wf(pool.rel_pages(patt)));
            assert(crate::heap::pages_wf(pool.rel_pages(pgc)));
            if catalog_readable(*old(pool), db) {
                pool.lemma_can_load_kept(old(pool));
                let fc = pool.rel_pages(pgc);
                let fa = pool.rel_pages(patt);
                lemma_wf_ok(fc);
                lemma_wf_ok(fa);
                let one = seq![tb];
                assert(one =~= Seq::<Seq<u8>>::empty().push(tb));
                Seq::<Seq<u8>>::empty().to_multiset_ensures();
                assert(Seq::<Seq<u8>>::empty().to_multiset() =~= vstd::multiset::Multiset::empty()) by {
                    vstd::multiset::lemma_multiset_empty_len(Seq::<Seq<u8>>::empty().to_multiset());
                }
                assert(all_items(fc).to_multiset() == all_items(old(pool).rel_pages(pgc)).to_multiset().add(one.to_multiset())) by {
                    assert(all_items(fc).to_multiset() == all_items(old(pool).rel_pages(pgc)).to_multiset().insert(tb));
                    assert(one.to_multiset() =~= vstd::multiset::Multiset::empty().insert(tb));
                    assert(all_items(old(pool).rel_pages(pgc)).to_multiset().insert(tb) =~= all_items(old(pool).rel_pages(pgc)).to_multiset().add(one.to_multiset()));
                }
                let pc = |b: Seq<u8>| class_of_item(b) is Some;
                let pa = |b: Seq<u8>| attr_of_item(b) is Some;
                assert forall|j: int| 0 <= j < all_items(old(pool).rel_pages(pgc)).len() implies #[trigger] pc(all_items(old(pool).rel_pages(pgc))[j]) by {
                    assert(class_of_item(all_items(old(pool).rel_pages(pgc))[j]) is Some);
                }
                assert forall|j: int| 0 <= j < one.len() implies #[trigger] pc(one[j]) by {}
                lemma_all_kept(all_items(old(pool).rel_pages(pgc)), all_items(fc), one, pc);
                assert forall|j: int| 0 <= j < all_items(old(pool).rel_pages(patt)).len() implies #[trigger] pa(all_items(old(pool).rel_pages(patt))[j]) by {
                    assert(attr_of_item(all_items(old(pool).rel_pages(patt))[j]) is Some);
                }
                assert forall|j: int| 0 <= j < bs.len() implies #[trigger] pa(bs[j]) by {
                    assert(attr_of_item(bs[j]) is Some);
                }
                lemma_all_kept(all_items(old(pool).rel_pages(patt)), all_items(fa), bs, pa);
                assert forall|j: int| 0 <= j < all_items(fc).len() implies #[trigger] class_of_item(all_items(fc)[j]) is Some by {
                    assert(pc(all_items(fc)[j]));
                }
                assert forall|j: int| 0 <= j < all_items(fa).len() implies #[trigger] attr_of_item(all_items(fa)[j]) is Some by {
                    assert(pa(all_items(fa)[j]));
                }
                assert forall|i: int| 0 <= i < all_items(fc).len() implies #[trigger] crate::heap::framed(all_items(fc)[i]) by {
                    assert(class_of_item(all_items(fc)[i]) is Some);
                }
                assert forall|i: int| 0 <= i < all_items(fa).len() implies #[trigger] crate::heap::framed(all_items(fa)[i]) by {
                    assert(attr_of_item(all_items(fa)[i]) is Some);
                }
            }
        }
    }
    Ok(new_rel)
}

/// A property of every element of two sequences holds of every element of
/// a sequence whose multiset is their sum.
proof fn lemma_all_kept(old: Seq<Seq<u8>>, new: Seq<Seq<u8>>, extra: Seq<Seq<u8>>, p: spec_fn(Seq<u8>) -> bool)
    requires
        new.to_multiset() == old.to_multiset().add(extra.to_multiset()),
        forall|j: int| 0 <= j < old.len() ==> #[trigger] p(old[j]),
        forall|j: int| 0 <= j < extra.len() ==> #[trigger] p(extra[j]),
    ensures
        forall|j: int| 0 <= j < new.len() ==> #[trigger] p(new[j]),
{
    new.to_multiset_ensures();
    old.to_multiset_ensures();
    extra.to_multiset_ensures();
    assert forall|j: int| 0 <= j < new.len() implies #[trigger] p(new[j]) by {
        let x = new[j];
        assert(new.contains(x));
        if old.contains(x) {
            let w = choose|w: int| 0 <= w < old.len() && old[w] == x;
            assert(p(old[w]));
        } else {
            broadcast use vstd::multiset::group_multiset_axioms;
            assert(new.to_multiset().count(x) > 0);
            assert(old.to_multiset().count(x) == 0);
            assert(old.to_multiset().add(extra.to_multiset()).count(x) == old.to_multiset().count(x) + extra.to_multiset().count(x));
            assert(extra.contains(x));
            let w = choose|w: int| 0 <= w < extra.len() && extra[w] == x;
            assert(p(extra[w]));
        }
    }
}

/// Well-formed pages pass the reader's checks.
pub proof fn lemma_wf_ok(pages: Seq<Seq<u8>>)
    requires
        crate::heap::pages_wf(pages),
    ensures
        crate::heap::pages_ok(pages),
{
    assert forall|k: int| 0 <= k < pages.len() implies #[trigger] crate::page::page_ok(pages[k]) by {
        assert(crate::page::page_wf(pages[k]));
        let q = pages[k];
        assert forall|i: int| 0 <= i < crate::page::n_items(q) implies #[trigger] crate::page::item_ok(q, i) by {
            assert(crate::page::item_len(q, i) == 0 || crate::page::upper(q) <= crate::page::item_off(q, i));
        }
    }
}

/// The stored bytes of a `pg_class` tuple built from `c` read back as `c`.
proof fn lemma_class_tuple(t: HeapTuple, c: PgClass)
    requires
        bitmap_of(t.header.null_bitmap@, row_view_of_class(c)),
        t.data@ == enc_row(row_view_of_class(c)),
        row_typed(row_view_of_class(c), class_types()),
    ensures
        class_of_item(tuple_bytes(t)) == Some(c@),
        tuple_bytes(t).len() > 0,
{
    let rv = row_view_of_class(c);
    assert(t.header.null_bitmap@.len() == 1);
    lemma_tuple_parts(t);
    crate::tuple::lemma_row_round_trip(class_types(), t.header.null_bitmap@, rv);
    assert(as_oid(rv[0]) == Some(c.oid));
    assert(as_oid(rv[2]) == Some(c.reltablespace));
}

/// The record an attribute of relation `relid` is stored as.
pub open spec fn attr_record(a: PgAttribute, relid: u32) -> (u32, Seq<u8>, u32, i16, u16, bool) {
    (relid, a.attname@, a.atttypid, a.attlen, a.attnum, a.attnotnull)
}

/// The stored bytes of a `pg_attribute` tuple built from `a` read back as `a`.
proof fn lemma_attr_tuple(t: HeapTuple, a: PgAttribute, relid: u32)
    requires
        bitmap_of(t.header.null_bitmap@, attr_row(a, relid)),
        t.data@ == enc_row(attr_row(a, relid)),
        row_typed(attr_row(a, relid), attribute_types()),
    ensures
        attr_of_item(tuple_bytes(t)) == Some(attr_record(a, relid)),
        tuple_bytes(t).len() > 0,
{
    let rv = attr_row(a, relid);
    assert(t.header.null_bitmap@.len() == 1);
    lemma_tuple_parts(t);
    crate::tuple::lemma_row_round_trip(attribute_types(), t.header.null_bitmap@, rv);
    let len = a.attlen;
    let num = a.attnum;
    assert((len as i32) as i16 == len) by (bit_vector);
    assert((num as i32) as u16 == num) by (bit_vector);
    assert(as_oid(rv[0]) == Some(relid));
    assert(as_oid(rv[2]) == Some(a.atttypid));
}

pub open spec fn row_view_of_class(c: PgClass) -> Seq<Option<DatumView>> {
    class_row(c.oid, c.relname@, c.reltablespace)
}

/// The `pg_class` row of a record.
pub open spec fn class_row(oid: u32, name: Seq<u8>, ts: u32) -> Seq<Option<DatumView>> {
    seq![
        Some(DatumView::Int64(oid as i64)),
        Some(DatumView::Text(name)),
        Some(DatumView::Int64(ts as i64)),
    ]
}

/// The `pg_attribute` row of an attribute of relation `relid`.
pub open spec fn attr_row(a: PgAttribute, relid: u32) -> Seq<Option<DatumView>> {
    seq![
        Some(DatumView::Int64(relid as i64)),
        Some(DatumView::Text(a.attname@)),
        Some(DatumView::Int64(a.atttypid as i64)),
        Some(DatumView::Int32(a.attlen as i32)),
        Some(DatumView::Int32(a.attnum as i32)),
        Some(DatumView::Bool(a.attnotnull)),
    ]
}

/// Stored length of a catalog row with every value present (at most eight
/// attributes): framing, a one-byte bitmap, the values.
pub open spec fn record_len(row: Seq<Option<DatumView>>) -> int {
    3 + enc_row(row).len() as int
}

/// What `heap_create` needs to succeed: a block can be brought in, the
/// catalog pages are well formed and can grow by the records added, the new
/// relation is not a catalog relation and can grow, and every record fits
/// in a page.
pub open spec fn create_ready(pool: BufferPool, db: u32, name: Seq<u8>, new_oid: u32, desc: TupleDesc) -> bool {
    let att = pool.rel_pages(catalog_locator(db, PG_ATTRIBUTE_RELATION_OID));
    let cls = pool.rel_pages(catalog_locator(db, PG_CLASS_RELATION_OID));
    &&& pool.can_load()
    &&& crate::heap::pages_wf(att) && crate::heap::pages_wf(cls)
    &&& att.len() + desc.attrs@.len() < crate::storage::MAX_PAGES
    &&& cls.len() + 1 < crate::storage::MAX_PAGES
    &&& pool.rel_pages(RelLocator { tablespace: DEFAULT_TABLESPACE_OID, database: db, oid: new_oid }).len() + 1 < crate::storage::MAX_PAGES
    &&& new_oid != PG_CLASS_RELATION_OID && new_oid != PG_ATTRIBUTE_RELATION_OID
    &&& name.len() <= u32::MAX && record_len(class_row(new_oid, name, DEFAULT_TABLESPACE_OID)) <= crate::heap::MAX_TUPLE_SIZE
    &&& forall|k: int| 0 <= k < desc.attrs@.len() ==> (#[trigger] desc.attrs@[k]).attname@.len() <= u32::MAX
        && record_len(attr_row(desc.attrs@[k], new_oid)) <= crate::heap::MAX_TUPLE_SIZE
}

proof fn lemma_inserted_len(old: Seq<Seq<u8>>, new: Seq<Seq<u8>>, item: Seq<u8>)
    requires
        crate::heap::inserted(old, new, item),
    ensures
        old.len() <= new.len() <= old.len() + 1,
{
}

pub proof fn lemma_wf_headers(pages: Seq<Seq<u8>>)
    requires
        crate::heap::pages_wf(pages),
    ensures
        crate::heap::headers_ok(pages),
{
    assert forall|k: int| 0 <= k < pages.len() implies #[trigger] crate::page::header_ok(pages[k]) by {
        assert(crate::page::page_wf(pages[k]));
    }
}

/// Having the same pins is transitive.
pub proof fn lemma_same_pins_trans(a: BufferPool, b: BufferPool, c: BufferPool)
    requires
        a.same_pins(&b),
        b.same_pins(&c),
    ensures
        a.same_pins(&c),
{
    assert forall|x: int| #[trigger] a.valid_buffer(x) implies a.pins(x) == c.pins(x) by {
        assert(b.valid_buffer(x));
    }
}


/// The catalog of database `db` can be read through the pool: a block can
/// be brought in, the pages of `pg_class` and `pg_attribute` pass the
/// reader's checks, and every tuple of them is a readable record.
pub open spec fn catalog_readable(pool: BufferPool, db: u32) -> bool {
    let cls = pool.rel_pages(catalog_locator(db, PG_CLASS_RELATION_OID));
    let att = pool.rel_pages(catalog_locator(db, PG_ATTRIBUTE_RELATION_OID));
    &&& pool.can_load()
    &&& crate::heap::pages_ok(cls) && crate::heap::items_framed(cls)
    &&& forall|j: int| 0 <= j < all_items(cls).len() ==> #[trigger] class_of_item(all_items(cls)[j]) is Some
    &&& crate::heap::pages_ok(att) && crate::heap::items_framed(att)
    &&& forall|j: int| 0 <= j < all_items(att).len() ==> #[trigger] attr_of_item(all_items(att)[j]) is Some
}

/// `c` is the first `pg_class` record named `name` among `items`, all
/// records before it being readable.
pub open spec fn first_class_named(items: Seq<Seq<u8>>, name: Seq<u8>, c: (u32, Seq<u8>, u32)) -> bool {
    exists|i: int| 0 <= i < items.len() && #[trigger] class_of_item(items[i]) == Some(c) && c.1 == name
        && forall|j: int| 0 <= j < i ==> #[trigger] other_class(items[j], name)
}

/// The `pg_attribute` records of relation `oid` among `items`, in order.
pub open spec fn matching_attrs(items: Seq<Seq<u8>>, oid: u32) -> Seq<(u32, Seq<u8>, u32, i16, u16, bool)>
    decreases items.len(),
{
    if items.len() == 0 {
        seq![]
    } else {
        let prev = matching_attrs(items.drop_last(), oid);
        match attr_of_item(items.last()) {
            Some(a) => if a.0 == oid { prev.push(a) } else { prev },
            None => prev,
        }
    }
}

pub open spec fn attr_views(v: Seq<PgAttribute>) -> Seq<(u32, Seq<u8>, u32, i16, u16, bool)> {
    v.map_values(|a: PgAttribute| a@)
}

/// Index of the first record of `s` whose attribute number exceeds `n`.
pub open spec fn first_greater(s: Seq<(u32, Seq<u8>, u32, i16, u16, bool)>, n: u16) -> int
    decreases s.len(),
{
    if s.len() == 0 {
        0
    } else if s[0].4 > n {
        0
    } else {
        1 + first_greater(s.drop_first(), n)
    }
}

/// The records of `s` ordered by attribute number, records of equal number
/// in the order of `s`.
pub open spec fn sort_by_attnum(s: Seq<(u32, Seq<u8>, u32, i16, u16, bool)>) -> Seq<(u32, Seq<u8>, u32, i16, u16, bool)>
    decreases s.len(),
{
    if s.len() == 0 {
        s
    } else {
        let t = sort_by_attnum(s.drop_last());
        t.insert(first_greater(t, s.last().4), s.last())
    }
}

proof fn lemma_first_greater(s: Seq<(u32, Seq<u8>, u32, i16, u16, bool)>, n: u16, p: int)
    requires
        0 <= p <= s.len(),
        forall|j: int| 0 <= j < p ==> s[j].4 <= n,
        p < s.len() ==> s[p].4 > n,
    ensures
        first_greater(s, n) == p,
    decreases s.len(),
{
    if s.len() > 0 && p > 0 {
        lemma_first_greater(s.drop_first(), n, p - 1);
    }
}

/// Ordered by attribute number.
pub open spec fn sorted_by_attnum(v: Seq<PgAttribute>) -> bool {
    forall|i: int, j: int| 0 <= i < j < v.len() ==> v[i].attnum <= v[j].attnum
}

/// The schema of relation `rel_name` of database `db`: its `pg_class`
/// record is found as `get_pg_class_relation` does, then every readable
/// `pg_attribute` record of that relation is collected and ordered by
/// attribute number, records of equal number keeping their scan order.
/// Fails with the errors of the lookup (`RelationNotFound`
/// when no record has that name) and of scanning `pg_attribute`, and with
/// `CodecError` when a `pg_attribute` tuple cannot be read as a record.
pub fn tuple_desc_from_relation(pool: &mut BufferPool, db: u32, rel_name: &str) -> (r: Result<TupleDesc, Error>)
    requires
        old(pool).wf(),
    ensures
        final(pool).wf(),
        final(pool).same_contents(old(pool)),
        final(pool).same_pins(old(pool)),
        r matches Ok(d) ==> sorted_by_attnum(d.attrs@) && exists|c: (u32, Seq<u8>, u32)|
            first_class_named(all_items(old(pool).rel_pages(catalog_locator(db, PG_CLASS_RELATION_OID))), rel_name.spec_bytes(), c)
            && #[trigger] attr_views(d.attrs@).to_multiset() == matching_attrs(
                all_items(old(pool).rel_pages(catalog_locator(db, PG_ATTRIBUTE_RELATION_OID))), c.0).to_multiset()
            && attr_views(d.attrs@) == sort_by_attnum(matching_attrs(
                all_items(old(pool).rel_pages(catalog_locator(db, PG_ATTRIBUTE_RELATION_OID))), c.0)),
        r matches Err(Error::RelationNotFound(n)) ==> n@ == rel_name.spec_bytes()
            && forall|j: int| 0 <= j < all_items(old(pool).rel_pages(catalog_locator(db, PG_CLASS_RELATION_OID))).len()
                ==> #[trigger] other_class(all_items(old(pool).rel_pages(catalog_locator(db, PG_CLASS_RELATION_OID)))[j], rel_name.spec_bytes()),
        catalog_readable(*old(pool), db) ==> (r is Ok || (r matches Err(e) && e is RelationNotFound)),
{
    let ghost old_p = *pool;
    let c = match get_pg_class_relation(pool, db, rel_name) {
        Ok(c) => c,
        Err(e) => return Err(e),
    };
    proof {
        if catalog_readable(old_p, db) {
            pool.lemma_can_load_kept(&old_p);
        }
    }
    let ghost after_c = *pool;
    let rel = pg_attribute_relation(db);
    let desc = pg_attribute_desc();
    let tuples = match heap_scan(pool, &rel) {
        Ok(ts) => ts,
        Err(e) => {
            proof {
                assert forall|l: RelLocator| #[trigger] pool.rel_pages(l) == old_p.rel_pages(l) by {
                    assert(pool.rel_pages(l) == after_c.rel_pages(l));
                }
                lemma_same_pins_trans(*pool, after_c, old_p);
            }
            return Err(e);
        },
    };
    proof {
        assert forall|l: RelLocator| #[trigger] pool.rel_pages(l) == old_p.rel_pages(l) by {
            assert(pool.rel_pages(l) == after_c.rel_pages(l));
        }
        lemma_same_pins_trans(*pool, after_c, old_p);
    }
    let ghost items = all_items(old_p.rel_pages(rel.locator));
    let mut found: Vec<PgAttribute> = Vec::new();
    let mut i: usize = 0;
    proof {
        assert(attr_views(found@) =~= seq![]);
        assert(items.subrange(0, 0).len() == 0);
        assert(matching_attrs(items.subrange(0, 0), c.oid) == Seq::<(u32, Seq<u8>, u32, i16, u16, bool)>::empty());
        assert(sort_by_attnum(Seq::<(u32, Seq<u8>, u32, i16, u16, bool)>::empty()) == Seq::<(u32, Seq<u8>, u32, i16, u16, bool)>::empty());
    }
    while i < tuples.len()
        invariant
            old_p == *old(pool),
            pool.wf(),
            pool.same_contents(&old_p),
            pool.same_pins(&old_p),
            i <= tuples@.len(),
            items == all_items(old_p.rel_pages(rel.locator)),
            crate::heap::tuples_bytes(tuples@) == items,
            forall|x: int| 0 <= x < tuples@.len() ==> (#[trigger] tuples@[x]).header.null_bitmap@.len() <= MAX_BITMAP_LEN,
            desc.types() == attribute_types(),
            rel.locator == catalog_locator(db, PG_ATTRIBUTE_RELATION_OID),
            catalog_readable(old_p, db) ==> forall|j: int| 0 <= j < items.len() ==> #[trigger] attr_of_item(items[j]) is Some,
            sorted_by_attnum(found@),
            attr_views(found@).to_multiset() == matching_attrs(items.subrange(0, i as int), c.oid).to_multiset(),
            attr_views(found@) == sort_by_attnum(matching_attrs(items.subrange(0, i as int), c.oid)),
        decreases tuples@.len() - i,
    {
        let t = &tuples[i];
        proof {
            lemma_tuple_parts(*t);
            assert(items[i as int] == tuple_bytes(*t));
            let a = items.subrange(0, i as int);
            let b = items.subrange(0, i + 1);
            assert(b.drop_last() =~= a);
            assert(b.last() == items[i as int]);
        }
        let row = match t.datums(&desc) {
            Ok(row) => row,
            Err(e) => {
                assert(attr_of_item(items[i as int]) is None);
                return Err(e);
            },
        };
        let a = match attribute_from_row(&row) {
            Ok(a) => a,
            Err(e) => {
                assert(item_row(items[i as int], attribute_types()) == Some(row_view(row@)));
                assert(attr_of_item(items[i as int]) is None);
                return Err(e);
            },
        };
        proof {
            assert(item_row(items[i as int], attribute_types()) == Some(row_view(row@)));
            assert(attr_of_item(items[i as int]) == Some(a@));
        }
        if a.attrelid == c.oid {
            let mut p: usize = 0;
            while p < found.len() && found[p].attnum <= a.attnum
                invariant
                    p <= found@.len(),
                    forall|j: int| 0 <= j < p ==> found@[j].attnum <= a.attnum,
                decreases found@.len() - p,
            {
                p = p + 1;
            }
            let ghost old_found = found@;
            found.insert(p, a);
            proof {
                let av = a@;
                assert(attr_views(found@) =~= attr_views(old_found).subrange(0, p as int) + seq![av] + attr_views(old_found).subrange(p as int, old_found.len() as int));
                assert(attr_views(old_found) =~= attr_views(old_found).subrange(0, p as int) + attr_views(old_found).subrange(p as int, old_found.len() as int));
                assert(seq![av].to_multiset() =~= vstd::multiset::Multiset::empty().insert(av)) by {
                    assert(seq![av] =~= Seq::<(u32, Seq<u8>, u32, i16, u16, bool)>::empty().push(av));
                    Seq::<(u32, Seq<u8>, u32, i16, u16, bool)>::empty().to_multiset_ensures();
                }
                assert(matching_attrs(items.subrange(0, i + 1), c.oid) == matching_attrs(items.subrange(0, i as int), c.oid).push(av));
                matching_attrs(items.subrange(0, i as int), c.oid).to_multiset_ensures();
                let m = matching_attrs(items.subrange(0, i as int), c.oid);
                lemma_first_greater(attr_views(old_found), a.attnum, p as int);
                assert(m.push(av).drop_last() =~= m);
                assert(attr_views(found@) =~= attr_views(old_found).insert(p as int, av));
                assert(attr_views(found@) == sort_by_attnum(m.push(av)));
                assert(attr_views(found@).to_multiset() =~= attr_views(old_found).to_multiset().insert(av));
                assert forall|x: int, y: int| 0 <= x < y < found@.len() implies found@[x].attnum <= found@[y].attnum by {
                    if y == p && x < p {
                        assert(found@[x] == old_found[x]);
                    } else if x == p && p < y {
                        assert(found@[y] == old_found[y - 1]);
                        assert(old_found[p as int].attnum > a.attnum);
                    } else if x < p && y > p {
                        assert(old_found[x].attnum <= old_found[y - 1].attnum);
                    }
                }
            }
        } else {
            proof {
                assert(matching_attrs(items.subrange(0, i + 1), c.oid) == matching_attrs(items.subrange(0, i as int), c.oid));
            }
        }
        i = i + 1;
    }
    proof {
        assert(items.subrange(0, i as int) =~= items);
        let cls = all_items(old_p.rel_pages(catalog_locator(db, PG_CLASS_RELATION_OID)));
        assert(first_class_named(cls, rel_name.spec_bytes(), c@));
        assert(attr_views(found@).to_multiset() == matching_attrs(items, c@.0).to_multiset());
        assert(attr_views(found@) == sort_by_attnum(matching_attrs(items, c@.0)));
    }
    Ok(TupleDesc { attrs: found })
}

} // verus!
