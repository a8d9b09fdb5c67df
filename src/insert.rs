//! Inserting one row given as named columns: values are matched to the
//! relation's attributes by name, and attributes not named are NULL.
use vstd::prelude::*;
use vstd::string::StringSliceAdditionalSpecFns;

use crate::buffer::BufferPool;
use crate::catalog::{
    lemma_same_pins_trans, attr_views, catalog_locator, first_class_named, matching_attrs, sorted_by_attnum, PG_ATTRIBUTE_RELATION_OID, get_pg_class_relation, tuple_desc_from_relation, vec_eq,
    PG_CLASS_RELATION_OID,
};
use crate::heap::{all_items, heap_insert, inserted};
use crate::storage::{RelLocator, Relation};
use crate::tuple::{PgAttribute, bitmap_of, enc_row, frame, opt_view, row_view, Datum, DatumView, HeapTuple, TupleDesc};
use crate::Error;

verus! {

/// Index of the first of the first `n` columns named `name`.
pub open spec fn first_index(columns: Seq<Seq<u8>>, name: Seq<u8>, n: nat) -> Option<int>
    decreases n,
{
    if n == 0 {
        None
    } else {
        match first_index(columns, name, (n - 1) as nat) {
            Some(i) => Some(i),
            None => if columns[n - 1] == name { Some(n - 1) } else { None },
        }
    }
}

/// The row for the attributes `names`: the value of the first column of
/// the same name, or NULL.
pub open spec fn row_for(names: Seq<Seq<u8>>, columns: Seq<Seq<u8>>, values: Seq<Option<DatumView>>) -> Seq<Option<DatumView>> {
    Seq::new(names.len(), |k: int| match first_index(columns, names[k], columns.len()) {
        Some(i) => values[i],
        None => None,
    })
}

pub open spec fn names_of(attrs: Seq<PgAttribute>) -> Seq<Seq<u8>> {
    attrs.map_values(|a: PgAttribute| a.attname@)
}

pub open spec fn attr_names(desc: TupleDesc) -> Seq<Seq<u8>> {
    names_of(desc.attrs@)
}

pub open spec fn col_views(columns: Seq<Vec<u8>>) -> Seq<Seq<u8>> {
    columns.map_values(|c: Vec<u8>| c@)
}

fn copy_datum(d: &Option<Datum>) -> (r: Option<Datum>)
    ensures
        opt_view(r) == opt_view(*d),
{
    match d {
        None => None,
        Some(Datum::Bool(b)) => Some(Datum::Bool(*b)),
        Some(Datum::Int32(v)) => Some(Datum::Int32(*v)),
        Some(Datum::Int64(v)) => Some(Datum::Int64(*v)),
        Some(Datum::Text(t)) => Some(Datum::Text(t.clone())),
    }
}

/// Orders `values`, given for `columns`, as the attributes of `desc`.
/// Fails with `UnsupportedOperation` when there are not as many values as
/// columns.
pub fn row_for_columns(desc: &TupleDesc, columns: &Vec<Vec<u8>>, values: &Vec<Option<Datum>>) -> (r: Result<Vec<Option<Datum>>, Error>)
    ensures
        (values@.len() == columns@.len()) <==> r is Ok,
        r matches Ok(row) ==> row_view(row@) == row_for(attr_names(*desc), col_views(columns@), row_view(values@)),
        r matches Err(e) ==> e == Error::UnsupportedOperation,
{
    if values.len() != columns.len() {
        return Err(Error::UnsupportedOperation);
    }
    let ghost names = attr_names(*desc);
    let ghost cols = col_views(columns@);
    let mut row: Vec<Option<Datum>> = Vec::new();
    let mut k: usize = 0;
    while k < desc.attrs.len()
        invariant
            values@.len() == columns@.len(),
            names == attr_names(*desc),
            cols == col_views(columns@),
            k <= desc.attrs@.len(),
            row_view(row@) == row_for(names, cols, row_view(values@)).subrange(0, k as int),
        decreases desc.attrs@.len() - k,
    {
        let name = &desc.attrs[k].attname;
        let mut i: usize = 0;
        let mut found: Option<usize> = None;
        while i < columns.len()
            invariant
                i <= columns@.len(),
                cols == col_views(columns@),
                name@ == names[k as int],
                found is None ==> first_index(cols, name@, i as nat) is None,
                found matches Some(x) ==> first_index(cols, name@, i as nat) == Some(x as int) && x < columns@.len(),
            decreases columns@.len() - i,
        {
            if found.is_none() && vec_eq(&columns[i], name) {
                found = Some(i);
            }
            i = i + 1;
        }
        let v = match found {
            Some(x) => copy_datum(&values[x]),
            None => None,
        };
        let ghost old_row = row_view(row@);
        row.push(v);
        proof {
            assert(row_view(row@) =~= old_row.push(opt_view(v)));
            assert(row_view(row@) =~= row_for(names, cols, row_view(values@)).subrange(0, k + 1));
        }
        k = k + 1;
    }
    proof {
        assert(row_for(names, cols, row_view(values@)).subrange(0, k as int) =~= row_for(names, cols, row_view(values@)));
    }
    Ok(row)
}

/// The locator of the relation a `pg_class` record names, in database `db`.
pub open spec fn class_locator(c: (u32, Seq<u8>, u32), db: u32) -> RelLocator {
    RelLocator { tablespace: c.2, database: db, oid: c.0 }
}

/// The attribute types of a schema.
pub open spec fn types_of(ds: Seq<PgAttribute>) -> Seq<u32> {
    ds.map_values(|a: PgAttribute| a.atttypid)
}

/// The catalog can be read and names the relation `name` by the record `c`.
pub open spec fn table_found(pool: BufferPool, db: u32, name: Seq<u8>, c: (u32, Seq<u8>, u32)) -> bool {
    &&& crate::catalog::catalog_readable(pool, db)
    &&& first_class_named(all_items(pool.rel_pages(catalog_locator(db, PG_CLASS_RELATION_OID))), name, c)
}

/// What `insert_into` needs to succeed: the relation is found, as many
/// values as columns are given, the row built for any schema the catalog
/// records for it has the schema's types and fits in a page, and the
/// relation's pages are well formed and can grow.
pub open spec fn insert_ready(pool: BufferPool, db: u32, name: Seq<u8>, columns: Seq<Seq<u8>>, values: Seq<Option<DatumView>>) -> bool {
    exists|c: (u32, Seq<u8>, u32)| #[trigger] table_found(pool, db, name, c)
        && values.len() == columns.len()
        && crate::heap::pages_wf(pool.rel_pages(class_locator(c, db)))
        && pool.rel_pages(class_locator(c, db)).len() < crate::storage::MAX_PAGES
        && forall|ds: Seq<PgAttribute>| sorted_by_attnum(ds) && #[trigger] attr_views(ds).to_multiset() == matching_attrs(
            all_items(pool.rel_pages(catalog_locator(db, PG_ATTRIBUTE_RELATION_OID))), c.0).to_multiset()
            ==> crate::tuple::row_typed(row_for(names_of(ds), columns, values), types_of(ds))
                && ds.len() <= 8 * crate::tuple::MAX_BITMAP_LEN
                && 2 + (ds.len() + 7) / 8 + enc_row(row_for(names_of(ds), columns, values)).len() <= crate::heap::MAX_TUPLE_SIZE
}

/// Inserts one row into relation `table_name` of database `db`: the values
/// are given for `columns` and matched to the attributes by name, attributes
/// not named getting NULL. Fails with `UnsupportedOperation` when there are
/// not as many values as columns, with `CodecError` when a value does not
/// fit its attribute's type, and with the errors of the catalog lookups and
/// of `heap_insert`.
pub fn insert_into(pool: &mut BufferPool, db: u32, table_name: &str, columns: &Vec<Vec<u8>>, values: &Vec<Option<Datum>>) -> (r: Result<(), Error>)
    requires
        old(pool).wf(),
    ensures
        final(pool).wf(),
        final(pool).same_pins(old(pool)),
        r is Ok ==> exists|c: (u32, Seq<u8>, u32), ds: Seq<PgAttribute>, bm: Seq<u8>|
            #[trigger] first_class_named(all_items(old(pool).rel_pages(catalog_locator(db, PG_CLASS_RELATION_OID))), table_name.spec_bytes(), c)
            && #[trigger] attr_views(ds).to_multiset() == matching_attrs(
                all_items(old(pool).rel_pages(catalog_locator(db, PG_ATTRIBUTE_RELATION_OID))), c.0).to_multiset()
            && sorted_by_attnum(ds)
            && #[trigger] bitmap_of(bm, row_for(names_of(ds), col_views(columns@), row_view(values@)))
            && inserted(old(pool).rel_pages(class_locator(c, db)), final(pool).rel_pages(class_locator(c, db)), frame(bm, enc_row(row_for(names_of(ds), col_views(columns@), row_view(values@))))),
        r matches Err(Error::RelationNotFound(n)) ==> n@ == table_name.spec_bytes()
            && forall|j: int| 0 <= j < all_items(old(pool).rel_pages(catalog_locator(db, PG_CLASS_RELATION_OID))).len()
                ==> #[trigger] crate::catalog::other_class(all_items(old(pool).rel_pages(catalog_locator(db, PG_CLASS_RELATION_OID)))[j], table_name.spec_bytes()),
        (exists|c: (u32, Seq<u8>, u32)| #[trigger] table_found(*old(pool), db, table_name.spec_bytes(), c))
            && values@.len() != columns@.len() ==> r == Err::<(), Error>(Error::UnsupportedOperation),
        insert_ready(*old(pool), db, table_name.spec_bytes(), col_views(columns@), row_view(values@)) ==> r is Ok,
{
    let ghost old_p = *pool;
    let ghost name = table_name.spec_bytes();
    let ghost cls = all_items(old_p.rel_pages(catalog_locator(db, PG_CLASS_RELATION_OID)));
    let ghost atts = all_items(old_p.rel_pages(catalog_locator(db, PG_ATTRIBUTE_RELATION_OID)));
    let ghost found = exists|c: (u32, Seq<u8>, u32)| #[trigger] table_found(old_p, db, name, c);
    let ghost ready = insert_ready(old_p, db, name, col_views(columns@), row_view(values@));
    let ghost mut cw: (u32, Seq<u8>, u32) = (0, Seq::empty(), 0);
    proof {
        if ready {
            cw = choose|c: (u32, Seq<u8>, u32)| #[trigger] table_found(old_p, db, name, c)
                && values@.len() == columns@.len()
                && crate::heap::pages_wf(old_p.rel_pages(class_locator(c, db)))
                && old_p.rel_pages(class_locator(c, db)).len() < crate::storage::MAX_PAGES
                && forall|ds: Seq<PgAttribute>| sorted_by_attnum(ds) && #[trigger] attr_views(ds).to_multiset() == matching_attrs(atts, c.0).to_multiset()
                    ==> crate::tuple::row_typed(row_for(names_of(ds), col_views(columns@), row_view(values@)), types_of(ds))
                        && ds.len() <= 8 * crate::tuple::MAX_BITMAP_LEN
                        && 2 + (ds.len() + 7) / 8 + enc_row(row_for(names_of(ds), col_views(columns@), row_view(values@))).len() <= crate::heap::MAX_TUPLE_SIZE;
        } else if found {
            cw = choose|c: (u32, Seq<u8>, u32)| #[trigger] table_found(old_p, db, name, c);
        }
    }
    let c = match get_pg_class_relation(pool, db, table_name) {
        Ok(c) => c,
        Err(e) => {
            proof {
                if found {
                    assert(table_found(old_p, db, name, cw));
                    let i = choose|i: int| 0 <= i < cls.len() && #[trigger] crate::catalog::class_of_item(cls[i]) == Some(cw) && cw.1 == name
                        && forall|j: int| 0 <= j < i ==> #[trigger] crate::catalog::other_class(cls[j], name);
                    assert(!crate::catalog::other_class(cls[i], name));
                }
            }
            return Err(e);
        },
    };
    let ghost s1 = *pool;
    proof {
        if found {
            assert(table_found(old_p, db, name, cw));
            lemma_first_unique(cls, name, c@, cw);
            s1.lemma_can_load_kept(&old_p);
            assert(crate::catalog::catalog_readable(s1, db));
        }
    }
    let desc = match tuple_desc_from_relation(pool, db, table_name) {
        Ok(d) => d,
        Err(e) => {
            proof {
                lemma_same_pins_trans(*pool, s1, old_p);
                assert(s1.rel_pages(catalog_locator(db, PG_CLASS_RELATION_OID)) == old_p.rel_pages(catalog_locator(db, PG_CLASS_RELATION_OID)));
                if found {
                    let i = choose|i: int| 0 <= i < cls.len() && #[trigger] crate::catalog::class_of_item(cls[i]) == Some(cw) && cw.1 == name
                        && forall|j: int| 0 <= j < i ==> #[trigger] crate::catalog::other_class(cls[j], name);
                    assert(!crate::catalog::other_class(cls[i], name));
                }
            }
            return Err(e);
        },
    };
    let ghost s2 = *pool;
    proof {
        lemma_same_pins_trans(s2, s1, old_p);
        let c2 = choose|c2: (u32, Seq<u8>, u32)| first_class_named(cls, name, c2)
            && #[trigger] attr_views(desc.attrs@).to_multiset() == matching_attrs(atts, c2.0).to_multiset();
        lemma_first_unique(cls, name, c@, c2);
        if ready {
            assert(attr_views(desc.attrs@).to_multiset() == matching_attrs(atts, cw.0).to_multiset());
            assert(types_of(desc.attrs@) == desc.types());
            assert(names_of(desc.attrs@) == attr_names(desc));
        }
    }
    let row = match row_for_columns(&desc, columns, values) {
        Ok(row) => row,
        Err(e) => return Err(e),
    };
    let t = match HeapTuple::from_datums(&desc, &row) {
        Ok(t) => t,
        Err(e) => return Err(e),
    };
    proof {
        if ready {
            s2.lemma_can_load_kept(&old_p);
            s2.lemma_wf_facts();
            let l = class_locator(c@, db);
            assert(s2.rel_pages(l) == old_p.rel_pages(l));
            crate::catalog::lemma_wf_headers(s2.rel_pages(l));
            assert(t.header.null_bitmap@.len() == (desc.attrs@.len() + 7) / 8);
        }
    }
    let rel = Relation { locator: RelLocator { tablespace: c.reltablespace, database: db, oid: c.oid }, rel_name: c.relname.clone() };
    let res = heap_insert(pool, &rel, &t);
    proof {
        lemma_same_pins_trans(*pool, s2, old_p);
        if res is Ok {
            let l = class_locator(c@, db);
            assert(s2.rel_pages(l) == s1.rel_pages(l));
            assert(s1.rel_pages(l) == old_p.rel_pages(l));
            let rv = row_view(row@);
            assert(bitmap_of(t.header.null_bitmap@, rv));
            assert(first_class_named(all_items(old_p.rel_pages(catalog_locator(db, PG_CLASS_RELATION_OID))), table_name.spec_bytes(), c@));
            assert(rv == row_for(names_of(desc.attrs@), col_views(columns@), row_view(values@)));
            let cls = all_items(old_p.rel_pages(catalog_locator(db, PG_CLASS_RELATION_OID)));
            let atts = all_items(old_p.rel_pages(catalog_locator(db, PG_ATTRIBUTE_RELATION_OID)));
            assert(s1.rel_pages(catalog_locator(db, PG_CLASS_RELATION_OID)) == old_p.rel_pages(catalog_locator(db, PG_CLASS_RELATION_OID)));
            assert(s1.rel_pages(catalog_locator(db, PG_ATTRIBUTE_RELATION_OID)) == old_p.rel_pages(catalog_locator(db, PG_ATTRIBUTE_RELATION_OID)));
            let c2 = choose|c2: (u32, Seq<u8>, u32)| first_class_named(cls, table_name.spec_bytes(), c2)
                && #[trigger] attr_views(desc.attrs@).to_multiset() == matching_attrs(atts, c2.0).to_multiset();
            lemma_first_unique(cls, table_name.spec_bytes(), c@, c2);
            assert(first_class_named(cls, table_name.spec_bytes(), c@));
            assert(attr_views(desc.attrs@).to_multiset() == matching_attrs(atts, c@.0).to_multiset());
            assert(inserted(old_p.rel_pages(l), pool.rel_pages(l), frame(t.header.null_bitmap@, enc_row(rv))));
        }
    }
    res
}

proof fn lemma_first_unique(items: Seq<Seq<u8>>, name: Seq<u8>, c1: (u32, Seq<u8>, u32), c2: (u32, Seq<u8>, u32))
    requires
        first_class_named(items, name, c1),
        first_class_named(items, name, c2),
    ensures
        c1 == c2,
{
    let i1 = choose|i: int| 0 <= i < items.len() && #[trigger] crate::catalog::class_of_item(items[i]) == Some(c1) && c1.1 == name
        && forall|j: int| 0 <= j < i ==> #[trigger] crate::catalog::other_class(items[j], name);
    let i2 = choose|i: int| 0 <= i < items.len() && #[trigger] crate::catalog::class_of_item(items[i]) == Some(c2) && c2.1 == name
        && forall|j: int| 0 <= j < i ==> #[trigger] crate::catalog::other_class(items[j], name);
    if i1 < i2 {
        assert(crate::catalog::other_class(items[i1], name));
    } else if i2 < i1 {
        assert(crate::catalog::other_class(items[i2], name));
    }
}

} // verus!
