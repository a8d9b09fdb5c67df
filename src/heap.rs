//! Heap access: inserting tuples into the pages of a relation and scanning
//! them back, page by page and item by item.
use vstd::prelude::*;

use crate::buffer::{Buffer, BufferPool, BufferTag};
use crate::storage::{RelLocator, Relation, MAX_PAGES};
use crate::tuple::{frame, HeapTuple};
use crate::Error;
use crate::page::{free_space, header_ok, item_added, page_items, page_wf, added_items, ITEM_ID_SIZE, PAGE_SIZE};

verus! {

broadcast use vstd::seq_lib::lemma_multiset_commutative;

/// Largest encoded tuple a page can take.
pub const MAX_TUPLE_SIZE: usize = 8182;

/// The tuples of a sequence of pages, in page order then item-id order.
pub open spec fn all_items(pages: Seq<Seq<u8>>) -> Seq<Seq<u8>>
    decreases pages.len(),
{
    if pages.len() == 0 {
        seq![]
    } else {
        all_items(pages.drop_last()) + page_items(pages.last())
    }
}

/// Every page is well formed.
pub open spec fn pages_wf(pages: Seq<Seq<u8>>) -> bool {
    forall|k: int| 0 <= k < pages.len() ==> #[trigger] page_wf(pages[k])
}

/// The all-zero page a relation grows by.
pub open spec fn zero_page() -> Seq<u8> {
    Seq::new(PAGE_SIZE as nat, |j: int| 0u8)
}

/// `new` is `old` with `item` added to one page, an existing one or one
/// appended to the relation.
pub open spec fn inserted(old: Seq<Seq<u8>>, new: Seq<Seq<u8>>, item: Seq<u8>) -> bool {
    ||| exists|k: int| 0 <= k < old.len() && new == old.update(k, new[k]) && #[trigger] item_added(old[k], item, new[k])
    ||| (new.len() == old.len() + 1 && new.drop_last() == old && item_added(zero_page(), item, new.last()))
}

proof fn lemma_all_items_update(pages: Seq<Seq<u8>>, k: int, q: Seq<u8>, item: Seq<u8>)
    requires
        0 <= k < pages.len(),
        page_items(q) == page_items(pages[k]) + seq![item],
    ensures
        all_items(pages.update(k, q)).to_multiset() == all_items(pages).to_multiset().insert(item),
        all_items(pages.update(k, q)).contains(item),
    decreases pages.len(),
{
    let u = pages.update(k, q);
    if k == pages.len() - 1 {
        assert(u.drop_last() =~= pages.drop_last());
        assert(all_items(u) == all_items(pages.drop_last()) + page_items(q));
        assert(all_items(u) =~= (all_items(pages.drop_last()) + page_items(pages.last())).push(item));
        assert(all_items(u).to_multiset() =~= all_items(pages).to_multiset().insert(item)) by {
            all_items(pages).to_multiset_ensures();
        }
        assert(all_items(u)[all_items(u).len() - 1] == item);
    } else {
        lemma_all_items_update(pages.drop_last(), k, q, item);
        assert(u.drop_last() =~= pages.drop_last().update(k, q));
        assert(u.last() == pages.last());
        let a = all_items(u.drop_last());
        let w = choose|w: int| 0 <= w < a.len() && a[w] == item;
        assert(all_items(u)[w] == item);
    }
}

proof fn lemma_zero_page_wf()
    ensures
        page_wf(zero_page()),
        page_items(zero_page()) == Seq::<Seq<u8>>::empty(),
{
    let z = zero_page();
    assert(crate::page::n_items(z) == 0);
}

/// Inserting a non-empty tuple into well-formed pages keeps them well formed,
/// adds it once to the relation's tuples, and makes it visible.
pub proof fn lemma_insert_visible(old: Seq<Seq<u8>>, new: Seq<Seq<u8>>, item: Seq<u8>)
    requires
        pages_wf(old),
        inserted(old, new, item),
        item.len() > 0,
    ensures
        pages_wf(new),
        all_items(new).to_multiset() == all_items(old).to_multiset().insert(item),
        all_items(new).contains(item),
{
    assert(added_items(item) == seq![item]);
    if exists|k: int| 0 <= k < old.len() && new == old.update(k, new[k]) && #[trigger] item_added(old[k], item, new[k]) {
        let k = choose|k: int| 0 <= k < old.len() && new == old.update(k, new[k]) && #[trigger] item_added(old[k], item, new[k]);
        crate::page::lemma_add_item_appends(old[k], item, new[k]);
        lemma_all_items_update(old, k, new[k], item);
    } else {
        lemma_zero_page_wf();
        crate::page::lemma_add_item_appends(zero_page(), item, new.last());
        let z = old.push(zero_page());
        assert(z.drop_last() =~= old);
        assert(all_items(z) =~= all_items(old));
        assert(new =~= z.update(old.len() as int, new.last()));
        lemma_all_items_update(z, old.len() as int, new.last(), item);
    }
}

/// After a framed tuple is inserted into well-formed pages whose tuples are
/// all framed, the pages pass the reader's checks, every tuple is framed, and
/// the new tuple is among them: a scan that can bring pages in returns it.
pub proof fn lemma_scan_sees_insert(old: Seq<Seq<u8>>, new: Seq<Seq<u8>>, item: Seq<u8>)
    requires
        pages_wf(old),
        items_framed(old),
        inserted(old, new, item),
        framed(item),
    ensures
        pages_wf(new),
        pages_ok(new),
        items_framed(new),
        all_items(new).contains(item),
{
    broadcast use vstd::multiset::group_multiset_axioms;
    lemma_insert_visible(old, new, item);
    crate::catalog::lemma_wf_ok(new);
    let a = all_items(old);
    let b = all_items(new);
    a.to_multiset_ensures();
    b.to_multiset_ensures();
    assert forall|i: int| 0 <= i < b.len() implies #[trigger] framed(b[i]) by {
        let x = b[i];
        assert(b.contains(x));
        assert(b.to_multiset().count(x) > 0);
        if x != item {
            assert(a.to_multiset().count(x) > 0);
            assert(a.contains(x));
            let w = choose|w: int| 0 <= w < a.len() && a[w] == x;
            assert(framed(a[w]));
        }
    }
}

/// A sequence of inserts into well-formed pages keeps them well formed and
/// adds exactly the inserted tuples to the relation's tuples, counted with
/// multiplicity.
pub proof fn lemma_inserts_grow(states: Seq<Seq<Seq<u8>>>, items: Seq<Seq<u8>>)
    requires
        states.len() == items.len() + 1,
        pages_wf(states[0]),
        forall|i: int| 0 <= i < items.len() ==> #[trigger] inserted(states[i], states[i + 1], items[i]),
        forall|i: int| 0 <= i < items.len() ==> #[trigger] items[i].len() > 0,
    ensures
        pages_wf(states.last()),
        all_items(states.last()).to_multiset() == all_items(states[0]).to_multiset().add(items.to_multiset()),
    decreases items.len(),
{
    broadcast use vstd::multiset::group_multiset_axioms;
    if items.len() == 0 {
        items.to_multiset_ensures();
        vstd::multiset::lemma_multiset_empty_len(items.to_multiset());
        assert(all_items(states[0]).to_multiset().add(items.to_multiset()) =~= all_items(states[0]).to_multiset());
    } else {
        let n = items.len() - 1;
        let s2 = states.drop_last();
        let i2 = items.drop_last();
        assert forall|i: int| 0 <= i < i2.len() implies #[trigger] inserted(s2[i], s2[i + 1], i2[i]) by {
            assert(inserted(states[i], states[i + 1], items[i]));
        }
        assert forall|i: int| 0 <= i < i2.len() implies #[trigger] i2[i].len() > 0 by {
            assert(items[i].len() > 0);
        }
        lemma_inserts_grow(s2, i2);
        assert(inserted(states[n], states[n + 1], items[n]));
        assert(items[n].len() > 0);
        lemma_insert_visible(states[n], states[n + 1], items[n]);
        assert(items =~= i2.push(items[n]));
        i2.to_multiset_ensures();
        assert(all_items(states.last()).to_multiset() =~= all_items(states[0]).to_multiset().add(items.to_multiset()));
    }
}

/// A sequence of inserts into a fresh relation (no tuples, pages well
/// formed, such as one with no pages or one just created) leaves exactly the
/// inserted tuples in it, counted with multiplicity.
pub proof fn lemma_inserts_from_empty(states: Seq<Seq<Seq<u8>>>, items: Seq<Seq<u8>>)
    requires
        states.len() == items.len() + 1,
        pages_wf(states[0]),
        all_items(states[0]).len() == 0,
        forall|i: int| 0 <= i < items.len() ==> #[trigger] inserted(states[i], states[i + 1], items[i]),
        forall|i: int| 0 <= i < items.len() ==> #[trigger] items[i].len() > 0,
    ensures
        pages_wf(states.last()),
        all_items(states.last()).to_multiset() == items.to_multiset(),
{
    broadcast use vstd::multiset::group_multiset_axioms;
    lemma_inserts_grow(states, items);
    all_items(states[0]).to_multiset_ensures();
    vstd::multiset::lemma_multiset_empty_len(all_items(states[0]).to_multiset());
    assert(all_items(states[0]).to_multiset().add(items.to_multiset()) =~= items.to_multiset());
}

/// None of the first `n` pages has room for `required` bytes and an item id.
pub open spec fn no_room_before(pages: Seq<Seq<u8>>, n: int, required: int) -> bool {
    forall|k: int| 0 <= k < n ==> header_ok(#[trigger] pages[k]) && free_space(pages[k]) < required + ITEM_ID_SIZE
}

/// `new` is `old` with `item` added to page `p` (0-based), an existing page
/// or the one appended to the relation.
pub open spec fn inserted_at(old: Seq<Seq<u8>>, new: Seq<Seq<u8>>, item: Seq<u8>, p: int) -> bool {
    ||| (0 <= p < old.len() && new == old.update(p, new[p]) && item_added(old[p], item, new[p]))
    ||| (p == old.len() && new.len() == old.len() + 1 && new.drop_last() == old && item_added(zero_page(), item, new.last()))
}

/// Every page's header is sound.
pub open spec fn headers_ok(pages: Seq<Seq<u8>>) -> bool {
    forall|k: int| 0 <= k < pages.len() ==> #[trigger] header_ok(pages[k])
}

/// Returns a pinned frame holding a page of `loc` whose free space takes
/// `required` bytes and one item id: the first such page, or else a page
/// appended to the relation. Fails with `PageCorruption` when a page
/// inspected has an unsound header, and with the pool's errors when a page
/// cannot be brought in or the relation cannot grow; all pins taken are
/// dropped again.
pub fn get_page_with_free_space(pool: &mut BufferPool, loc: RelLocator, required: usize) -> (r: Result<Buffer, Error>)
    requires
        old(pool).wf(),
        required <= MAX_TUPLE_SIZE,
    ensures
        final(pool).wf(),
        old(pool).can_load() && headers_ok(old(pool).rel_pages(loc)) && old(pool).disk(loc).len() < MAX_PAGES ==> r is Ok,
        r is Err ==> final(pool).same_contents(old(pool)) && final(pool).same_pins(old(pool)),
        r matches Err(e) ==> !(e is RelationNotFound),
        r matches Ok(b) ==> {
            &&& final(pool).valid_buffer(b as int)
            &&& final(pool).tag_of(b as int).locator() == loc
            &&& final(pool).holds(b as int, final(pool).tag_of(b as int))
            &&& final(pool).pins(b as int) == old(pool).pins(b as int) + 1
            &&& final(pool).free_frames().len() + final(pool).lru_order().len() + (if old(pool).pins(b as int) == 0 { 1int } else { 0int })
                == old(pool).free_frames().len() + old(pool).lru_order().len()
            &&& forall|c: int| #[trigger] old(pool).valid_buffer(c) && c != b ==> final(pool).pins(c) == old(pool).pins(c)
            &&& final(pool).capacity() == old(pool).capacity()
            &&& header_ok(final(pool).frame_page(b as int))
            &&& free_space(final(pool).frame_page(b as int)) >= required + ITEM_ID_SIZE
            &&& 1 <= final(pool).tag_of(b as int).page_number <= final(pool).rel_pages(loc).len()
            &&& final(pool).frame_page(b as int) == final(pool).rel_pages(loc)[final(pool).tag_of(b as int).page_number - 1]
            &&& final(pool).same_contents(old(pool)) || (
                final(pool).rel_pages(loc) == old(pool).rel_pages(loc).push(zero_page())
                && final(pool).tag_of(b as int).page_number == final(pool).rel_pages(loc).len()
                && forall|l: RelLocator| l != loc ==> #[trigger] final(pool).rel_pages(l) == old(pool).rel_pages(l))
            &&& no_room_before(old(pool).rel_pages(loc), final(pool).tag_of(b as int).page_number - 1, required as int)
        },
{
    let ghost old_p = *pool;
    let size = pool.size_of_relation(loc);
    let mut pn: u32 = 1;
    proof {
        old_p.lemma_wf_facts();
    }
    while pn <= size
        invariant
            old_p == *old(pool),
            pool.wf(),
            size as int == old_p.rel_pages(loc).len(),
            1 <= pn <= size + 1,
            size <= MAX_PAGES,
            pool.same_contents(&old_p),
            pool.same_pins(&old_p),
            pool.disk(loc).len() == old_p.disk(loc).len(),
            required <= MAX_TUPLE_SIZE,
            no_room_before(old_p.rel_pages(loc), pn - 1, required as int),
        decreases size + 1 - pn,
    {
        let ghost before = *pool;
        proof {
            pool.lemma_wf_facts();
            let t = BufferTag::of(pn, loc);
            if old_p.can_load() {
                assert forall|c: int| #[trigger] pool.valid_buffer(c) implies pool.pins(c) < usize::MAX by {
                    assert(old_p.valid_buffer(c));
                }
                assert(pool.can_load());
                if pool.is_cached(t) {
                    let c = pool.buffer_of(t);
                    assert(pool.holds(c, t));
                    assert(pool.valid_buffer(c));
                }
            }
        }
        let b = match pool.fetch_buffer(loc, pn) {
            Ok(b) => b,
            Err(e) => {
                assert(*pool == before);
                return Err(e);
            },
        };
        let ghost fetched = *pool;
        let page = match pool.get_page(b) {
            Ok(p) => p,
            Err(e) => {
                assert(false);
                return Err(e);
            },
        };
        proof {
            pool.lemma_wf_facts();
        }
        proof {
            assert(page@ == old_p.rel_pages(loc)[pn - 1]) by {
                assert(fetched.rel_pages(loc) == before.rel_pages(loc));
                assert(before.rel_pages(loc) == old_p.rel_pages(loc));
            }
            if headers_ok(old_p.rel_pages(loc)) {
                assert(header_ok(old_p.rel_pages(loc)[pn - 1]));
            }
            assert(old_p.valid_buffer(b as int));
            assert(before.valid_buffer(b as int));
            assert(before.pins(b as int) == old_p.pins(b as int));
            assert forall|l: RelLocator| #[trigger] pool.rel_pages(l) == old_p.rel_pages(l) by {
                assert(pool.rel_pages(l) == before.rel_pages(l));
            }
        }
        let fs = crate::page::page_free_space(page.as_bytes());
        match fs {
            Some(f) => {
                if f >= required + ITEM_ID_SIZE {
                    proof {
                        assert(pool.tag_of(b as int) == BufferTag::of(pn, loc));
                        assert forall|c: int| #[trigger] old_p.valid_buffer(c) && c != b implies pool.pins(c) == old_p.pins(c) by {
                            assert(before.valid_buffer(c));
                            assert(pool.resident(c) == before.resident(c));
                        }
                        assert(pool.rel_pages(loc) == old_p.rel_pages(loc));
                    }
                    return Ok(b);
                }
            },
            None => {},
        }
        let u = pool.unpin_buffer(b, false);
        assert(u is Ok);
        proof {
            assert forall|c: int| #[trigger] pool.valid_buffer(c) implies pool.pins(c) == old_p.pins(c) by {
                assert(before.valid_buffer(c));
                if c != b {
                    assert(fetched.resident(c) == before.resident(c));
                }
                assert(pool.resident(c) == fetched.resident(c));
            }
            assert forall|l: RelLocator| #[trigger] pool.rel_pages(l) == old_p.rel_pages(l) by {
                assert(pool.rel_pages(l) == fetched.rel_pages(l));
                assert(fetched.rel_pages(l) == before.rel_pages(l));
            }
            pool.lemma_wf_facts();
            fetched.lemma_wf_facts();
            before.lemma_wf_facts();
        }
        if fs.is_none() {
            return Err(Error::PageCorruption);
        }
        pn = pn + 1;
    }
    let ghost before = *pool;
    let b = match pool.alloc_buffer(loc) {
        Ok(b) => b,
        Err(e) => {
            return Err(e);
        },
    };
    proof {
        pool.lemma_wf_facts();
        before.lemma_wf_facts();
        assert(old_p.valid_buffer(b as int));
        assert(before.valid_buffer(b as int));
        assert(before.pins(b as int) == old_p.pins(b as int));
        let z = pool.frame_page(b as int);
        assert(z == zero_page());
        assert(crate::page::zero_header(z));
        assert(header_ok(z));
        assert(free_space(z) >= required + ITEM_ID_SIZE);
        assert(pool.tag_of(b as int).locator() == loc);
        assert(pool.rel_pages(loc).len() == old_p.rel_pages(loc).len() + 1);
        assert(pool.tag_of(b as int).page_number == old_p.rel_pages(loc).len() + 1);
        assert(pool.frame_page(b as int) == pool.rel_pages(loc)[pool.tag_of(b as int).page_number - 1]);
        assert forall|c: int| #[trigger] old_p.valid_buffer(c) && c != b implies pool.pins(c) == old_p.pins(c) by {
            assert(before.valid_buffer(c));
        }
        assert(pool.rel_pages(loc) == old_p.rel_pages(loc).push(zero_page()));
        assert forall|l: RelLocator| l != loc implies #[trigger] pool.rel_pages(l) == old_p.rel_pages(l) by {
            assert(pool.rel_pages(l) == before.rel_pages(l));
        }
    }
    Ok(b)
}


/// Page `k` is the first to fail the reader's checks, and every tuple of the
/// pages before it splits into a bitmap and a data region.
pub open spec fn corrupt_first(pages: Seq<Seq<u8>>, k: int) -> bool {
    &&& 0 <= k < pages.len()
    &&& !crate::page::page_ok(pages[k])
    &&& pages_ok(pages.subrange(0, k))
    &&& items_framed(pages.subrange(0, k))
}

/// The bytes a tuple is stored as.
pub open spec fn tuple_bytes(t: HeapTuple) -> Seq<u8> {
    frame(t.header.null_bitmap@, t.data@)
}

/// The stored bytes of each tuple.
pub open spec fn tuples_bytes(ts: Seq<HeapTuple>) -> Seq<Seq<u8>> {
    ts.map_values(|t: HeapTuple| tuple_bytes(t))
}

/// Bytes that split into a bitmap and a data region.
pub open spec fn framed(b: Seq<u8>) -> bool {
    b.len() >= 2 && b.len() - 2 >= crate::page::get_u16(b, 0)
}

/// Every page passes the reader's checks.
pub open spec fn pages_ok(pages: Seq<Seq<u8>>) -> bool {
    forall|k: int| 0 <= k < pages.len() ==> #[trigger] crate::page::page_ok(pages[k])
}

/// Every tuple of the pages splits into a bitmap and a data region.
pub open spec fn items_framed(pages: Seq<Seq<u8>>) -> bool {
    forall|i: int| 0 <= i < all_items(pages).len() ==> #[trigger] framed(all_items(pages)[i])
}

/// Inserts `tuple` into a page of `rel` with room for it (see
/// `get_page_with_free_space`), marks the page dirty and unpins it.
/// Fails with `CodecError` when the tuple cannot be framed, with
/// `UnsupportedOperation` when it is longer than `MAX_TUPLE_SIZE`, and with
/// the errors of finding a page; the relation is then unchanged.
pub fn heap_insert(pool: &mut BufferPool, rel: &Relation, tuple: &HeapTuple) -> (r: Result<(), Error>)
    requires
        old(pool).wf(),
    ensures
        final(pool).wf(),
        final(pool).same_pins(old(pool)),
        tuple.header.null_bitmap@.len() > crate::tuple::MAX_BITMAP_LEN ==> r == Err::<(), Error>(Error::CodecError),
        tuple.header.null_bitmap@.len() <= crate::tuple::MAX_BITMAP_LEN && tuple_bytes(*tuple).len() > MAX_TUPLE_SIZE
            ==> r == Err::<(), Error>(Error::UnsupportedOperation),
        tuple.header.null_bitmap@.len() <= crate::tuple::MAX_BITMAP_LEN && tuple_bytes(*tuple).len() <= MAX_TUPLE_SIZE
            && old(pool).can_load() && headers_ok(old(pool).rel_pages(rel.locator))
            && old(pool).disk(rel.locator).len() < MAX_PAGES ==> r is Ok,
        r is Err ==> final(pool).same_contents(old(pool)),
        r matches Err(e) ==> !(e is RelationNotFound),
        r is Ok ==> inserted(old(pool).rel_pages(rel.locator), final(pool).rel_pages(rel.locator), tuple_bytes(*tuple)),
        r is Ok ==> forall|l: RelLocator| l != rel.locator ==> #[trigger] final(pool).rel_pages(l) == old(pool).rel_pages(l),
        r is Ok ==> exists|p: int| #[trigger] inserted_at(old(pool).rel_pages(rel.locator), final(pool).rel_pages(rel.locator), tuple_bytes(*tuple), p)
            && no_room_before(old(pool).rel_pages(rel.locator), p, tuple_bytes(*tuple).len() as int)
            && exists|b: int| #[trigger] final(pool).holds(b, BufferTag::of((p + 1) as u32, rel.locator)) && final(pool).dirty(b),
{
    let ghost old_p = *pool;
    let loc = rel.locator;
    let enc = match tuple.encode() {
        Ok(e) => e,
        Err(e) => {
            proof {
                old_p.lemma_same_self();
            }
            return Err(e);
        },
    };
    if enc.len() > MAX_TUPLE_SIZE {
        proof {
            old_p.lemma_same_self();
        }
        return Err(Error::UnsupportedOperation);
    }
    let b = match get_page_with_free_space(pool, loc, enc.len()) {
        Ok(b) => b,
        Err(e) => {
            return Err(e);
        },
    };
    let ghost mid = *pool;
    let a = pool.add_item(b, &enc);
    assert(a is Ok);
    let ghost added = *pool;
    let u = pool.unpin_buffer(b, true);
    assert(u is Ok);
    proof {
        let t = mid.tag_of(b as int);
        let k = t.page_number - 1;
        assert forall|c: int| #[trigger] pool.valid_buffer(c) implies pool.pins(c) == old_p.pins(c) by {
            assert(old_p.valid_buffer(c));
            assert(mid.valid_buffer(c));
            if c != b {
                assert(added.resident(c) == mid.resident(c));
                assert(pool.resident(c) == added.resident(c));
            }
        }
        assert forall|l: RelLocator| #[trigger] pool.rel_pages(l) == added.rel_pages(l) by {}
        let np = pool.rel_pages(loc);
        let op = old_p.rel_pages(loc);
        assert(np == mid.rel_pages(loc).update(k, added.frame_page(b as int)));
        if mid.same_contents(&old_p) {
            assert(mid.rel_pages(loc) == op);
            assert(item_added(op[k], enc@, np[k]));
            assert(np == op.update(k, np[k]));
        } else {
            assert(mid.rel_pages(loc) == op.push(zero_page()));
            assert(np.drop_last() =~= op);
        }
        assert(inserted_at(op, np, enc@, k));
        assert(no_room_before(op, k, enc@.len() as int));
        assert(pool.holds(b as int, BufferTag::of((k + 1) as u32, loc)));
        assert(pool.dirty(b as int));
        assert forall|l: RelLocator| l != loc implies #[trigger] pool.rel_pages(l) == old_p.rel_pages(l) by {
            assert(added.rel_pages(l) == mid.rel_pages(l));
            if mid.same_contents(&old_p) {
                assert(mid.rel_pages(l) == old_p.rel_pages(l));
            }
        }
    }
    Ok(())
}


/// Reads every tuple of `rel`, in page order then item-id order; tombstones
/// are skipped. Holds one page pinned at a time. Fails with `PageCorruption`
/// when a page does not pass the reader's checks, with `CodecError` when a
/// tuple cannot be split, and with the pool's errors when a page cannot be
/// brought in; every pin taken is dropped again.
pub fn heap_scan(pool: &mut BufferPool, rel: &Relation) -> (r: Result<Vec<HeapTuple>, Error>)
    requires
        old(pool).wf(),
    ensures
        final(pool).wf(),
        final(pool).same_contents(old(pool)),
        final(pool).same_pins(old(pool)),
        old(pool).can_load() && pages_ok(old(pool).rel_pages(rel.locator)) && items_framed(old(pool).rel_pages(rel.locator)) ==> r is Ok,
        r matches Ok(ts) ==> tuples_bytes(ts@) == all_items(old(pool).rel_pages(rel.locator)),
        r matches Ok(ts) ==> forall|i: int| 0 <= i < ts@.len() ==> (#[trigger] ts@[i]).header.null_bitmap@.len() <= crate::tuple::MAX_BITMAP_LEN,
        r matches Err(e) ==> !(e is RelationNotFound),
        r matches Err(e) ==> (e == Error::PageCorruption ==> !pages_ok(old(pool).rel_pages(rel.locator)))
            && (e == Error::CodecError ==> !items_framed(old(pool).rel_pages(rel.locator))),
        r is Ok ==> pages_ok(old(pool).rel_pages(rel.locator)) && items_framed(old(pool).rel_pages(rel.locator)),
        forall|c: int| #[trigger] final(pool).valid_buffer(c) ==> (final(pool).dirty(c) ==> old(pool).dirty(c)),
        old(pool).can_load() && (exists|k: int| #[trigger] corrupt_first(old(pool).rel_pages(rel.locator), k))
            ==> r == Err::<Vec<HeapTuple>, Error>(Error::PageCorruption),
{
    let ghost old_p = *pool;
    let ghost pages = old_p.rel_pages(rel.locator);
    let loc = rel.locator;
    let size = pool.size_of_relation(loc);
    let mut out: Vec<HeapTuple> = Vec::new();
    let mut pn: u32 = 1;
    proof {
        old_p.lemma_wf_facts();
        old_p.lemma_same_self();
        assert(pages.subrange(0, 0) =~= seq![]);
        assert(tuples_bytes(out@) =~= all_items(pages.subrange(0, 0)));
    }
    while pn <= size
        invariant
            old_p == *old(pool),
            pages == old_p.rel_pages(loc),
            loc == rel.locator,
            pool.wf(),
            size as int == pages.len(),
            1 <= pn <= size + 1,
            size <= MAX_PAGES,
            pool.same_contents(&old_p),
            pool.same_pins(&old_p),
            pool.disk(loc).len() == old_p.disk(loc).len(),
            tuples_bytes(out@) == all_items(pages.subrange(0, pn - 1)),
            forall|x: int| 0 <= x < out@.len() ==> (#[trigger] out@[x]).header.null_bitmap@.len() <= crate::tuple::MAX_BITMAP_LEN,
            forall|k: int| 0 <= k < pn - 1 ==> #[trigger] crate::page::page_ok(pages[k]),
            forall|x: int| 0 <= x < out@.len() ==> #[trigger] framed(tuple_bytes(out@[x])),
            forall|c: int| #[trigger] pool.valid_buffer(c) ==> (pool.dirty(c) ==> old_p.dirty(c)),
        decreases size + 1 - pn,
    {
        let ghost before = *pool;
        proof {
            pool.lemma_wf_facts();
            let t = BufferTag::of(pn, loc);
            if old_p.can_load() {
                assert forall|c: int| #[trigger] pool.valid_buffer(c) implies pool.pins(c) < usize::MAX by {
                    assert(old_p.valid_buffer(c));
                }
                assert(pool.can_load());
                if pool.is_cached(t) {
                    let c = pool.buffer_of(t);
                    assert(pool.holds(c, t));
                    assert(pool.valid_buffer(c));
                }
            }
        }
        let b = match pool.fetch_buffer(loc, pn) {
            Ok(b) => b,
            Err(e) => {
                assert(*pool == before);
                proof {
                    let t = BufferTag::of(pn, loc);
                    assert(old_p.rel_pages(loc).len() == old_p.disk(loc).len());
                    assert(1 <= pn <= pool.disk(loc).len());
                    if pool.is_cached(t) {
                        let c = pool.buffer_of(t);
                        assert(pool.holds(c, t));
                    }
                }
                assert(e == Error::PinOverflow || e == Error::NoFreeBuffer);
                return Err(e);
            },
        };
        let ghost fetched = *pool;
        let page = match pool.get_page(b) {
            Ok(p) => p,
            Err(e) => {
                assert(false);
                return Err(e);
            },
        };
        let u = pool.unpin_buffer(b, false);
        assert(u is Ok);
        proof {
            pool.lemma_wf_facts();
            assert(page@ == pages[pn - 1]) by {
                assert(fetched.rel_pages(loc) == before.rel_pages(loc));
                assert(before.rel_pages(loc) == old_p.rel_pages(loc));
            }
            assert(old_p.valid_buffer(b as int));
            assert(before.valid_buffer(b as int));
            assert forall|c: int| #[trigger] pool.valid_buffer(c) implies pool.pins(c) == old_p.pins(c) by {
                assert(before.valid_buffer(c));
                if c != b {
                    assert(fetched.resident(c) == before.resident(c));
                }
                assert(pool.resident(c) == fetched.resident(c));
            }
            assert forall|l: RelLocator| #[trigger] pool.rel_pages(l) == old_p.rel_pages(l) by {
                assert(pool.rel_pages(l) == fetched.rel_pages(l));
                assert(fetched.rel_pages(l) == before.rel_pages(l));
            }
            assert forall|c: int| #[trigger] pool.valid_buffer(c) implies (pool.dirty(c) ==> old_p.dirty(c)) by {
                assert(before.valid_buffer(c));
                if c != b {
                    assert(fetched.resident(c) == before.resident(c));
                }
                assert(pool.resident(c) == fetched.resident(c));
            }
        }
        let items = match crate::page::page_get_items(page.as_bytes()) {
            Ok(v) => v,
            Err(_) => {
                proof {
                    assert(!crate::page::page_ok(pages[pn - 1]));
                }
                return Err(Error::PageCorruption);
            },
        };
        let ghost prev = pages.subrange(0, pn - 1);
        let ghost cur = pages.subrange(0, pn as int);
        proof {
            assert(crate::page::page_ok(pages[pn - 1]));
            assert(cur.drop_last() =~= prev);
            assert(cur.last() == pages[pn - 1]);
            assert(all_items(cur) == all_items(prev) + page_items(pages[pn - 1]));
        }
        let ghost base = out@;
        let mut j: usize = 0;
        while j < items.len()
            invariant
                old_p == *old(pool),
                forall|k: int| 0 <= k < pn - 1 ==> #[trigger] crate::page::page_ok(pages[k]),
                crate::page::page_ok(pages[pn - 1]),
                loc == rel.locator,
                pool.wf(),
                pool.same_contents(&old_p),
                pool.same_pins(&old_p),
                pages == old_p.rel_pages(loc),
                1 <= pn <= size,
                size as int == pages.len(),
                prev == pages.subrange(0, pn - 1),
                cur == pages.subrange(0, pn as int),
                all_items(cur) == all_items(prev) + page_items(pages[pn - 1]),
                crate::page::views(items@) == page_items(pages[pn - 1]),
                tuples_bytes(base) == all_items(prev),
                j <= items@.len(),
                out@.len() == base.len() + j,
                out@.subrange(0, base.len() as int) == base,
                forall|x: int| 0 <= x < j ==> #[trigger] tuple_bytes(out@[base.len() + x]) == items@[x]@,
                forall|x: int| 0 <= x < out@.len() ==> #[trigger] framed(tuple_bytes(out@[x])),
                forall|x: int| 0 <= x < out@.len() ==> (#[trigger] out@[x]).header.null_bitmap@.len() <= crate::tuple::MAX_BITMAP_LEN,
                forall|c: int| #[trigger] pool.valid_buffer(c) ==> (pool.dirty(c) ==> old_p.dirty(c)),
            decreases items@.len() - j,
        {
            let t = match HeapTuple::decode(&items[j]) {
                Ok(t) => {
                    assert(framed(items@[j as int]@));
                    t
                },
                Err(e) => {
                    proof {
                        let w = all_items(prev).len() + j;
                        assert(all_items(cur)[w] == items@[j as int]@);
                        assert(!framed(all_items(cur)[w]));
                        lemma_all_items_prefix(pages, pn as int);
                        assert(all_items(pages)[w] == all_items(cur)[w]);
                        assert forall|k: int| !#[trigger] corrupt_first(pages, k) by {
                            if corrupt_first(pages, k) {
                                if k < pn - 1 {
                                    assert(crate::page::page_ok(pages[k]));
                                } else if k == pn - 1 {
                                } else {
                                    let sk = pages.subrange(0, k);
                                    lemma_all_items_prefix(sk, pn as int);
                                    assert(sk.subrange(0, pn as int) =~= cur);
                                    assert(all_items(sk)[w] == all_items(cur)[w]);
                                    assert(framed(all_items(sk)[w]));
                                }
                            }
                        }
                    }
                    return Err(e);
                },
            };
            out.push(t);
            j = j + 1;
            proof {
                assert(out@.subrange(0, base.len() as int) =~= base);
            }
        }
        proof {
            assert(tuples_bytes(out@) =~= all_items(cur)) by {
                assert forall|x: int| 0 <= x < out@.len() implies tuples_bytes(out@)[x] == all_items(cur)[x] by {
                    if x < base.len() {
                        assert(out@[x] == base[x]);
                        assert(tuples_bytes(base)[x] == tuple_bytes(base[x]));
                    } else {
                        assert(tuple_bytes(out@[base.len() + (x - base.len())]) == items@[x - base.len()]@);
                    }
                }
            }
        }
        pn = pn + 1;
    }
    proof {
        assert(pages.subrange(0, size as int) =~= pages);
        assert forall|i: int| 0 <= i < all_items(pages).len() implies #[trigger] framed(all_items(pages)[i]) by {
            assert(all_items(pages)[i] == tuples_bytes(out@)[i]);
            assert(framed(tuple_bytes(out@[i])));
        }
    }
    Ok(out)
}

/// Iterates lazily over the tuples of a relation, in page order then
/// item-id order. A page is read when its tuples are needed, pinned only
/// while its tuples are copied out; the scanner holds no pin between calls.
pub struct HeapScanner {
    loc: RelLocator,
    /// Next page to read, from 1.
    next_page: u32,
    /// Tuples of the page read last.
    items: Vec<Vec<u8>>,
    /// Next of `items` to return.
    idx: usize,
    /// The relation's pages when the scan began.
    pages: Ghost<Seq<Seq<u8>>>,
}

impl HeapScanner {
    /// The relation being scanned.
    pub closed spec fn locator(&self) -> RelLocator {
        self.loc
    }

    /// The relation's pages the scan reads.
    pub closed spec fn scanned(&self) -> Seq<Seq<u8>> {
        self.pages@
    }

    /// Number of tuples returned so far.
    pub closed spec fn pos(&self) -> int {
        all_items(self.pages@.subrange(0, self.next_page - 1)).len() - self.items@.len() + self.idx
    }

    pub closed spec fn inv(&self) -> bool {
        &&& 1 <= self.next_page <= self.pages@.len() + 1
        &&& self.pages@.len() <= MAX_PAGES
        &&& self.idx <= self.items@.len()
        &&& self.next_page == 1 ==> self.items@.len() == 0
        &&& self.next_page > 1 ==> crate::page::views(self.items@) == page_items(self.pages@[self.next_page - 2])
        &&& forall|k: int| 0 <= k < self.next_page - 1 ==> #[trigger] crate::page::page_ok(self.pages@[k])
    }

    pub proof fn lemma_pos(&self)
        requires
            self.inv(),
        ensures
            0 <= self.pos() <= all_items(self.scanned()).len(),
    {
        let np = self.next_page as int;
        let pg = self.pages@;
        lemma_all_items_prefix(pg, np - 1);
        if np > 1 {
            let cur = pg.subrange(0, np - 1);
            assert(cur.drop_last() =~= pg.subrange(0, np - 2));
            assert(cur.last() == pg[np - 2]);
        }
    }

    /// A scanner over `rel` positioned before its first tuple.
    pub fn new(pool: &BufferPool, rel: &Relation) -> (r: HeapScanner)
        requires
            pool.wf(),
        ensures
            r.inv(),
            r.pos() == 0,
            r.locator() == rel.locator,
            r.scanned() == pool.rel_pages(rel.locator),
    {
        proof {
            pool.lemma_wf_facts();
        }
        let r = HeapScanner {
            loc: rel.locator,
            next_page: 1,
            items: Vec::new(),
            idx: 0,
            pages: Ghost(pool.rel_pages(rel.locator)),
        };
        assert(r.pages@.subrange(0, 0) =~= Seq::<Seq<u8>>::empty());
        r
    }

    /// The next tuple, or `None` after the last one. Reads pages as needed,
    /// each pinned only while its tuples are copied. Fails with
    /// `PageCorruption` when a page read does not pass the reader's checks,
    /// with `CodecError` when the tuple cannot be split, and with the pool's
    /// errors when a page cannot be brought in.
    pub fn next_tuple(&mut self, pool: &mut BufferPool) -> (r: Result<Option<HeapTuple>, Error>)
        requires
            old(self).inv(),
            old(pool).wf(),
            old(pool).rel_pages(old(self).locator()) == old(self).scanned(),
        ensures
            final(self).inv(),
            final(pool).wf(),
            final(pool).same_contents(old(pool)),
            final(pool).same_pins(old(pool)),
            final(self).locator() == old(self).locator(),
            final(self).scanned() == old(self).scanned(),
            r matches Ok(Some(t)) ==> old(self).pos() < all_items(old(self).scanned()).len()
                && tuple_bytes(t) == all_items(old(self).scanned())[old(self).pos()]
                && final(self).pos() == old(self).pos() + 1,
            r matches Ok(None) ==> old(self).pos() == all_items(old(self).scanned()).len()
                && final(self).pos() == old(self).pos(),
            old(pool).can_load() && pages_ok(old(self).scanned()) && items_framed(old(self).scanned()) ==> r is Ok,
            r matches Err(e) ==> !(e is RelationNotFound),
    {
        let ghost old_p = *pool;
        let ghost pg = self.pages@;
        let ghost p0 = self.pos();
        let loc = self.loc;
        proof {
            old_p.lemma_wf_facts();
            old_p.lemma_same_self();
        }
        let size = pool.size_of_relation(loc);
        while self.idx == self.items.len() && self.next_page <= size
            invariant
                old_p == *old(pool),
                pg == old(self).pages@,
                p0 == old(self).pos(),
                loc == old(self).loc,
                self.inv(),
                self.loc == loc,
                self.pages@ == pg,
                self.pos() == p0,
                size as int == pg.len(),
                pg == old_p.rel_pages(loc),
                pool.wf(),
                pool.same_contents(&old_p),
                pool.same_pins(&old_p),
            decreases pg.len() + 1 - self.next_page,
        {
            let pn = self.next_page;
            let ghost before = *pool;
            proof {
                pool.lemma_wf_facts();
                assert(pool.rel_pages(loc) == old_p.rel_pages(loc));
                assert(1 <= pn <= pool.disk(loc).len());
                let t = crate::buffer::BufferTag::of(pn, loc);
                if old_p.can_load() {
                    pool.lemma_can_load_kept(&old_p);
                    assert forall|c: int| #[trigger] pool.valid_buffer(c) implies pool.pins(c) < usize::MAX by {
                        assert(old_p.valid_buffer(c));
                    }
                    if pool.is_cached(t) {
                        let c = pool.buffer_of(t);
                        assert(pool.holds(c, t));
                    }
                }
            }
            let b = match pool.fetch_buffer(loc, pn) {
                Ok(b) => b,
                Err(e) => {
                    assert(*pool == before);
                    return Err(e);
                },
            };
            let ghost fetched = *pool;
            let page = match pool.get_page(b) {
                Ok(p) => p,
                Err(e) => {
                    assert(false);
                    return Err(e);
                },
            };
            let u = pool.unpin_buffer(b, false);
            assert(u is Ok);
            proof {
                assert(page@ == pg[pn - 1]) by {
                    assert(fetched.rel_pages(loc) == before.rel_pages(loc));
                }
                assert(before.valid_buffer(b as int));
                assert forall|c: int| #[trigger] pool.valid_buffer(c) implies pool.pins(c) == old_p.pins(c) by {
                    assert(before.valid_buffer(c));
                    if c != b {
                        assert(fetched.resident(c) == before.resident(c));
                    }
                    assert(pool.resident(c) == fetched.resident(c));
                }
                assert forall|l: RelLocator| #[trigger] pool.rel_pages(l) == old_p.rel_pages(l) by {
                    assert(pool.rel_pages(l) == fetched.rel_pages(l));
                    assert(fetched.rel_pages(l) == before.rel_pages(l));
                }
            }
            let items = match crate::page::page_get_items(page.as_bytes()) {
                Ok(v) => v,
                Err(_) => {
                    return Err(Error::PageCorruption);
                },
            };
            let ghost old_items = self.items@;
            self.items = items;
            self.idx = 0;
            self.next_page = pn + 1;
            proof {
                let prev = pg.subrange(0, pn - 1);
                let cur = pg.subrange(0, pn as int);
                assert(cur.drop_last() =~= prev);
                assert(cur.last() == pg[pn - 1]);
                assert(all_items(cur) == all_items(prev) + page_items(pg[pn - 1]));
                assert(crate::page::views(self.items@).len() == self.items@.len());
            }
        }
        proof {
            self.lemma_pos();
        }
        if self.idx < self.items.len() {
            let ghost np = self.next_page as int;
            proof {
                let prev = pg.subrange(0, np - 2);
                let cur = pg.subrange(0, np - 1);
                assert(cur.drop_last() =~= prev);
                assert(cur.last() == pg[np - 2]);
                assert(all_items(cur) == all_items(prev) + page_items(pg[np - 2]));
                lemma_all_items_prefix(pg, np - 1);
                assert(crate::page::views(self.items@)[self.idx as int] == self.items@[self.idx as int]@);
                assert(p0 == all_items(prev).len() + self.idx);
                assert(all_items(cur)[p0] == page_items(pg[np - 2])[self.idx as int]);
                assert(all_items(pg)[p0] == all_items(cur)[p0]);
                assert(all_items(pg)[p0] == self.items@[self.idx as int]@);
            }
            let t = match HeapTuple::decode(&self.items[self.idx]) {
                Ok(t) => t,
                Err(e) => {
                    assert(!framed(all_items(pg)[p0]));
                    return Err(e);
                },
            };
            self.idx = self.idx + 1;
            Ok(Some(t))
        } else {
            proof {
                assert(pg.subrange(0, pg.len() as int) =~= pg);
            }
            Ok(None)
        }
    }
}

/// The tuples of the first `n` pages are a prefix of the tuples of all pages.
proof fn lemma_all_items_prefix(pages: Seq<Seq<u8>>, n: int)
    requires
        0 <= n <= pages.len(),
    ensures
        all_items(pages.subrange(0, n)).len() <= all_items(pages).len(),
        forall|i: int| 0 <= i < all_items(pages.subrange(0, n)).len() ==> #[trigger] all_items(pages.subrange(0, n))[i] == all_items(pages)[i],
    decreases pages.len() - n,
{
    if n < pages.len() {
        lemma_all_items_prefix(pages, n + 1);
        let a = pages.subrange(0, n);
        let c = pages.subrange(0, n + 1);
        assert(c.drop_last() =~= a);
        assert(all_items(c) == all_items(a) + page_items(c.last()));
        assert forall|i: int| 0 <= i < all_items(a).len() implies #[trigger] all_items(a)[i] == all_items(pages)[i] by {
            assert(all_items(a)[i] == all_items(c)[i]);
        }
    } else {
        assert(pages.subrange(0, n) =~= pages);
    }
}

} // verus!
