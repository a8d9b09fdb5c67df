//! Slotted-page byte layout: a 6-byte header, an item-id array growing up from
//! the header and a tuple heap growing down from the end of the page.
use vstd::prelude::*;

verus! {

/// Size of a page in bytes.
pub const PAGE_SIZE: usize = 8192;

/// Size of the page header in bytes.
pub const PAGE_HEADER_SIZE: usize = 6;

/// Size of one item identifier in bytes.
pub const ITEM_ID_SIZE: usize = 4;

/// Page numbers start at 1; zero is never a page.
pub const INVALID_PAGE_NUMBER: u32 = 0;

/// Errors raised by page-level operations.
#[derive(Debug, PartialEq, Eq, Structural, Clone, Copy)]
pub enum PageError {
    /// The page has not enough free space for the item and its item id.
    NoRoomOnPage,
    /// The header or an item id lies outside the page.
    PageCorruption,
}

/// Little-endian 16-bit value stored at `i` and `i + 1`.
pub open spec fn get_u16(b: Seq<u8>, i: int) -> int {
    b[i] as int + b[i + 1] as int * 256
}

pub open spec fn raw_start(p: Seq<u8>) -> int {
    get_u16(p, 0)
}

pub open spec fn raw_end(p: Seq<u8>) -> int {
    get_u16(p, 2)
}

/// A page whose header is all zero is an empty page, as produced by extending a file.
pub open spec fn zero_header(p: Seq<u8>) -> bool {
    raw_start(p) == 0 && raw_end(p) == 0
}

/// Offset where the item-id array ends and free space begins.
pub open spec fn lower(p: Seq<u8>) -> int {
    if zero_header(p) {
        PAGE_HEADER_SIZE as int
    } else {
        raw_start(p)
    }
}

/// Offset where the tuple heap begins.
pub open spec fn upper(p: Seq<u8>) -> int {
    if zero_header(p) {
        PAGE_SIZE as int
    } else {
        raw_end(p)
    }
}

pub open spec fn free_space(p: Seq<u8>) -> int {
    upper(p) - lower(p)
}

/// The header bounds hold and the item-id array is a whole number of item ids.
pub open spec fn header_ok(p: Seq<u8>) -> bool {
    &&& p.len() == PAGE_SIZE
    &&& PAGE_HEADER_SIZE <= lower(p) <= upper(p) <= PAGE_SIZE
    &&& (lower(p) - PAGE_HEADER_SIZE) % ITEM_ID_SIZE as int == 0
}

pub open spec fn n_items(p: Seq<u8>) -> int {
    (lower(p) - PAGE_HEADER_SIZE) / ITEM_ID_SIZE as int
}

pub open spec fn item_off(p: Seq<u8>, i: int) -> int {
    get_u16(p, PAGE_HEADER_SIZE + ITEM_ID_SIZE * i)
}

pub open spec fn item_len(p: Seq<u8>, i: int) -> int {
    get_u16(p, PAGE_HEADER_SIZE + ITEM_ID_SIZE * i + 2)
}

/// An item id is a tombstone (length zero) or points inside the page, past the header.
pub open spec fn item_ok(p: Seq<u8>, i: int) -> bool {
    item_len(p, i) == 0 || (PAGE_HEADER_SIZE <= item_off(p, i) && item_off(p, i) + item_len(
        p,
        i,
    ) <= PAGE_SIZE)
}

/// What a reader checks before trusting a page.
pub open spec fn page_ok(p: Seq<u8>) -> bool {
    &&& header_ok(p)
    &&& forall|i: int| 0 <= i < n_items(p) ==> #[trigger] item_ok(p, i)
}

/// A page as this library writes it: every tuple lies in the tuple heap.
pub open spec fn page_wf(p: Seq<u8>) -> bool {
    &&& header_ok(p)
    &&& forall|i: int|
        0 <= i < n_items(p) ==> #[trigger] item_len(p, i) == 0 || (upper(p) <= item_off(p, i)
            && item_off(p, i) + item_len(p, i) <= PAGE_SIZE)
}

/// The bytes of item `i`.
pub open spec fn item_bytes(p: Seq<u8>, i: int) -> Seq<u8> {
    p.subrange(item_off(p, i), item_off(p, i) + item_len(p, i))
}

/// The tuples of the first `k` item ids, tombstones skipped.
pub open spec fn items_upto(p: Seq<u8>, k: nat) -> Seq<Seq<u8>>
    decreases k,
{
    if k == 0 {
        seq![]
    } else {
        let prev = items_upto(p, (k - 1) as nat);
        if item_len(p, k - 1) == 0 {
            prev
        } else {
            prev.push(item_bytes(p, k - 1))
        }
    }
}

/// The tuples stored on a page, in item-id order.
pub open spec fn page_items(p: Seq<u8>) -> Seq<Seq<u8>> {
    items_upto(p, n_items(p) as nat)
}

/// A page with the default header and no items.
pub open spec fn empty_page() -> Seq<u8> {
    Seq::new(PAGE_SIZE as nat, |j: int| if j == 2 { 0u8 } else if j == 3 { 32u8 } else if j == 0 { 6u8 } else { 0u8 })
}

pub proof fn lemma_empty_page_len()
    ensures
        empty_page().len() == PAGE_SIZE,
{
}

fn read_u16(p: &Vec<u8>, i: usize) -> (r: u16)
    requires
        i + 1 < p.len(),
    ensures
        r as int == get_u16(p@, i as int),
{
    p[i] as u16 + (p[i + 1] as u16) * 256
}

fn write_u16(p: &mut Vec<u8>, i: usize, v: u16)
    requires
        i + 1 < old(p).len(),
    ensures
        final(p)@.len() == old(p)@.len(),
        get_u16(final(p)@, i as int) == v as int,
        forall|j: int| 0 <= j < old(p)@.len() && j != i && j != i + 1 ==> final(p)@[j] == old(p)@[j],
{
    p.set(i, (v % 256) as u8);
    p.set(i + 1, (v / 256) as u8);
}

/// A fresh page: all zero but for the default header.
pub fn page_init() -> (r: Vec<u8>)
    ensures
        r@ == empty_page(),
        page_wf(r@),
        page_items(r@) == Seq::<Seq<u8>>::empty(),
{
    let mut p: Vec<u8> = vec![0u8; PAGE_SIZE];
    write_u16(&mut p, 0, PAGE_HEADER_SIZE as u16);
    write_u16(&mut p, 2, PAGE_SIZE as u16);
    assert(p@ =~= empty_page());
    assert(n_items(p@) == 0);
    p
}


/// The views of a sequence of byte vectors.
pub open spec fn views(v: Seq<Vec<u8>>) -> Seq<Seq<u8>> {
    v.map_values(|x: Vec<u8>| x@)
}

/// `new` is `old` with `item` added: one more item id pointing at the item,
/// written just below the old tuple heap; every other byte but the header's
/// free-space bounds is kept.
pub open spec fn item_added(old: Seq<u8>, item: Seq<u8>, new: Seq<u8>) -> bool {
    &&& new.len() == PAGE_SIZE
    &&& !zero_header(new)
    &&& lower(new) == lower(old) + ITEM_ID_SIZE
    &&& lower(new) <= upper(new)
    &&& upper(new) == upper(old) - item.len()
    &&& item_off(new, n_items(old)) == upper(new)
    &&& item_len(new, n_items(old)) == item.len()
    &&& new.subrange(upper(new), upper(old)) == item
    &&& forall|j: int|
        0 <= j < PAGE_SIZE && !(0 <= j < 4) && !(lower(old) <= j < lower(new)) && !(upper(new)
            <= j < upper(old)) ==> #[trigger] new[j] == old[j]
}

/// Copy of `p[a..b]`.
pub fn copy_range(p: &Vec<u8>, a: usize, b: usize) -> (r: Vec<u8>)
    requires
        a <= b <= p@.len(),
    ensures
        r@ == p@.subrange(a as int, b as int),
{
    let mut r: Vec<u8> = Vec::new();
    let mut k: usize = a;
    while k < b
        invariant
            a <= k <= b <= p@.len(),
            r@ == p@.subrange(a as int, k as int),
        decreases b - k,
    {
        r.push(p[k]);
        k = k + 1;
        assert(r@ =~= p@.subrange(a as int, k as int));
    }
    r
}

/// Reads the free-space bounds, an all-zero header standing for an empty page.
fn read_bounds(page: &Vec<u8>) -> (r: (usize, usize))
    requires
        page@.len() == PAGE_SIZE,
    ensures
        r.0 as int == lower(page@),
        r.1 as int == upper(page@),
{
    let start = read_u16(page, 0);
    let end = read_u16(page, 2);
    if start == 0 && end == 0 {
        (PAGE_HEADER_SIZE, PAGE_SIZE)
    } else {
        (start as usize, end as usize)
    }
}

/// Free space of a page whose header is sound, `None` otherwise.
pub fn page_free_space(page: &Vec<u8>) -> (r: Option<usize>)
    requires
        page@.len() == PAGE_SIZE,
    ensures
        header_ok(page@) <==> r.is_some(),
        r matches Some(f) ==> f as int == free_space(page@),
{
    let (lo, up) = read_bounds(page);
    if PAGE_HEADER_SIZE <= lo && lo <= up && up <= PAGE_SIZE && (lo - PAGE_HEADER_SIZE) % ITEM_ID_SIZE
        == 0 {
        Some(up - lo)
    } else {
        None
    }
}

/// Adds `item` to the page: the item bytes go just below the tuple heap and a
/// new item id pointing at them goes at the end of the item-id array.
/// Fails with `PageCorruption` when the header is out of range and with
/// `NoRoomOnPage` when the free space cannot hold the item and its item id;
/// the page is then unchanged.
pub fn page_add_item(page: &mut Vec<u8>, item: &Vec<u8>) -> (r: Result<(), PageError>)
    requires
        old(page)@.len() == PAGE_SIZE,
    ensures
        !header_ok(old(page)@) ==> r == Err::<(), PageError>(PageError::PageCorruption),
        header_ok(old(page)@) && free_space(old(page)@) < item@.len() + ITEM_ID_SIZE ==> r == Err::<
            (),
            PageError,
        >(PageError::NoRoomOnPage),
        header_ok(old(page)@) && free_space(old(page)@) >= item@.len() + ITEM_ID_SIZE ==> r is Ok,
        r is Ok ==> item_added(old(page)@, item@, final(page)@),
        r is Err ==> final(page)@ == old(page)@,
{
    let (lo, up) = read_bounds(page);
    if !(PAGE_HEADER_SIZE <= lo && lo <= up && up <= PAGE_SIZE && (lo - PAGE_HEADER_SIZE)
        % ITEM_ID_SIZE == 0) {
        return Err(PageError::PageCorruption);
    }
    let l = item.len();
    if l > up - lo || up - lo - l < ITEM_ID_SIZE {
        return Err(PageError::NoRoomOnPage);
    }
    let ghost old_p = page@;
    let new_off = up - l;
    let mut k: usize = 0;
    while k < l
        invariant
            l == item@.len(),
            new_off + l == up <= PAGE_SIZE,
            page@.len() == PAGE_SIZE,
            0 <= k <= l,
            forall|j: int| 0 <= j < k ==> page@[new_off + j] == item@[j],
            forall|j: int|
                0 <= j < PAGE_SIZE && !(new_off <= j < new_off + k) ==> page@[j] == old_p[j],
        decreases l - k,
    {
        page.set(new_off + k, item[k]);
        k = k + 1;
    }
    let ghost mid = page@;
    write_u16(page, lo, new_off as u16);
    write_u16(page, lo + 2, l as u16);
    write_u16(page, 0, (lo + ITEM_ID_SIZE) as u16);
    write_u16(page, 2, new_off as u16);
    let ghost new_p = page@;
    assert(n_items(old_p) * 4 + 6 == lo);
    assert(new_p.subrange(upper(new_p), upper(old_p)) =~= item@) by {
        assert forall|j: int| 0 <= j < l implies new_p[new_off + j] == item@[j] by {
            assert(mid[new_off + j] == item@[j]);
        }
    }
    Ok(())
}


/// The tuples an added item contributes: none for an empty item, which reads as a tombstone.
pub open spec fn added_items(item: Seq<u8>) -> Seq<Seq<u8>> {
    if item.len() == 0 {
        seq![]
    } else {
        seq![item]
    }
}

proof fn lemma_items_upto_same(old: Seq<u8>, new: Seq<u8>, k: nat)
    requires
        k <= n_items(old),
        forall|i: int|
            0 <= i < k ==> item_off(new, i) == item_off(old, i) && item_len(new, i) == item_len(
                old,
                i,
            ) && (item_len(old, i) != 0 ==> item_bytes(new, i) == item_bytes(old, i)),
    ensures
        items_upto(new, k) == items_upto(old, k),
    decreases k,
{
    if k > 0 {
        lemma_items_upto_same(old, new, (k - 1) as nat);
    }
}

/// Adding an item to a well-formed page keeps it well formed and appends the
/// item to the page's tuples.
pub proof fn lemma_add_item_appends(old: Seq<u8>, item: Seq<u8>, new: Seq<u8>)
    requires
        page_wf(old),
        item_added(old, item, new),
    ensures
        page_wf(new),
        page_items(new) == page_items(old) + added_items(item),
{
    let n = n_items(old);
    assert(n * 4 + 6 == lower(old));
    assert(n_items(new) == n + 1);
    assert forall|i: int| 0 <= i < n implies item_off(new, i) == item_off(old, i) && item_len(
        new,
        i,
    ) == item_len(old, i) && (item_len(old, i) != 0 ==> item_bytes(new, i) == item_bytes(
        old,
        i,
    )) by {
        let b = PAGE_HEADER_SIZE + ITEM_ID_SIZE * i;
        assert(new[b] == old[b]);
        assert(new[b + 1] == old[b + 1]);
        assert(new[b + 2] == old[b + 2]);
        assert(new[b + 3] == old[b + 3]);
        if item_len(old, i) != 0 {
            assert(item_bytes(new, i) =~= item_bytes(old, i)) by {
                assert forall|j: int|
                    item_off(old, i) <= j < item_off(old, i) + item_len(old, i) implies new[j]
                    == old[j] by {}
            }
        }
    }
    lemma_items_upto_same(old, new, n as nat);
    assert(item_bytes(new, n) =~= item);
    assert(items_upto(new, (n + 1) as nat) =~= page_items(old) + added_items(item));
    assert forall|i: int| 0 <= i < n_items(new) implies #[trigger] item_len(new, i) == 0 || (upper(
        new,
    ) <= item_off(new, i) && item_off(new, i) + item_len(new, i) <= PAGE_SIZE) by {
        if i < n {
            assert(item_len(old, i) == 0 || (upper(old) <= item_off(old, i)));
        }
    }
}

/// Reads the tuples of a page, in item-id order, skipping tombstones.
/// Fails with `PageCorruption` when the header or an item id is out of range.
pub fn page_get_items(page: &Vec<u8>) -> (r: Result<Vec<Vec<u8>>, PageError>)
    requires
        page@.len() == PAGE_SIZE,
    ensures
        page_ok(page@) <==> r is Ok,
        r matches Ok(v) ==> views(v@) == page_items(page@),
        r matches Err(e) ==> e == PageError::PageCorruption,
{
    let (lo, up) = read_bounds(page);
    if !(PAGE_HEADER_SIZE <= lo && lo <= up && up <= PAGE_SIZE && (lo - PAGE_HEADER_SIZE)
        % ITEM_ID_SIZE == 0) {
        return Err(PageError::PageCorruption);
    }
    let n = (lo - PAGE_HEADER_SIZE) / ITEM_ID_SIZE;
    let mut out: Vec<Vec<u8>> = Vec::new();
    let mut i: usize = 0;
    while i < n
        invariant
            header_ok(page@),
            n == n_items(page@),
            0 <= i <= n,
            forall|j: int| 0 <= j < i ==> #[trigger] item_ok(page@, j),
            views(out@) == items_upto(page@, i as nat),
        decreases n - i,
    {
        let base = PAGE_HEADER_SIZE + ITEM_ID_SIZE * i;
        let off = read_u16(page, base) as usize;
        let len = read_u16(page, base + 2) as usize;
        if len != 0 {
            if !(PAGE_HEADER_SIZE <= off && off + len <= PAGE_SIZE) {
                assert(!item_ok(page@, i as int));
                return Err(PageError::PageCorruption);
            }
            let bytes = copy_range(page, off, off + len);
            out.push(bytes);
        }
        assert(views(out@) =~= items_upto(page@, (i + 1) as nat));
        i = i + 1;
    }
    Ok(out)
}

} // verus!
