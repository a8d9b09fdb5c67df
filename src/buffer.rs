//! Buffer pool: a fixed number of frames caching pages of relations, with
//! pinning, dirty tracking, LRU replacement among unpinned frames and
//! write-back through the storage manager.
use vstd::prelude::*;

use crate::page::PAGE_SIZE;
use crate::storage::{RelLocator, StorageManager};
use crate::Error;

verus! {

/// Buffer identifiers: zero is invalid, `1..=capacity` name the frames.
pub type Buffer = usize;

/// Identifies which disk block a frame holds.
#[derive(Debug, Clone, Copy, PartialEq, Eq, Structural)]
pub struct BufferTag {
    pub tablespace: u32,
    pub db: u32,
    pub relation: u32,
    pub page_number: u32,
}

impl BufferTag {
    pub open spec fn locator(self) -> RelLocator {
        RelLocator { tablespace: self.tablespace, database: self.db, oid: self.relation }
    }

    pub open spec fn of(page_number: u32, rel: RelLocator) -> BufferTag {
        BufferTag {
            tablespace: rel.tablespace,
            db: rel.database,
            relation: rel.oid,
            page_number,
        }
    }

    /// The tag of page `page_number` of `rel`.
    pub fn new(page_number: u32, rel: RelLocator) -> (r: Self)
        ensures
            r == Self::of(page_number, rel),
    {
        BufferTag {
            tablespace: rel.tablespace,
            db: rel.database,
            relation: rel.oid,
            page_number,
        }
    }

    /// The tag of a frame that holds no page: every field invalid.
    pub fn invalid() -> (r: Self)
        ensures
            r == (BufferTag { tablespace: 0, db: 0, relation: 0, page_number: 0 }),
    {
        BufferTag { tablespace: 0, db: 0, relation: 0, page_number: 0 }
    }
}

impl Default for BufferTag {
    /// The tag of a frame that holds no page.
    fn default() -> (r: Self)
        ensures
            r == (BufferTag { tablespace: 0, db: 0, relation: 0, page_number: 0 }),
    {
        BufferTag::invalid()
    }
}

/// State of one frame.
pub struct BufferDesc {
    /// Buffer id of the frame.
    id: Buffer,
    /// Block held by the frame; meaningful only while `rel` is bound.
    tag: BufferTag,
    /// Number of pins.
    refcount: usize,
    /// Whether the bytes differ from what is on disk.
    is_dirty: bool,
    /// Relation of the held block; `None` while the frame is free.
    rel: Option<RelLocator>,
    /// The cached block.
    page: Vec<u8>,
}

impl BufferDesc {
    /// A free frame with a zeroed page.
    fn new(id: Buffer, tag: BufferTag) -> (r: Self)
        ensures
            r.id == id,
            r.tag == tag,
            r.refcount == 0,
            !r.is_dirty,
            r.rel is None,
            r.page@ == Seq::new(PAGE_SIZE as nat, |j: int| 0u8),
    {
        let page: Vec<u8> = vec![0u8; PAGE_SIZE];
        assert(page@ =~= Seq::new(PAGE_SIZE as nat, |j: int| 0u8));
        BufferDesc { id, tag, refcount: 0, is_dirty: false, rel: None, page }
    }

    /// The relation of the held block; fails on a free frame.
    fn relation(&self) -> (r: Result<RelLocator, Error>)
        ensures
            self.rel matches Some(l) ==> r == Ok::<RelLocator, Error>(l),
            self.rel is None ==> r == Err::<RelLocator, Error>(Error::InvalidBuffer),
    {
        match self.rel {
            Some(l) => Ok(l),
            None => Err(Error::InvalidBuffer),
        }
    }
}

/// A fixed-size cache of pages over a storage manager.
pub struct BufferPool {
    smgr: StorageManager,
    /// Unpinned frames holding a page, least recently unpinned first.
    lru: Vec<Buffer>,
    /// The frames; frame `b` is at index `b - 1`.
    frames: Vec<BufferDesc>,
    /// Frames that hold no page.
    free_list: Vec<Buffer>,
}

pub open spec fn distinct(s: Seq<Buffer>) -> bool {
    forall|a: int, b: int| 0 <= a < s.len() && 0 <= b < s.len() && a != b ==> s[a] != s[b]
}

impl BufferPool {
    /// Number of frames.
    pub closed spec fn capacity(&self) -> nat {
        self.frames@.len()
    }

    pub open spec fn valid_buffer(&self, b: int) -> bool {
        1 <= b <= self.capacity()
    }

    /// The blocks of a relation as the storage manager holds them.
    pub closed spec fn disk(&self, loc: RelLocator) -> Seq<Seq<u8>> {
        self.smgr.file(loc)
    }

    /// Whether frame `b` holds a block.
    pub closed spec fn resident(&self, b: int) -> bool {
        self.frames@[b - 1].rel is Some
    }

    pub closed spec fn tag_of(&self, b: int) -> BufferTag {
        self.frames@[b - 1].tag
    }

    pub closed spec fn pins(&self, b: int) -> nat {
        self.frames@[b - 1].refcount as nat
    }

    pub closed spec fn dirty(&self, b: int) -> bool {
        self.frames@[b - 1].is_dirty
    }

    pub closed spec fn frame_page(&self, b: int) -> Seq<u8> {
        self.frames@[b - 1].page@
    }

    /// Unpinned frames holding a block, least recently unpinned first.
    pub closed spec fn lru_order(&self) -> Seq<Buffer> {
        self.lru@
    }

    /// Frames holding no block; the last is used first.
    pub closed spec fn free_frames(&self) -> Seq<Buffer> {
        self.free_list@
    }

    /// Frame `b` holds block `t`.
    pub open spec fn holds(&self, b: int, t: BufferTag) -> bool {
        self.valid_buffer(b) && self.resident(b) && self.tag_of(b) == t
    }

    pub open spec fn is_cached(&self, t: BufferTag) -> bool {
        exists|b: int| #[trigger] self.holds(b, t)
    }

    /// The frame holding `t`, if one does.
    pub open spec fn buffer_of(&self, t: BufferTag) -> int {
        choose|b: int| #[trigger] self.holds(b, t)
    }

    /// The current contents of block `t`: the cached frame's bytes, or else the block on disk.
    pub open spec fn page_view(&self, t: BufferTag) -> Seq<u8> {
        if self.is_cached(t) {
            self.frame_page(self.buffer_of(t))
        } else {
            self.disk(t.locator())[t.page_number - 1]
        }
    }

    /// The current contents of every page of a relation, page 1 first.
    pub open spec fn rel_pages(&self, loc: RelLocator) -> Seq<Seq<u8>> {
        Seq::new(self.disk(loc).len(), |k: int| self.page_view(BufferTag::of((k + 1) as u32, loc)))
    }

    /// A block can be brought in: some frame is free or unpinned, and no pin
    /// count is full.
    pub open spec fn can_load(&self) -> bool {
        &&& self.free_frames().len() + self.lru_order().len() > 0
        &&& forall|b: int| #[trigger] self.valid_buffer(b) ==> self.pins(b) < usize::MAX
    }

    /// Same pin counts and the same number of frames free or unpinned.
    pub open spec fn same_pins(&self, other: &BufferPool) -> bool {
        &&& self.capacity() == other.capacity()
        &&& forall|b: int| #[trigger] self.valid_buffer(b) ==> self.pins(b) == other.pins(b)
        &&& self.free_frames().len() + self.lru_order().len() == other.free_frames().len() + other.lru_order().len()
    }

    /// In a well-formed pool a frame holding a block is pinned exactly when
    /// it is absent from the LRU list, and a free frame is never pinned.
    pub proof fn lemma_pins_and_lru(&self)
        requires
            self.wf(),
        ensures
            forall|b: int| #[trigger] self.valid_buffer(b) && self.resident(b)
                ==> (self.pins(b) > 0 <==> !self.lru_order().contains(b as usize)),
            forall|b: int| #[trigger] self.valid_buffer(b) && !self.resident(b) ==> self.pins(b) == 0
                && !self.lru_order().contains(b as usize),
    {
        assert forall|b: int| #[trigger] self.valid_buffer(b) && self.resident(b)
            implies (self.pins(b) > 0 <==> !self.lru_order().contains(b as usize)) by {
            if self.lru@.contains(b as usize) {
                let k = choose|k: int| 0 <= k < self.lru@.len() && self.lru@[k] == b as usize;
                assert(self.frames@[self.lru@[k] - 1].refcount == 0);
            }
            assert(self.frames@[b - 1].rel is Some);
        }
        assert forall|b: int| #[trigger] self.valid_buffer(b) && !self.resident(b) implies self.pins(b) == 0
            && !self.lru_order().contains(b as usize) by {
            assert(self.frame_ok(b - 1));
            if self.lru@.contains(b as usize) {
                let k = choose|k: int| 0 <= k < self.lru@.len() && self.lru@[k] == b as usize;
                assert(self.frames@[self.lru@[k] - 1].rel is Some);
            }
        }
    }

    /// Reading a page through the pool gives the bytes of its file whenever
    /// no dirty frame holds it.
    pub proof fn lemma_clean_page_matches_disk(&self, loc: RelLocator, k: int)
        requires
            self.wf(),
            0 <= k < self.rel_pages(loc).len(),
            forall|b: int| #[trigger] self.holds(b, BufferTag::of((k + 1) as u32, loc)) ==> !self.dirty(b),
        ensures
            self.rel_pages(loc)[k] == self.disk(loc)[k],
    {
        self.lemma_wf_facts();
        let t = BufferTag::of((k + 1) as u32, loc);
        if self.is_cached(t) {
            let b = self.buffer_of(t);
            assert(self.holds(b, t));
            assert(self.frame_ok(b - 1));
        }
    }

    /// A pool with the same pins as one that can bring a block in can too.
    pub proof fn lemma_can_load_kept(&self, other: &BufferPool)
        requires
            self.same_pins(other),
            other.can_load(),
        ensures
            self.can_load(),
    {
        assert forall|b: int| #[trigger] self.valid_buffer(b) implies self.pins(b) < usize::MAX by {
            assert(other.valid_buffer(b));
        }
    }

    pub proof fn lemma_same_self(&self)
        ensures
            self.same_contents(self),
            self.same_pins(self),
    {
    }

    /// Two pools show the same contents for every relation.
    pub open spec fn same_contents(&self, other: &BufferPool) -> bool {
        forall|loc: RelLocator| #[trigger] self.rel_pages(loc) == other.rel_pages(loc)
    }

    closed spec fn frame_ok(&self, i: int) -> bool {
        let f = self.frames@[i];
        &&& f.id == i + 1
        &&& f.page@.len() == PAGE_SIZE
        &&& f.rel is Some ==> {
            &&& f.rel == Some(f.tag.locator())
            &&& 1 <= f.tag.page_number <= self.smgr.file(f.tag.locator()).len()
            &&& !f.is_dirty ==> f.page@ == self.smgr.file(f.tag.locator())[f.tag.page_number - 1]
        }
        &&& f.rel is None ==> f.refcount == 0 && !f.is_dirty
    }

    /// The pool's invariant.
    pub closed spec fn wf(&self) -> bool {
        &&& self.smgr.wf()
        &&& self.frames@.len() < usize::MAX
        &&& forall|i: int| 0 <= i < self.frames@.len() ==> #[trigger] self.frame_ok(i)
        &&& forall|i: int, j: int|
            0 <= i < self.frames@.len() && 0 <= j < self.frames@.len() && i != j
                && self.frames@[i].rel is Some && self.frames@[j].rel is Some
                ==> self.frames@[i].tag != self.frames@[j].tag
        &&& distinct(self.free_list@)
        &&& forall|k: int|
            0 <= k < self.free_list@.len() ==> 1 <= #[trigger] self.free_list@[k] <= self.frames@.len()
        &&& forall|k: int|
            0 <= k < self.free_list@.len() ==> self.frames@[#[trigger] self.free_list@[k] - 1].rel is None
        &&& forall|i: int|
            0 <= i < self.frames@.len() && #[trigger] self.frames@[i].rel is None
                ==> self.free_list@.contains((i + 1) as usize)
        &&& distinct(self.lru@)
        &&& forall|k: int| 0 <= k < self.lru@.len() ==> 1 <= #[trigger] self.lru@[k] <= self.frames@.len()
        &&& forall|k: int|
            0 <= k < self.lru@.len() ==> self.frames@[#[trigger] self.lru@[k] - 1].rel is Some
                && self.frames@[self.lru@[k] - 1].refcount == 0
        &&& forall|i: int|
            0 <= i < self.frames@.len() && #[trigger] self.frames@[i].rel is Some
                && self.frames@[i].refcount == 0 ==> self.lru@.contains((i + 1) as usize)
    }

    /// The invariant of a pool whose frame `x` has been taken off the free
    /// list to be loaded: `x` holds no block and is on neither list.
    closed spec fn wf_except(&self, x: int) -> bool {
        &&& self.smgr.wf()
        &&& self.frames@.len() < usize::MAX
        &&& 1 <= x <= self.frames@.len()
        &&& self.frames@[x - 1].rel is None
        &&& !self.free_list@.contains(x as usize)
        &&& forall|i: int| 0 <= i < self.frames@.len() ==> #[trigger] self.frame_ok(i)
        &&& forall|i: int, j: int|
            0 <= i < self.frames@.len() && 0 <= j < self.frames@.len() && i != j
                && self.frames@[i].rel is Some && self.frames@[j].rel is Some
                ==> self.frames@[i].tag != self.frames@[j].tag
        &&& distinct(self.free_list@)
        &&& forall|k: int|
            0 <= k < self.free_list@.len() ==> 1 <= #[trigger] self.free_list@[k] <= self.frames@.len()
        &&& forall|k: int|
            0 <= k < self.free_list@.len() ==> self.frames@[#[trigger] self.free_list@[k] - 1].rel is None
        &&& forall|i: int|
            0 <= i < self.frames@.len() && #[trigger] self.frames@[i].rel is None && i + 1 != x
                ==> self.free_list@.contains((i + 1) as usize)
        &&& distinct(self.lru@)
        &&& forall|k: int| 0 <= k < self.lru@.len() ==> 1 <= #[trigger] self.lru@[k] <= self.frames@.len()
        &&& forall|k: int|
            0 <= k < self.lru@.len() ==> self.frames@[#[trigger] self.lru@[k] - 1].rel is Some
                && self.frames@[self.lru@[k] - 1].refcount == 0
        &&& forall|i: int|
            0 <= i < self.frames@.len() && #[trigger] self.frames@[i].rel is Some
                && self.frames@[i].refcount == 0 ==> self.lru@.contains((i + 1) as usize)
    }

    /// A pool of `size` free frames over `smgr`.
    pub fn new(size: usize, smgr: StorageManager) -> (r: Self)
        requires
            smgr.wf(),
            size < usize::MAX,
        ensures
            r.wf(),
            r.capacity() == size,
            forall|loc: RelLocator| #[trigger] r.disk(loc) == smgr.file(loc),
            forall|loc: RelLocator| #[trigger] r.rel_pages(loc) == smgr.file(loc),
            r.lru_order() == Seq::<Buffer>::empty(),
            r.free_frames() == Seq::new(size as nat, |i: int| (i + 1) as usize),
            forall|b: int| 1 <= b <= size ==> #[trigger] r.pins(b) == 0 && !r.dirty(b),
            forall|b: int| 1 <= b <= size ==> #[trigger] r.tag_of(b) == (BufferTag { tablespace: 0, db: 0, relation: 0, page_number: 0 })
                && r.frame_page(b) == Seq::new(PAGE_SIZE as nat, |j: int| 0u8),
            forall|b: int| 1 <= b <= size ==> !#[trigger] r.resident(b),
    {
        let mut free_list: Vec<Buffer> = Vec::new();
        let mut frames: Vec<BufferDesc> = Vec::new();
        let mut buffer: usize = 1;
        while buffer <= size
            invariant
                1 <= buffer <= size + 1,
                size < usize::MAX,
                free_list@.len() == buffer - 1,
                frames@.len() == buffer - 1,
                forall|k: int| 0 <= k < free_list@.len() ==> #[trigger] free_list@[k] == k + 1,
                forall|i: int|
                    0 <= i < frames@.len() ==> (#[trigger] frames@[i]).id == i + 1 && frames@[i].rel is None
                        && frames@[i].refcount == 0 && !frames@[i].is_dirty && frames@[i].page@.len()
                        == PAGE_SIZE && frames@[i].page@ == Seq::new(PAGE_SIZE as nat, |j: int| 0u8)
                        && frames@[i].tag == (BufferTag { tablespace: 0, db: 0, relation: 0, page_number: 0 }),
            decreases size + 1 - buffer,
        {
            free_list.push(buffer);
            frames.push(BufferDesc::new(buffer, BufferTag::invalid()));
            buffer = buffer + 1;
        }
        let r = BufferPool { smgr, lru: Vec::new(), frames, free_list };
        assert forall|i: int| 0 <= i < r.frames@.len() && #[trigger] r.frames@[i].rel is None implies r.free_list@.contains(
            (i + 1) as usize,
        ) by {
            assert(r.free_list@[i] == i + 1);
        }
        assert forall|i: int| 0 <= i < r.frames@.len() implies #[trigger] r.frame_ok(i) by {}
        proof {
            smgr.lemma_wf_facts();
            assert(r.free_list@ =~= Seq::new(size as nat, |i: int| (i + 1) as usize));
        }
        assert forall|loc: RelLocator| #[trigger] r.rel_pages(loc) == smgr.file(loc) by {
            assert(smgr.file(loc).len() <= crate::storage::MAX_PAGES);
            assert forall|k: int| 0 <= k < smgr.file(loc).len() implies r.rel_pages(loc)[k] == smgr.file(loc)[k] by {
                let t = BufferTag::of((k + 1) as u32, loc);
                if r.is_cached(t) {
                    let b = r.buffer_of(t);
                    assert(r.holds(b, t));
                }
            }
            assert(r.rel_pages(loc) =~= smgr.file(loc));
        }
        r
    }

    proof fn lemma_holds_unique_except(&self, x: int, b: int, t: BufferTag)
        requires
            self.wf_except(x),
            self.holds(b, t),
        ensures
            self.is_cached(t),
            self.buffer_of(t) == b,
            self.page_view(t) == self.frame_page(b),
    {
        let c = self.buffer_of(t);
        assert(self.holds(c, t));
        if c != b {
            assert(self.frames@[c - 1].tag != self.frames@[b - 1].tag);
        }
    }

    proof fn lemma_holds_unique(&self, b: int, t: BufferTag)
        requires
            self.wf(),
            self.holds(b, t),
        ensures
            self.is_cached(t),
            self.buffer_of(t) == b,
            self.page_view(t) == self.frame_page(b),
    {
        let c = self.buffer_of(t);
        assert(self.holds(c, t));
        if c != b {
            assert(self.frames@[c - 1].tag != self.frames@[b - 1].tag);
        }
    }

    /// Facts every caller may rely on while the pool is well formed.
    pub proof fn lemma_wf_facts(&self)
        requires
            self.wf(),
        ensures
            forall|b: int| #[trigger] self.valid_buffer(b) ==> self.frame_page(b).len() == PAGE_SIZE,
            forall|b: int, t: BufferTag| #[trigger] self.holds(b, t) ==> self.buffer_of(t) == b
                && self.page_view(t) == self.frame_page(b)
                && 1 <= t.page_number <= self.disk(t.locator()).len(),
            forall|loc: RelLocator| #[trigger] self.disk(loc).len() <= crate::storage::MAX_PAGES,
            forall|loc: RelLocator, k: int| 0 <= k < self.disk(loc).len() ==> #[trigger] self.disk(loc)[k].len() == PAGE_SIZE,
            forall|loc: RelLocator| #[trigger] self.rel_pages(loc).len() == self.disk(loc).len(),
            forall|loc: RelLocator, k: int| 0 <= k < self.rel_pages(loc).len() ==> #[trigger] self.rel_pages(loc)[k].len() == PAGE_SIZE,
    {
        self.smgr.lemma_wf_facts();
        assert forall|b: int| #[trigger] self.valid_buffer(b) implies self.frame_page(b).len() == PAGE_SIZE by {
            assert(self.frame_ok(b - 1));
        }
        assert forall|b: int, t: BufferTag| #[trigger] self.holds(b, t) implies self.buffer_of(t) == b
            && self.page_view(t) == self.frame_page(b)
            && 1 <= t.page_number <= self.disk(t.locator()).len() by {
            self.lemma_holds_unique(b, t);
            assert(self.frame_ok(b - 1));
        }
        assert forall|loc: RelLocator, k: int| 0 <= k < self.rel_pages(loc).len() implies #[trigger] self.rel_pages(loc)[k].len() == PAGE_SIZE by {
            let t = BufferTag::of((k + 1) as u32, loc);
            assert(self.smgr.file(loc).len() <= crate::storage::MAX_PAGES);
            if self.is_cached(t) {
                let b = self.buffer_of(t);
                assert(self.holds(b, t));
                assert(self.frame_ok(b - 1));
            }
        }
    }

    /// Index of a frame that holds `t`, if any.
    fn lookup(&self, t: BufferTag) -> (r: Option<usize>)
        requires
            self.wf(),
        ensures
            r matches Some(b) ==> self.holds(b as int, t),
            r is None ==> !self.is_cached(t),
    {
        let mut i: usize = 0;
        while i < self.frames.len()
            invariant
                self.wf(),
                i <= self.frames@.len(),
                forall|b: int| 1 <= b <= i ==> !#[trigger] self.holds(b, t),
            decreases self.frames@.len() - i,
        {
            if self.frames[i].rel.is_some() && self.frames[i].tag == t {
                return Some(i + 1);
            }
            i = i + 1;
        }
        assert forall|b: int| !#[trigger] self.holds(b, t) by {
        }
        None
    }

    /// Position of `b` in the LRU list.
    fn lru_position(&self, b: Buffer) -> (r: usize)
        requires
            self.lru@.contains(b),
        ensures
            r < self.lru@.len(),
            self.lru@[r as int] == b,
    {
        let mut k: usize = 0;
        while k < self.lru.len()
            invariant
                self.lru@.contains(b),
                k <= self.lru@.len(),
                forall|j: int| 0 <= j < k ==> self.lru@[j] != b,
            decreases self.lru@.len() - k,
        {
            if self.lru[k] == b {
                return k;
            }
            k = k + 1;
        }
        k
    }

    /// Pins frame `b`, taking it out of the LRU list when it was unpinned.
    fn pin_buffer(&mut self, b: Buffer)
        requires
            old(self).wf(),
            old(self).valid_buffer(b as int),
            old(self).resident(b as int),
            old(self).pins(b as int) < usize::MAX,
        ensures
            final(self).wf(),
            final(self).same_contents(old(self)),
            final(self).capacity() == old(self).capacity(),
            forall|loc: RelLocator| #[trigger] final(self).disk(loc) == old(self).disk(loc),
            forall|c: int| old(self).valid_buffer(c) && c != b ==> #[trigger] final(self).resident(c) == old(self).resident(c)
                && final(self).tag_of(c) == old(self).tag_of(c) && final(self).pins(c) == old(self).pins(c)
                && final(self).dirty(c) == old(self).dirty(c) && final(self).frame_page(c) == old(self).frame_page(c),
            final(self).resident(b as int),
            final(self).tag_of(b as int) == old(self).tag_of(b as int),
            final(self).pins(b as int) == old(self).pins(b as int) + 1,
            final(self).dirty(b as int) == old(self).dirty(b as int),
            final(self).frame_page(b as int) == old(self).frame_page(b as int),
            old(self).pins(b as int) > 0 ==> final(self).lru_order() == old(self).lru_order(),
            old(self).pins(b as int) == 0 ==> exists|k: int| 0 <= k < old(self).lru_order().len()
                && old(self).lru_order()[k] == b && final(self).lru_order() == old(self).lru_order().remove(k),
            final(self).free_frames() == old(self).free_frames(),
    {
        let ghost old_s = *self;
        let i = b - 1;
        let rc = self.frames[i].refcount;
        let ghost mut kpos: int = 0;
        if rc == 0 {
            assert(self.frame_ok(i as int));
            let k = self.lru_position(b);
            self.lru.remove(k);
            proof {
                kpos = k as int;
                assert(old_s.lru@[kpos] == b);
                assert(self.lru@ == old_s.lru@.remove(kpos));
            }
            proof {
                assert forall|j: int, l: int| 0 <= j < self.lru@.len() && 0 <= l < self.lru@.len() && j != l implies self.lru@[j] != self.lru@[l] by {
                    let jj = if j < k { j } else { j + 1 };
                    let ll = if l < k { l } else { l + 1 };
                    assert(old_s.lru@[jj] != old_s.lru@[ll]);
                }
            }
        }
        self.frames[i].refcount = rc + 1;
        proof {
            assert forall|j: int| 0 <= j < self.frames@.len() implies #[trigger] self.frame_ok(j) by {
                assert(old_s.frame_ok(j));
            }
            assert forall|kk: int| 0 <= kk < self.lru@.len() implies self.frames@[#[trigger] self.lru@[kk] - 1].rel is Some
                && self.frames@[self.lru@[kk] - 1].refcount == 0 by {
                if rc == 0 {
                    let k = kpos;
                    let jj = if kk < k { kk } else { kk + 1 };
                    assert(old_s.lru@[jj] == self.lru@[kk]);
                    assert(old_s.lru@[jj] != old_s.lru@[k]);
                } else {
                    assert(old_s.lru@[kk] == self.lru@[kk]);
                    if self.lru@[kk] == b {
                        assert(old_s.frames@[b - 1].refcount == 0);
                    }
                }
            }
            assert forall|j: int| 0 <= j < self.frames@.len() && #[trigger] self.frames@[j].rel is Some
                && self.frames@[j].refcount == 0 implies self.lru@.contains((j + 1) as usize) by {
                assert(j != i as int);
                assert(old_s.frames@[j] == self.frames@[j]);
                assert(old_s.lru@.contains((j + 1) as usize));
                let w = choose|w: int| 0 <= w < old_s.lru@.len() && old_s.lru@[w] == (j + 1) as usize;
                if rc == 0 {
                    let k = kpos;
                    assert(old_s.lru@[k] == b);
                    assert((j + 1) as usize != b);
                    if w < k {
                        assert(self.lru@[w] == (j + 1) as usize);
                    } else {
                        assert(w != k);
                        assert(self.lru@[w - 1] == (j + 1) as usize);
                    }
                } else {
                    assert(self.lru@[w] == (j + 1) as usize);
                }
            }
            assert forall|kk: int| 0 <= kk < self.free_list@.len() implies self.frames@[#[trigger] self.free_list@[kk] - 1].rel is None by {
                assert(old_s.frames@[old_s.free_list@[kk] - 1].rel is None);
            }
            assert forall|j: int| 0 <= j < self.frames@.len() && #[trigger] self.frames@[j].rel is None implies self.free_list@.contains((j + 1) as usize) by {
                assert(old_s.frames@[j].rel is None);
            }
            assert(self.wf());
            self.lemma_same_frames(&old_s);
            if rc == 0 {
                assert(old_s.lru@[kpos] == b && self.lru@ == old_s.lru@.remove(kpos));
                assert(old_s.lru_order()[kpos] == b && self.lru_order() == old_s.lru_order().remove(kpos));
            }
        }
    }

    /// Pools that differ only in pin counts, dirty flags of frames whose
    /// bytes are unchanged, and replacement lists show the same contents.
    proof fn lemma_same_frames(&self, other: &BufferPool)
        requires
            self.wf(),
            other.wf(),
            self.smgr@ == other.smgr@,
            self.frames@.len() == other.frames@.len(),
            forall|i: int| 0 <= i < self.frames@.len() ==> (#[trigger] self.frames@[i]).rel == other.frames@[i].rel
                && self.frames@[i].tag == other.frames@[i].tag && self.frames@[i].page@ == other.frames@[i].page@,
        ensures
            self.same_contents(other),
    {
        assert forall|loc: RelLocator| #[trigger] self.rel_pages(loc) == other.rel_pages(loc) by {
            assert forall|k: int| 0 <= k < self.disk(loc).len() implies self.rel_pages(loc)[k] == other.rel_pages(loc)[k] by {
                let t = BufferTag::of((k + 1) as u32, loc);
                if self.is_cached(t) {
                    let b = self.buffer_of(t);
                    assert(other.holds(b, t));
                    other.lemma_holds_unique(b, t);
                    self.lemma_holds_unique(b, t);
                } else if other.is_cached(t) {
                    let b = other.buffer_of(t);
                    assert(self.holds(b, t));
                }
            }
            assert(self.rel_pages(loc) =~= other.rel_pages(loc));
        }
    }

    /// Drops one pin of frame `b` and records whether the caller dirtied it;
    /// when no pin is left the frame goes to the most recently used end of the
    /// LRU list. Fails with `InvalidBuffer`, the pool unchanged, when `b` names
    /// no frame or its frame is not pinned.
    pub fn unpin_buffer(&mut self, b: Buffer, is_dirty: bool) -> (r: Result<(), Error>)
        requires
            old(self).wf(),
        ensures
            final(self).wf(),
            (old(self).valid_buffer(b as int) && old(self).resident(b as int) && old(self).pins(b as int) > 0) <==> r is Ok,
            r matches Err(e) ==> e == Error::InvalidBuffer && *final(self) == *old(self),
            final(self).same_contents(old(self)),
            final(self).capacity() == old(self).capacity(),
            forall|loc: RelLocator| #[trigger] final(self).disk(loc) == old(self).disk(loc),
            final(self).free_frames() == old(self).free_frames(),
            r is Ok ==> {
                &&& forall|c: int| old(self).valid_buffer(c) && c != b ==> #[trigger] final(self).resident(c) == old(self).resident(c)
                    && final(self).tag_of(c) == old(self).tag_of(c) && final(self).pins(c) == old(self).pins(c)
                    && final(self).dirty(c) == old(self).dirty(c) && final(self).frame_page(c) == old(self).frame_page(c)
                &&& final(self).resident(b as int)
                &&& final(self).tag_of(b as int) == old(self).tag_of(b as int)
                &&& final(self).pins(b as int) == old(self).pins(b as int) - 1
                &&& final(self).dirty(b as int) == (old(self).dirty(b as int) || is_dirty)
                &&& final(self).frame_page(b as int) == old(self).frame_page(b as int)
                &&& final(self).lru_order() == if final(self).pins(b as int) == 0 {
                    old(self).lru_order().push(b)
                } else {
                    old(self).lru_order()
                }
            },
    {
        if b == 0 || b > self.frames.len() {
            return Err(Error::InvalidBuffer);
        }
        let i = b - 1;
        if self.frames[i].rel.is_none() || self.frames[i].refcount == 0 {
            return Err(Error::InvalidBuffer);
        }
        let ghost old_s = *self;
        let d = self.frames[i].is_dirty || is_dirty;
        let rc = self.frames[i].refcount - 1;
        self.frames[i].is_dirty = d;
        self.frames[i].refcount = rc;
        if rc == 0 {
            self.lru.push(b);
        }
        proof {
            assert forall|j: int| 0 <= j < self.frames@.len() implies #[trigger] self.frame_ok(j) by {
                assert(old_s.frame_ok(j));
            }
            assert(!old_s.lru@.contains(b)) by {
                if old_s.lru@.contains(b) {
                    let w = choose|w: int| 0 <= w < old_s.lru@.len() && old_s.lru@[w] == b;
                    assert(old_s.frames@[old_s.lru@[w] - 1].refcount == 0);
                }
            }
            assert forall|kk: int| 0 <= kk < self.lru@.len() implies self.frames@[#[trigger] self.lru@[kk] - 1].rel is Some
                && self.frames@[self.lru@[kk] - 1].refcount == 0 by {
                if kk < old_s.lru@.len() {
                    assert(old_s.lru@[kk] == self.lru@[kk]);
                    assert(old_s.frames@[old_s.lru@[kk] - 1].refcount == 0);
                }
            }
            assert forall|j: int| 0 <= j < self.frames@.len() && #[trigger] self.frames@[j].rel is Some
                && self.frames@[j].refcount == 0 implies self.lru@.contains((j + 1) as usize) by {
                if j == i {
                    assert(self.lru@[self.lru@.len() - 1] == b);
                } else {
                    assert(old_s.frames@[j] == self.frames@[j]);
                    let w = choose|w: int| 0 <= w < old_s.lru@.len() && old_s.lru@[w] == (j + 1) as usize;
                    assert(self.lru@[w] == (j + 1) as usize);
                }
            }
            assert forall|kk: int| 0 <= kk < self.free_list@.len() implies self.frames@[#[trigger] self.free_list@[kk] - 1].rel is None by {
                assert(old_s.frames@[old_s.free_list@[kk] - 1].rel is None);
            }
            assert forall|j: int| 0 <= j < self.frames@.len() && #[trigger] self.frames@[j].rel is None implies self.free_list@.contains((j + 1) as usize) by {
                assert(old_s.frames@[j].rel is None);
            }
            assert(self.wf());
            self.lemma_same_frames(&old_s);
        }
        Ok(())
    }

    /// Writes the bytes of frame `b` to its block on disk and clears its dirty
    /// flag; pins are unaffected. Fails with `InvalidBuffer`, the pool
    /// unchanged, when `b` names no frame or its frame holds no block.
    pub fn flush_buffer(&mut self, b: Buffer) -> (r: Result<(), Error>)
        requires
            old(self).wf(),
        ensures
            final(self).wf(),
            (old(self).valid_buffer(b as int) && old(self).resident(b as int)) <==> r is Ok,
            r matches Err(e) ==> e == Error::InvalidBuffer && *final(self) == *old(self),
            final(self).same_contents(old(self)),
            final(self).capacity() == old(self).capacity(),
            final(self).lru_order() == old(self).lru_order(),
            final(self).free_frames() == old(self).free_frames(),
            forall|c: int| old(self).valid_buffer(c) && c != b ==> #[trigger] final(self).resident(c) == old(self).resident(c)
                && final(self).tag_of(c) == old(self).tag_of(c) && final(self).pins(c) == old(self).pins(c)
                && final(self).dirty(c) == old(self).dirty(c) && final(self).frame_page(c) == old(self).frame_page(c),
            r is Ok ==> {
                let t = old(self).tag_of(b as int);
                &&& final(self).resident(b as int)
                &&& final(self).tag_of(b as int) == t
                &&& final(self).pins(b as int) == old(self).pins(b as int)
                &&& !final(self).dirty(b as int)
                &&& final(self).frame_page(b as int) == old(self).frame_page(b as int)
                &&& forall|loc: RelLocator| #[trigger] final(self).disk(loc) == if loc == t.locator() {
                    old(self).disk(loc).update(t.page_number - 1, old(self).frame_page(b as int))
                } else {
                    old(self).disk(loc)
                }
                &&& final(self).disk(t.locator())[t.page_number - 1] == final(self).frame_page(b as int)
            },
    {
        if b == 0 || b > self.frames.len() {
            return Err(Error::InvalidBuffer);
        }
        let i = b - 1;
        let loc = match self.frames[i].relation() {
            Ok(l) => l,
            Err(e) => return Err(e),
        };
        let ghost old_s = *self;
        assert(self.frame_ok(i as int));
        let pn = self.frames[i].tag.page_number;
        let w = self.smgr.write(loc, pn, &self.frames[i].page);
        assert(w is Ok);
        self.frames[i].is_dirty = false;
        proof {
            let t = old_s.frames@[i as int].tag;
            assert forall|l: RelLocator| #[trigger] self.smgr.file(l) == if l == loc {
                old_s.smgr.file(l).update(pn - 1, old_s.frames@[i as int].page@)
            } else {
                old_s.smgr.file(l)
            } by {
                old_s.smgr.lemma_wf_facts();
                if l != loc && old_s.smgr@.contains_key(l) {
                    assert(self.smgr@.contains_key(l));
                }
                if l != loc && !old_s.smgr@.contains_key(l) {
                    assert(!self.smgr@.contains_key(l));
                }
            }
            assert forall|j: int| 0 <= j < self.frames@.len() implies #[trigger] self.frame_ok(j) by {
                assert(old_s.frame_ok(j));
                if j != i && self.frames@[j].rel is Some {
                    assert(old_s.frames@[j].tag != t);
                }
            }
            assert forall|kk: int| 0 <= kk < self.lru@.len() implies self.frames@[#[trigger] self.lru@[kk] - 1].rel is Some
                && self.frames@[self.lru@[kk] - 1].refcount == 0 by {
                assert(old_s.frames@[old_s.lru@[kk] - 1].refcount == 0);
            }
            assert forall|j: int| 0 <= j < self.frames@.len() && #[trigger] self.frames@[j].rel is Some
                && self.frames@[j].refcount == 0 implies self.lru@.contains((j + 1) as usize) by {
                assert(old_s.frames@[j].rel is Some);
            }
            assert forall|kk: int| 0 <= kk < self.free_list@.len() implies self.frames@[#[trigger] self.free_list@[kk] - 1].rel is None by {
                assert(old_s.frames@[old_s.free_list@[kk] - 1].rel is None);
            }
            assert forall|j: int| 0 <= j < self.frames@.len() && #[trigger] self.frames@[j].rel is None implies self.free_list@.contains((j + 1) as usize) by {
                assert(old_s.frames@[j].rel is None);
            }
            assert(self.wf());
            old_s.lemma_wf_facts();
            assert forall|l: RelLocator| #[trigger] self.rel_pages(l) == old_s.rel_pages(l) by {
                assert forall|k: int| 0 <= k < self.disk(l).len() implies self.rel_pages(l)[k] == old_s.rel_pages(l)[k] by {
                    let u = BufferTag::of((k + 1) as u32, l);
                    if self.is_cached(u) {
                        let c = self.buffer_of(u);
                        assert(old_s.holds(c, u));
                        old_s.lemma_holds_unique(c, u);
                        self.lemma_holds_unique(c, u);
                    } else {
                        if old_s.is_cached(u) {
                            let c = old_s.buffer_of(u);
                            assert(self.holds(c, u));
                        }
                        assert(self.holds(b as int, t));
                        assert(u != t);
                    }
                }
                assert(self.rel_pages(l) =~= old_s.rel_pages(l));
            }
        }
        Ok(())
    }

    /// Loads block `page_number` of `loc` into frame `b`, taken off the free
    /// list, and pins it once.
    #[verifier::spinoff_prover]
    #[verifier::rlimit(60)]
    fn bind_frame(&mut self, b: Buffer, loc: RelLocator, page_number: u32)
        requires
            old(self).wf_except(b as int),
            !old(self).is_cached(BufferTag::of(page_number, loc)),
            1 <= page_number <= old(self).disk(loc).len(),
        ensures
            final(self).wf(),
            final(self).same_contents(old(self)),
            final(self).capacity() == old(self).capacity(),
            forall|l: RelLocator| #[trigger] final(self).disk(l) == old(self).disk(l),
            final(self).holds(b as int, BufferTag::of(page_number, loc)),
            final(self).pins(b as int) == 1,
            !final(self).dirty(b as int),
            final(self).frame_page(b as int) == old(self).rel_pages(loc)[page_number - 1],
            forall|c: int| old(self).valid_buffer(c) && c != b ==> #[trigger] final(self).resident(c) == old(self).resident(c)
                && final(self).tag_of(c) == old(self).tag_of(c) && final(self).pins(c) == old(self).pins(c)
                && final(self).dirty(c) == old(self).dirty(c) && final(self).frame_page(c) == old(self).frame_page(c),
            final(self).lru_order() == old(self).lru_order(),
            final(self).free_frames() == old(self).free_frames(),
    {
        let ghost old_s = *self;
        let i = b - 1;
        let t = BufferTag::new(page_number, loc);
        proof {
            old_s.smgr.lemma_wf_facts();
            assert(old_s.frame_ok(i as int));
        }
        let page = match self.smgr.read(loc, page_number) {
            Ok(p) => p,
            Err(e) => {
                assert(false);
                return;
            },
        };
        self.frames[i].tag = t;
        self.frames[i].rel = Some(loc);
        self.frames[i].refcount = 1;
        self.frames[i].is_dirty = false;
        self.frames[i].page = page;
        proof {
            assert forall|j: int| 0 <= j < self.frames@.len() implies #[trigger] self.frame_ok(j) by {
                assert(old_s.frame_ok(j));
            }
            assert forall|x: int, y: int|
                0 <= x < self.frames@.len() && 0 <= y < self.frames@.len() && x != y
                    && self.frames@[x].rel is Some && self.frames@[y].rel is Some
                    implies self.frames@[x].tag != self.frames@[y].tag by {
                if x == i {
                    assert(!old_s.holds(y + 1, t));
                } else if y == i {
                    assert(!old_s.holds(x + 1, t));
                } else {
                    assert(old_s.frames@[x].tag != old_s.frames@[y].tag);
                }
            }
            assert forall|kk: int| 0 <= kk < self.free_list@.len() implies self.frames@[#[trigger] self.free_list@[kk] - 1].rel is None by {
                assert(old_s.frames@[old_s.free_list@[kk] - 1].rel is None);
                assert(old_s.free_list@[kk] != b);
            }
            assert forall|j: int| 0 <= j < self.frames@.len() && #[trigger] self.frames@[j].rel is None implies self.free_list@.contains((j + 1) as usize) by {
                assert(old_s.frames@[j].rel is None);
            }
            assert forall|kk: int| 0 <= kk < self.lru@.len() implies self.frames@[#[trigger] self.lru@[kk] - 1].rel is Some
                && self.frames@[self.lru@[kk] - 1].refcount == 0 by {
                assert(old_s.frames@[old_s.lru@[kk] - 1].refcount == 0);
                assert(old_s.frames@[old_s.lru@[kk] - 1].rel is Some);
            }
            assert forall|j: int| 0 <= j < self.frames@.len() && #[trigger] self.frames@[j].rel is Some
                && self.frames@[j].refcount == 0 implies self.lru@.contains((j + 1) as usize) by {
                assert(j != i);
                assert(old_s.frames@[j].rel is Some);
            }
            assert(self.wf());
            self.lemma_wf_facts();
            assert forall|l: RelLocator| #[trigger] self.rel_pages(l) == old_s.rel_pages(l) by {
                assert forall|k: int| 0 <= k < self.disk(l).len() implies self.rel_pages(l)[k] == old_s.rel_pages(l)[k] by {
                    let u = BufferTag::of((k + 1) as u32, l);
                    if u == t {
                        self.lemma_holds_unique(b as int, t);
                    } else if self.is_cached(u) {
                        let c = self.buffer_of(u);
                        assert(c != b);
                        assert(old_s.holds(c, u));
                        old_s.lemma_holds_unique_except(b as int, c, u);
                        self.lemma_holds_unique(c, u);
                    } else if old_s.is_cached(u) {
                        let c = old_s.buffer_of(u);
                        assert(old_s.holds(c, u));
                        assert(c != b);
                        assert(self.holds(c, u));
                    }
                }
                assert(self.rel_pages(l) =~= old_s.rel_pages(l));
            }
            self.lemma_holds_unique(b as int, t);
            assert(old_s.rel_pages(loc)[page_number - 1] == old_s.page_view(t));
        }
    }

    /// Takes the least recently unpinned frame out of the LRU list, writes
    /// it to disk first when it is dirty, drops its block from the cache and
    /// puts it on the free list. Fails with `NoFreeBuffer` when every frame
    /// holding a block is pinned.
    #[verifier::spinoff_prover]
    #[verifier::rlimit(60)]
    fn victim(&mut self) -> (r: Result<Buffer, Error>)
        requires
            old(self).wf(),
        ensures
            final(self).wf(),
            final(self).same_contents(old(self)),
            final(self).capacity() == old(self).capacity(),
            old(self).lru_order().len() > 0 <==> r is Ok,
            r matches Err(e) ==> e == Error::NoFreeBuffer && *final(self) == *old(self),
            r matches Ok(b) ==> {
                &&& b == old(self).lru_order()[0]
                &&& old(self).valid_buffer(b as int)
                &&& old(self).resident(b as int)
                &&& final(self).lru_order() == old(self).lru_order().subrange(1, old(self).lru_order().len() as int)
                &&& final(self).free_frames() == old(self).free_frames().push(b)
                &&& !final(self).resident(b as int)
                &&& final(self).pins(b as int) == 0
                &&& !final(self).dirty(b as int)
                &&& !final(self).is_cached(old(self).tag_of(b as int))
                &&& forall|c: int| old(self).valid_buffer(c) && c != b ==> #[trigger] final(self).resident(c) == old(self).resident(c)
                    && final(self).tag_of(c) == old(self).tag_of(c) && final(self).pins(c) == old(self).pins(c)
                    && final(self).dirty(c) == old(self).dirty(c) && final(self).frame_page(c) == old(self).frame_page(c)
                &&& old(self).dirty(b as int) ==> forall|loc: RelLocator| #[trigger] final(self).disk(loc) == if loc == old(self).tag_of(b as int).locator() {
                    old(self).disk(loc).update(old(self).tag_of(b as int).page_number - 1, old(self).frame_page(b as int))
                } else {
                    old(self).disk(loc)
                }
                &&& !old(self).dirty(b as int) ==> forall|loc: RelLocator| #[trigger] final(self).disk(loc) == old(self).disk(loc)
            },
    {
        if self.lru.len() == 0 {
            return Err(Error::NoFreeBuffer);
        }
        let ghost old_s = *self;
        let b = self.lru[0];
        assert(self.frames@[self.lru@[0] - 1].refcount == 0);
        if self.frames[b - 1].is_dirty {
            let f = self.flush_buffer(b);
            assert(f is Ok);
            assert forall|loc: RelLocator| #[trigger] self.disk(loc) == if loc == old_s.tag_of(b as int).locator() {
                old_s.disk(loc).update(old_s.tag_of(b as int).page_number - 1, old_s.frame_page(b as int))
            } else {
                old_s.disk(loc)
            } by {}
        }
        let ghost mid = *self;
        let i = b - 1;
        proof {
            assert(mid.frame_ok(i as int));
            assert(mid.holds(b as int, mid.tag_of(b as int)));
            mid.lemma_holds_unique(b as int, mid.tag_of(b as int));
            assert(!mid.free_list@.contains(b)) by {
                if mid.free_list@.contains(b) {
                    let w = choose|w: int| 0 <= w < mid.free_list@.len() && mid.free_list@[w] == b;
                    assert(mid.frames@[mid.free_list@[w] - 1].rel is None);
                }
            }
        }
        self.lru.remove(0);
        self.frames[i].rel = None;
        self.free_list.push(b);
        proof {
            let vt = mid.tag_of(b as int);
            assert forall|j: int| 0 <= j < self.frames@.len() implies #[trigger] self.frame_ok(j) by {
                assert(mid.frame_ok(j));
            }
            assert forall|x: int, y: int|
                0 <= x < self.frames@.len() && 0 <= y < self.frames@.len() && x != y
                    && self.frames@[x].rel is Some && self.frames@[y].rel is Some
                    implies self.frames@[x].tag != self.frames@[y].tag by {
                assert(mid.frames@[x].tag != mid.frames@[y].tag);
            }
            assert forall|p: int, q: int| 0 <= p < self.free_list@.len() && 0 <= q < self.free_list@.len() && p != q
                implies self.free_list@[p] != self.free_list@[q] by {
                if p < mid.free_list@.len() && q < mid.free_list@.len() {
                    assert(mid.free_list@[p] != mid.free_list@[q]);
                } else if p < mid.free_list@.len() {
                    assert(mid.free_list@.contains(mid.free_list@[p]));
                } else {
                    assert(mid.free_list@.contains(mid.free_list@[q]));
                }
            }
            assert forall|kk: int| 0 <= kk < self.free_list@.len() implies self.frames@[#[trigger] self.free_list@[kk] - 1].rel is None by {
                if kk < mid.free_list@.len() {
                    assert(mid.frames@[mid.free_list@[kk] - 1].rel is None);
                }
            }
            assert forall|j: int| 0 <= j < self.frames@.len() && #[trigger] self.frames@[j].rel is None implies self.free_list@.contains((j + 1) as usize) by {
                if j == i {
                    assert(self.free_list@[self.free_list@.len() - 1] == b);
                } else {
                    assert(mid.frames@[j].rel is None);
                    let w = choose|w: int| 0 <= w < mid.free_list@.len() && mid.free_list@[w] == (j + 1) as usize;
                    assert(self.free_list@[w] == (j + 1) as usize);
                }
            }
            assert forall|p: int, q: int| 0 <= p < self.lru@.len() && 0 <= q < self.lru@.len() && p != q
                implies self.lru@[p] != self.lru@[q] by {
                assert(mid.lru@[p + 1] != mid.lru@[q + 1]);
            }
            assert forall|kk: int| 0 <= kk < self.lru@.len() implies self.frames@[#[trigger] self.lru@[kk] - 1].rel is Some
                && self.frames@[self.lru@[kk] - 1].refcount == 0 by {
                assert(self.lru@[kk] == mid.lru@[kk + 1]);
                assert(mid.lru@[kk + 1] != mid.lru@[0]);
                assert(mid.frames@[mid.lru@[kk + 1] - 1].refcount == 0);
            }
            assert forall|j: int| 0 <= j < self.frames@.len() && #[trigger] self.frames@[j].rel is Some
                && self.frames@[j].refcount == 0 implies self.lru@.contains((j + 1) as usize) by {
                assert(j != i);
                assert(mid.frames@[j].rel is Some);
                let w = choose|w: int| 0 <= w < mid.lru@.len() && mid.lru@[w] == (j + 1) as usize;
                assert(w != 0);
                assert(self.lru@[w - 1] == (j + 1) as usize);
            }
            assert(self.wf());
            self.lemma_wf_facts();
            mid.lemma_wf_facts();
            assert forall|c: int| !#[trigger] self.holds(c, vt) by {
                if self.holds(c, vt) {
                    assert(c != b);
                    assert(mid.holds(c, vt));
                }
            }
            assert forall|l: RelLocator| #[trigger] self.rel_pages(l) == mid.rel_pages(l) by {
                assert forall|k: int| 0 <= k < self.disk(l).len() implies self.rel_pages(l)[k] == mid.rel_pages(l)[k] by {
                    let u = BufferTag::of((k + 1) as u32, l);
                    if u == vt {
                        assert(mid.frame_ok(i as int));
                    } else if self.is_cached(u) {
                        let c = self.buffer_of(u);
                        assert(self.holds(c, u));
                        assert(mid.holds(c, u));
                        mid.lemma_holds_unique(c, u);
                        self.lemma_holds_unique(c, u);
                    } else if mid.is_cached(u) {
                        let c = mid.buffer_of(u);
                        assert(mid.holds(c, u));
                        assert(c != b);
                        assert(self.holds(c, u));
                    }
                }
                assert(self.rel_pages(l) =~= mid.rel_pages(l));
            }
            assert(self.lru@ =~= old_s.lru@.subrange(1, old_s.lru@.len() as int));
            assert forall|l: RelLocator| #[trigger] self.rel_pages(l) == old_s.rel_pages(l) by {
                assert(mid.rel_pages(l) == old_s.rel_pages(l));
            }
            assert forall|c: int| old_s.valid_buffer(c) && c != b implies #[trigger] self.resident(c) == old_s.resident(c)
                && self.tag_of(c) == old_s.tag_of(c) && self.pins(c) == old_s.pins(c)
                && self.dirty(c) == old_s.dirty(c) && self.frame_page(c) == old_s.frame_page(c) by {
                assert(mid.resident(c) == old_s.resident(c));
            }
            assert(self.free_list@ == old_s.free_list@.push(b));
            assert(!self.is_cached(vt));
            if old_s.dirty(b as int) {
                assert forall|loc: RelLocator| #[trigger] self.disk(loc) == if loc == old_s.tag_of(b as int).locator() {
                    old_s.disk(loc).update(old_s.tag_of(b as int).page_number - 1, old_s.frame_page(b as int))
                } else {
                    old_s.disk(loc)
                } by {
                    assert(self.disk(loc) == mid.disk(loc));
                }
            } else {
                assert(old_s == mid);
            }
        }
        Ok(b)
    }

    /// A frame to load a block into, taken off the free list; when the free
    /// list is empty the victim is freed first. The flag tells whether the
    /// free list had a frame.
    #[verifier::spinoff_prover]
    #[verifier::rlimit(60)]
    fn new_free_buffer(&mut self) -> (r: Result<(Buffer, bool), Error>)
        requires
            old(self).wf(),
        ensures
            (old(self).free_frames().len() > 0 || old(self).lru_order().len() > 0) <==> r is Ok,
            r is Err ==> final(self).wf(),
            r matches Err(e) ==> e == Error::NoFreeBuffer && *final(self) == *old(self),
            r matches Ok((b, from_free)) ==> {
                &&& final(self).wf_except(b as int)
                &&& final(self).same_contents(old(self))
                &&& final(self).capacity() == old(self).capacity()
                &&& old(self).valid_buffer(b as int)
                &&& from_free == (old(self).free_frames().len() > 0)
                &&& final(self).pins(b as int) == 0
                &&& !final(self).dirty(b as int)
                &&& forall|c: int| old(self).valid_buffer(c) && c != b ==> #[trigger] final(self).resident(c) == old(self).resident(c)
                    && final(self).tag_of(c) == old(self).tag_of(c) && final(self).pins(c) == old(self).pins(c)
                    && final(self).dirty(c) == old(self).dirty(c) && final(self).frame_page(c) == old(self).frame_page(c)
                &&& from_free ==> {
                    &&& b == old(self).free_frames().last()
                    &&& final(self).free_frames() == old(self).free_frames().drop_last()
                    &&& final(self).lru_order() == old(self).lru_order()
                    &&& !old(self).resident(b as int)
                    &&& forall|loc: RelLocator| #[trigger] final(self).disk(loc) == old(self).disk(loc)
                }
                &&& !from_free ==> {
                    &&& b == old(self).lru_order()[0]
                    &&& old(self).resident(b as int)
                    &&& old(self).pins(b as int) == 0
                    &&& final(self).free_frames() == old(self).free_frames()
                    &&& final(self).lru_order() == old(self).lru_order().subrange(1, old(self).lru_order().len() as int)
                    &&& old(self).dirty(b as int) ==> forall|loc: RelLocator| #[trigger] final(self).disk(loc) == if loc == old(self).tag_of(b as int).locator() {
                        old(self).disk(loc).update(old(self).tag_of(b as int).page_number - 1, old(self).frame_page(b as int))
                    } else {
                        old(self).disk(loc)
                    }
                    &&& !old(self).dirty(b as int) ==> forall|loc: RelLocator| #[trigger] final(self).disk(loc) == old(self).disk(loc)
                }
            },
    {
        let ghost old_s = *self;
        let from_free = self.free_list.len() > 0;
        let ghost mut v: usize = 0;
        if !from_free {
            match self.victim() {
                Ok(x) => {
                    proof {
                        v = x;
                    }
                },
                Err(e) => return Err(e),
            }
        }
        let ghost mid = *self;
        proof {
            if !from_free {
                assert(old_s.frames@[old_s.lru@[0] - 1].refcount == 0);
            } else {
                mid.lemma_same_frames(&mid);
            }
        }
        let b = self.free_list.pop().unwrap();
        proof {
            let n = mid.free_list@.len() - 1;
            assert(mid.free_list@[n] == b);
            assert(mid.frames@[mid.free_list@[n] - 1].rel is None);
            assert(mid.frame_ok(b - 1));
            assert(!self.free_list@.contains(b)) by {
                if self.free_list@.contains(b) {
                    let w = choose|w: int| 0 <= w < self.free_list@.len() && self.free_list@[w] == b;
                    assert(mid.free_list@[w] != mid.free_list@[n]);
                }
            }
            assert forall|j: int| 0 <= j < self.frames@.len() && #[trigger] self.frames@[j].rel is None && j + 1 != b
                implies self.free_list@.contains((j + 1) as usize) by {
                let w = choose|w: int| 0 <= w < mid.free_list@.len() && mid.free_list@[w] == (j + 1) as usize;
                assert(w != n);
                assert(self.free_list@[w] == (j + 1) as usize);
            }
            assert forall|p: int, q: int| 0 <= p < self.free_list@.len() && 0 <= q < self.free_list@.len() && p != q
                implies self.free_list@[p] != self.free_list@[q] by {
                assert(mid.free_list@[p] != mid.free_list@[q]);
            }
            assert forall|kk: int| 0 <= kk < self.free_list@.len() implies 1 <= #[trigger] self.free_list@[kk] <= self.frames@.len() by {
                assert(mid.free_list@[kk] == self.free_list@[kk]);
            }
            assert forall|kk: int| 0 <= kk < self.free_list@.len() implies self.frames@[#[trigger] self.free_list@[kk] - 1].rel is None by {
                assert(mid.free_list@[kk] == self.free_list@[kk]);
                assert(mid.frames@[mid.free_list@[kk] - 1].rel is None);
            }
            assert forall|j: int| 0 <= j < self.frames@.len() implies #[trigger] self.frame_ok(j) by {
                assert(mid.frame_ok(j));
            }
            assert(self.wf_except(b as int));
            assert(self.frames == mid.frames && self.smgr == mid.smgr);
            mid.lemma_wf_facts();
            assert forall|l: RelLocator| #[trigger] self.rel_pages(l) == old_s.rel_pages(l) by {
                assert forall|k: int| 0 <= k < self.disk(l).len() implies self.rel_pages(l)[k] == mid.rel_pages(l)[k] by {
                    let u = BufferTag::of((k + 1) as u32, l);
                    if self.is_cached(u) {
                        let c = self.buffer_of(u);
                        assert(self.holds(c, u));
                        assert(mid.holds(c, u));
                        mid.lemma_holds_unique(c, u);
                        self.lemma_holds_unique_except(b as int, c, u);
                    } else if mid.is_cached(u) {
                        let c = mid.buffer_of(u);
                        assert(mid.holds(c, u));
                        assert(self.holds(c, u));
                    }
                }
                assert(self.rel_pages(l) =~= mid.rel_pages(l));
                assert(mid.rel_pages(l) == old_s.rel_pages(l));
            }
            assert forall|c: int| old_s.valid_buffer(c) && c != b implies #[trigger] self.resident(c) == old_s.resident(c)
                && self.tag_of(c) == old_s.tag_of(c) && self.pins(c) == old_s.pins(c)
                && self.dirty(c) == old_s.dirty(c) && self.frame_page(c) == old_s.frame_page(c) by {
                assert(mid.resident(c) == old_s.resident(c));
                assert(self.resident(c) == mid.resident(c));
            }
            if !from_free {
                assert(self.free_list@ =~= old_s.free_list@);
                assert(mid.free_list@ == old_s.free_list@.push(v));
                assert(b == v);
                if old_s.dirty(b as int) {
                    assert forall|loc: RelLocator| #[trigger] self.disk(loc) == if loc == old_s.tag_of(b as int).locator() {
                        old_s.disk(loc).update(old_s.tag_of(b as int).page_number - 1, old_s.frame_page(b as int))
                    } else {
                        old_s.disk(loc)
                    } by {
                        assert(self.disk(loc) == mid.disk(loc));
                    }
                } else {
                    assert forall|loc: RelLocator| #[trigger] self.disk(loc) == old_s.disk(loc) by {
                        assert(self.disk(loc) == mid.disk(loc));
                    }
                }
            } else {
                assert forall|loc: RelLocator| #[trigger] self.disk(loc) == old_s.disk(loc) by {
                    assert(self.disk(loc) == mid.disk(loc));
                }
            }
            assert forall|c: int| old_s.valid_buffer(c) && c != b implies #[trigger] self.resident(c) == old_s.resident(c)
                && self.tag_of(c) == old_s.tag_of(c) && self.pins(c) == old_s.pins(c)
                && self.dirty(c) == old_s.dirty(c) && self.frame_page(c) == old_s.frame_page(c) by {
                assert(mid.resident(c) == old_s.resident(c));
            }
        }
        Ok((b, from_free))
    }

    /// Returns a pinned frame holding block `page_number` of `loc`. On a hit the
    /// frame is pinned once more. Otherwise a frame is taken from the free list
    /// or, when it is empty, the least recently unpinned frame is evicted
    /// (written back first when dirty), and the block is read into it.
    /// Fails, the pool unchanged, with `ShortRead` when the relation has no
    /// such block, with `PinOverflow` when the frame's pin count is full, and
    /// with `NoFreeBuffer` when the block must be read and every frame is pinned.
    pub fn fetch_buffer(&mut self, loc: RelLocator, page_number: u32) -> (r: Result<Buffer, Error>)
        requires
            old(self).wf(),
        ensures
            final(self).wf(),
            final(self).same_contents(old(self)),
            final(self).capacity() == old(self).capacity(),
            !old(self).is_cached(BufferTag::of(page_number, loc))
                && old(self).free_frames().len() == 0 && old(self).lru_order().len() == 0
                ==> r == Err::<Buffer, Error>(Error::NoFreeBuffer),
            !(1 <= page_number <= old(self).disk(loc).len())
                && (old(self).free_frames().len() > 0 || old(self).lru_order().len() > 0)
                ==> r == Err::<Buffer, Error>(Error::ShortRead),
            old(self).is_cached(BufferTag::of(page_number, loc))
                && old(self).pins(old(self).buffer_of(BufferTag::of(page_number, loc))) >= usize::MAX
                ==> r == Err::<Buffer, Error>(Error::PinOverflow),
            r is Err ==> *final(self) == *old(self),
            r matches Err(e) ==> e is NoFreeBuffer || e is ShortRead || e is PinOverflow,
            1 <= page_number <= old(self).disk(loc).len() && old(self).is_cached(BufferTag::of(page_number, loc))
                && old(self).pins(old(self).buffer_of(BufferTag::of(page_number, loc))) < usize::MAX ==> r is Ok,
            1 <= page_number <= old(self).disk(loc).len() && !old(self).is_cached(BufferTag::of(page_number, loc))
                && (old(self).free_frames().len() > 0 || old(self).lru_order().len() > 0) ==> r is Ok,
            r matches Ok(b) ==> final(self).pins(b as int) == old(self).pins(b as int) + 1
                && final(self).free_frames().len() + final(self).lru_order().len() + (if old(self).pins(b as int) == 0 { 1int } else { 0int })
                == old(self).free_frames().len() + old(self).lru_order().len(),
            r matches Ok(b) ==> final(self).holds(b as int, BufferTag::of(page_number, loc))
                && final(self).frame_page(b as int) == old(self).rel_pages(loc)[page_number - 1],
            r matches Ok(b) ==> forall|c: int| old(self).valid_buffer(c) && c != b ==> #[trigger] final(self).resident(c) == old(self).resident(c)
                && final(self).tag_of(c) == old(self).tag_of(c) && final(self).pins(c) == old(self).pins(c)
                && final(self).dirty(c) == old(self).dirty(c) && final(self).frame_page(c) == old(self).frame_page(c),
            r matches Ok(b) ==> (old(self).is_cached(BufferTag::of(page_number, loc)) ==> {
                &&& b == old(self).buffer_of(BufferTag::of(page_number, loc))
                &&& final(self).pins(b as int) == old(self).pins(b as int) + 1
                &&& final(self).dirty(b as int) == old(self).dirty(b as int)
                &&& forall|l: RelLocator| #[trigger] final(self).disk(l) == old(self).disk(l)
                &&& final(self).free_frames() == old(self).free_frames()
                &&& old(self).pins(b as int) > 0 ==> final(self).lru_order() == old(self).lru_order()
                &&& old(self).pins(b as int) == 0 ==> exists|k: int| 0 <= k < old(self).lru_order().len()
                    && old(self).lru_order()[k] == b && final(self).lru_order() == old(self).lru_order().remove(k)
            }),
            r matches Ok(b) ==> (!old(self).is_cached(BufferTag::of(page_number, loc)) ==> final(self).pins(b as int) == 1
                && !final(self).dirty(b as int)),
            r matches Ok(b) ==> (!old(self).is_cached(BufferTag::of(page_number, loc)) && old(self).free_frames().len() > 0 ==> {
                &&& b == old(self).free_frames().last()
                &&& final(self).free_frames() == old(self).free_frames().drop_last()
                &&& final(self).lru_order() == old(self).lru_order()
                &&& forall|l: RelLocator| #[trigger] final(self).disk(l) == old(self).disk(l)
            }),
            r matches Ok(b) ==> (!old(self).is_cached(BufferTag::of(page_number, loc)) && old(self).free_frames().len() == 0 ==> {
                &&& b == old(self).lru_order()[0]
                &&& final(self).free_frames() == old(self).free_frames()
                &&& final(self).lru_order() == old(self).lru_order().subrange(1, old(self).lru_order().len() as int)
            }),
            r matches Ok(b) ==> (!old(self).is_cached(BufferTag::of(page_number, loc)) && old(self).free_frames().len() == 0
                && !old(self).dirty(b as int) ==> forall|l: RelLocator| #[trigger] final(self).disk(l) == old(self).disk(l)),
            r matches Ok(b) ==> (!old(self).is_cached(BufferTag::of(page_number, loc)) && old(self).free_frames().len() == 0
                && old(self).dirty(b as int) ==> forall|l: RelLocator| #[trigger] final(self).disk(l) == if l == old(self).tag_of(b as int).locator() {
                    old(self).disk(l).update(old(self).tag_of(b as int).page_number - 1, old(self).frame_page(b as int))
                } else {
                    old(self).disk(l)
                }),
    {
        let ghost old_s = *self;
        let t = BufferTag::new(page_number, loc);
        let r = match self.lookup(t) {
            Some(b) => {
                proof {
                    self.lemma_holds_unique(b as int, t);
                    self.lemma_wf_facts();
                    assert(1 <= page_number <= self.disk(loc).len());
                }
                if self.frames[b - 1].refcount == usize::MAX {
                    Err(Error::PinOverflow)
                } else {
                self.pin_buffer(b);
                assert forall|c: int| old_s.valid_buffer(c) && c != b implies #[trigger] self.resident(c) == old_s.resident(c)
                    && self.tag_of(c) == old_s.tag_of(c) && self.pins(c) == old_s.pins(c)
                    && self.dirty(c) == old_s.dirty(c) && self.frame_page(c) == old_s.frame_page(c) by {
                    assert(self.resident(c) == old_s.resident(c));
                    assert(self.tag_of(c) == old_s.tag_of(c));
                    assert(self.pins(c) == old_s.pins(c));
                    assert(self.dirty(c) == old_s.dirty(c));
                }
                Ok(b)
                }
            },
            None => {
                let size = self.smgr.size(loc);
                if self.free_list.len() == 0 && self.lru.len() == 0 {
                    return Err(Error::NoFreeBuffer);
                }
                if page_number == 0 || page_number > size {
                    return Err(Error::ShortRead);
                }
                match self.new_free_buffer() {
                    Err(e) => Err(e),
                    Ok((b, from_free)) => {
                let ghost mid = *self;
                proof {
                    assert forall|c: int| !#[trigger] mid.holds(c, t) by {
                        if mid.holds(c, t) {
                            assert(c != b);
                            assert(mid.resident(c) == old_s.resident(c));
                            assert(old_s.holds(c, t));
                        }
                    }
                    if !from_free && old_s.dirty(b as int) {
                        let vt = old_s.tag_of(b as int);
                        assert(mid.disk(loc) == if loc == vt.locator() {
                            old_s.disk(loc).update(vt.page_number - 1, old_s.frame_page(b as int))
                        } else {
                            old_s.disk(loc)
                        });
                        if loc == vt.locator() {
                            assert(old_s.frame_ok(b - 1));
                            assert(1 <= vt.page_number <= old_s.disk(loc).len());
                            assert(mid.disk(loc) == old_s.disk(loc).update(vt.page_number - 1, old_s.frame_page(b as int)));
                        }
                    } else if !from_free {
                        assert(mid.disk(loc) == old_s.disk(loc));
                    } else {
                        assert(mid.disk(loc) == old_s.disk(loc));
                    }
                    assert(mid.disk(loc).len() == old_s.disk(loc).len());
                }
                self.bind_frame(b, loc, page_number);
                proof {
                    assert(mid.rel_pages(loc) == old_s.rel_pages(loc));
                    assert forall|l: RelLocator| #[trigger] self.rel_pages(l) == old_s.rel_pages(l) by {
                        assert(mid.rel_pages(l) == old_s.rel_pages(l));
                    }
                    assert forall|c: int| old_s.valid_buffer(c) && c != b implies #[trigger] self.resident(c) == old_s.resident(c)
                        && self.tag_of(c) == old_s.tag_of(c) && self.pins(c) == old_s.pins(c)
                        && self.dirty(c) == old_s.dirty(c) && self.frame_page(c) == old_s.frame_page(c) by {
                        assert(mid.valid_buffer(c));
                        assert(mid.resident(c) == old_s.resident(c));
                        assert(self.resident(c) == mid.resident(c));
                    }
                    if !from_free && old_s.dirty(b as int) {
                        let vt = old_s.tag_of(b as int);
                        assert forall|l: RelLocator| #[trigger] self.disk(l) == if l == vt.locator() {
                            old_s.disk(l).update(vt.page_number - 1, old_s.frame_page(b as int))
                        } else {
                            old_s.disk(l)
                        } by {
                            assert(self.disk(l) == mid.disk(l));
                        }
                    }
                }
                Ok(b)
                    },
                }
            },
        };
        proof {
            if r is Ok {
                let b = r->Ok_0;
                assert(old_s.valid_buffer(b as int));
                if !old_s.is_cached(t) {
                    if old_s.free_list@.len() > 0 {
                        let w = old_s.free_list@.len() - 1;
                        assert(old_s.frames@[old_s.free_list@[w] - 1].rel is None);
                        assert(old_s.frame_ok(b - 1));
                    } else {
                        assert(old_s.frames@[old_s.lru@[0] - 1].refcount == 0);
                    }
                } else if old_s.pins(b as int) > 0 {
                    assert(self.lru_order() == old_s.lru_order());
                }
                assert forall|c: int| old_s.valid_buffer(c) && c != b implies #[trigger] self.resident(c) == old_s.resident(c)
                    && self.tag_of(c) == old_s.tag_of(c) && self.pins(c) == old_s.pins(c)
                    && self.dirty(c) == old_s.dirty(c) && self.frame_page(c) == old_s.frame_page(c) by {
                    assert(self.resident(c) == old_s.resident(c));
                    assert(self.tag_of(c) == old_s.tag_of(c));
                    assert(self.pins(c) == old_s.pins(c));
                    assert(self.dirty(c) == old_s.dirty(c));
                }
            }
        }
        r
    }

    /// Replacing the bytes of a pinned frame, marked dirty, changes exactly its block.
    proof fn lemma_page_replaced(old_s: BufferPool, new_s: BufferPool, b: int)
        requires
            old_s.wf(),
            old_s.valid_buffer(b),
            old_s.resident(b),
            new_s.smgr == old_s.smgr,
            new_s.lru == old_s.lru,
            new_s.free_list == old_s.free_list,
            new_s.frames@.len() == old_s.frames@.len(),
            new_s.frames@[b - 1].page@.len() == PAGE_SIZE,
            new_s.frames@[b - 1].is_dirty,
            new_s.frames@[b - 1].id == old_s.frames@[b - 1].id,
            new_s.frames@[b - 1].tag == old_s.frames@[b - 1].tag,
            new_s.frames@[b - 1].rel == old_s.frames@[b - 1].rel,
            new_s.frames@[b - 1].refcount == old_s.frames@[b - 1].refcount,
            forall|j: int| 0 <= j < old_s.frames@.len() && j != b - 1 ==> new_s.frames@[j] == old_s.frames@[j],
        ensures
            new_s.wf(),
            forall|l: RelLocator| #[trigger] new_s.rel_pages(l) == if l == old_s.tag_of(b).locator() {
                old_s.rel_pages(l).update(old_s.tag_of(b).page_number - 1, new_s.frame_page(b))
            } else {
                old_s.rel_pages(l)
            },
    {
        let t = old_s.tag_of(b);
        assert forall|j: int| 0 <= j < new_s.frames@.len() implies #[trigger] new_s.frame_ok(j) by {
            assert(old_s.frame_ok(j));
        }
        assert forall|x: int, y: int|
            0 <= x < new_s.frames@.len() && 0 <= y < new_s.frames@.len() && x != y
                && new_s.frames@[x].rel is Some && new_s.frames@[y].rel is Some
                implies new_s.frames@[x].tag != new_s.frames@[y].tag by {
            assert(old_s.frames@[x].tag != old_s.frames@[y].tag);
        }
        assert forall|kk: int| 0 <= kk < new_s.lru@.len() implies new_s.frames@[#[trigger] new_s.lru@[kk] - 1].rel is Some
            && new_s.frames@[new_s.lru@[kk] - 1].refcount == 0 by {
            assert(old_s.frames@[old_s.lru@[kk] - 1].refcount == 0);
        }
        assert forall|j: int| 0 <= j < new_s.frames@.len() && #[trigger] new_s.frames@[j].rel is Some
            && new_s.frames@[j].refcount == 0 implies new_s.lru@.contains((j + 1) as usize) by {
            assert(old_s.frames@[j].rel is Some);
        }
        assert forall|kk: int| 0 <= kk < new_s.free_list@.len() implies new_s.frames@[#[trigger] new_s.free_list@[kk] - 1].rel is None by {
            assert(old_s.frames@[old_s.free_list@[kk] - 1].rel is None);
        }
        assert forall|j: int| 0 <= j < new_s.frames@.len() && #[trigger] new_s.frames@[j].rel is None implies new_s.free_list@.contains((j + 1) as usize) by {
            assert(old_s.frames@[j].rel is None);
        }
        assert(new_s.wf());
        new_s.lemma_wf_facts();
        old_s.lemma_wf_facts();
        assert(old_s.holds(b, t));
        assert(new_s.holds(b, t));
        assert forall|l: RelLocator| #[trigger] new_s.rel_pages(l) == if l == t.locator() {
            old_s.rel_pages(l).update(t.page_number - 1, new_s.frame_page(b))
        } else {
            old_s.rel_pages(l)
        } by {
            let want = if l == t.locator() {
                old_s.rel_pages(l).update(t.page_number - 1, new_s.frame_page(b))
            } else {
                old_s.rel_pages(l)
            };
            assert forall|k: int| 0 <= k < new_s.disk(l).len() implies new_s.rel_pages(l)[k] == want[k] by {
                let u = BufferTag::of((k + 1) as u32, l);
                if u == t {
                    new_s.lemma_holds_unique(b, t);
                } else if new_s.is_cached(u) {
                    let c = new_s.buffer_of(u);
                    assert(c != b);
                    assert(old_s.holds(c, u));
                    old_s.lemma_holds_unique(c, u);
                    new_s.lemma_holds_unique(c, u);
                } else if old_s.is_cached(u) {
                    let c = old_s.buffer_of(u);
                    assert(new_s.holds(c, u));
                }
            }
            assert(new_s.rel_pages(l) =~= want);
        }
    }

    /// Adds `item` to the page held by the pinned frame `b` (see
    /// `page_add_item`) and marks the frame dirty. Fails with `InvalidBuffer`
    /// when `b` names no pinned frame, and with the page's own error when the
    /// item does not fit or the header is corrupt; the pool is then unchanged.
    pub fn add_item(&mut self, b: Buffer, item: &Vec<u8>) -> (r: Result<(), Error>)
        requires
            old(self).wf(),
        ensures
            final(self).wf(),
            final(self).capacity() == old(self).capacity(),
            forall|l: RelLocator| #[trigger] final(self).disk(l) == old(self).disk(l),
            final(self).lru_order() == old(self).lru_order(),
            final(self).free_frames() == old(self).free_frames(),
            !(old(self).valid_buffer(b as int) && old(self).resident(b as int) && old(self).pins(b as int) > 0)
                ==> r == Err::<(), Error>(Error::InvalidBuffer),
            old(self).valid_buffer(b as int) && old(self).resident(b as int) && old(self).pins(b as int) > 0 ==> {
                let p = old(self).frame_page(b as int);
                &&& !crate::page::header_ok(p) ==> r == Err::<(), Error>(Error::PageCorruption)
                &&& crate::page::header_ok(p) && crate::page::free_space(p) < item@.len() + crate::page::ITEM_ID_SIZE
                    ==> r == Err::<(), Error>(Error::NoRoomOnPage)
                &&& crate::page::header_ok(p) && crate::page::free_space(p) >= item@.len() + crate::page::ITEM_ID_SIZE
                    ==> r is Ok
            },
            r is Err ==> *final(self) == *old(self),
            r is Ok ==> {
                let t = old(self).tag_of(b as int);
                &&& crate::page::item_added(old(self).frame_page(b as int), item@, final(self).frame_page(b as int))
                &&& final(self).dirty(b as int)
                &&& final(self).holds(b as int, t)
                &&& final(self).pins(b as int) == old(self).pins(b as int)
                &&& forall|c: int| old(self).valid_buffer(c) && c != b ==> #[trigger] final(self).resident(c) == old(self).resident(c)
                    && final(self).tag_of(c) == old(self).tag_of(c) && final(self).pins(c) == old(self).pins(c)
                    && final(self).dirty(c) == old(self).dirty(c) && final(self).frame_page(c) == old(self).frame_page(c)
                &&& forall|l: RelLocator| #[trigger] final(self).rel_pages(l) == if l == t.locator() {
                    old(self).rel_pages(l).update(t.page_number - 1, final(self).frame_page(b as int))
                } else {
                    old(self).rel_pages(l)
                }
            },
    {
        if b == 0 || b > self.frames.len() {
            return Err(Error::InvalidBuffer);
        }
        let i = b - 1;
        if self.frames[i].rel.is_none() || self.frames[i].refcount == 0 {
            return Err(Error::InvalidBuffer);
        }
        let ghost old_s = *self;
        assert(self.frame_ok(i as int));
        match crate::page::page_free_space(&self.frames[i].page) {
            None => {
                return Err(Error::PageCorruption);
            },
            Some(f) => {
                if item.len() > f || f - item.len() < crate::page::ITEM_ID_SIZE {
                    return Err(Error::NoRoomOnPage);
                }
            },
        }
        let res = crate::page::page_add_item(&mut self.frames[i].page, item);
        assert(res is Ok);
        self.frames[i].is_dirty = true;
        proof {
            Self::lemma_page_replaced(old_s, *self, b as int);
        }
        Ok(())
    }

    proof fn lemma_extended(old_s: BufferPool, new_s: BufferPool, loc: RelLocator)
        requires
            old_s.wf(),
            new_s.smgr.wf(),
            new_s.frames == old_s.frames,
            new_s.lru == old_s.lru,
            new_s.free_list == old_s.free_list,
            forall|l: RelLocator| #[trigger] new_s.smgr.file(l) == if l == loc {
                old_s.smgr.file(l).push(Seq::new(PAGE_SIZE as nat, |j: int| 0u8))
            } else {
                old_s.smgr.file(l)
            },
        ensures
            new_s.wf(),
            forall|l: RelLocator| #[trigger] new_s.rel_pages(l) == if l == loc {
                old_s.rel_pages(l).push(Seq::new(PAGE_SIZE as nat, |j: int| 0u8))
            } else {
                old_s.rel_pages(l)
            },
            forall|c: int| #[trigger] new_s.resident(c) == old_s.resident(c),
    {
        assert forall|j: int| 0 <= j < new_s.frames@.len() implies #[trigger] new_s.frame_ok(j) by {
            assert(old_s.frame_ok(j));
            let f = old_s.frames@[j];
            if f.rel is Some {
                assert(new_s.smgr.file(f.tag.locator())[f.tag.page_number - 1] == old_s.smgr.file(f.tag.locator())[f.tag.page_number - 1]);
            }
        }
        assert(new_s.wf());
        new_s.lemma_wf_facts();
        old_s.lemma_wf_facts();
        assert forall|l: RelLocator| #[trigger] new_s.rel_pages(l) == if l == loc {
            old_s.rel_pages(l).push(Seq::new(PAGE_SIZE as nat, |j: int| 0u8))
        } else {
            old_s.rel_pages(l)
        } by {
            let want = if l == loc {
                old_s.rel_pages(l).push(Seq::new(PAGE_SIZE as nat, |j: int| 0u8))
            } else {
                old_s.rel_pages(l)
            };
            assert forall|k: int| 0 <= k < new_s.disk(l).len() implies new_s.rel_pages(l)[k] == want[k] by {
                let u = BufferTag::of((k + 1) as u32, l);
                assert(forall|c: int| #[trigger] new_s.holds(c, u) == old_s.holds(c, u));
                if new_s.is_cached(u) {
                    let c = new_s.buffer_of(u);
                    assert(old_s.holds(c, u));
                    old_s.lemma_holds_unique(c, u);
                    new_s.lemma_holds_unique(c, u);
                    assert(k < old_s.disk(l).len());
                } else if old_s.is_cached(u) {
                    let c = old_s.buffer_of(u);
                    assert(old_s.holds(c, u));
                    assert(new_s.holds(c, u));
                }
            }
            assert(new_s.rel_pages(l) =~= want);
        }
    }

    /// Appends a zeroed block to the relation and returns a pinned frame
    /// holding it. Fails, the pool unchanged, with `NoFreeBuffer` when every
    /// frame holding a block is pinned and none is free, and with
    /// `RelationTooLarge` when the relation cannot grow.
    pub fn alloc_buffer(&mut self, loc: RelLocator) -> (r: Result<Buffer, Error>)
        requires
            old(self).wf(),
        ensures
            final(self).wf(),
            final(self).capacity() == old(self).capacity(),
            old(self).free_frames().len() == 0 && old(self).lru_order().len() == 0 ==> r == Err::<Buffer, Error>(Error::NoFreeBuffer),
            (old(self).free_frames().len() > 0 || old(self).lru_order().len() > 0) && old(self).disk(loc).len() >= crate::storage::MAX_PAGES
                ==> r == Err::<Buffer, Error>(Error::RelationTooLarge),
            (old(self).free_frames().len() > 0 || old(self).lru_order().len() > 0) && old(self).disk(loc).len() < crate::storage::MAX_PAGES
                ==> r is Ok,
            r is Err ==> *final(self) == *old(self),
            r matches Err(e) ==> e is NoFreeBuffer || e is RelationTooLarge,
            r matches Ok(b) ==> final(self).pins(b as int) == old(self).pins(b as int) + 1
                && final(self).free_frames().len() + final(self).lru_order().len() + (if old(self).pins(b as int) == 0 { 1int } else { 0int })
                == old(self).free_frames().len() + old(self).lru_order().len(),
            r matches Ok(b) ==> forall|c: int| old(self).valid_buffer(c) && c != b ==> #[trigger] final(self).pins(c) == old(self).pins(c),
            r matches Ok(b) ==> final(self).holds(b as int, BufferTag::of((old(self).disk(loc).len() + 1) as u32, loc))
                && final(self).pins(b as int) == 1
                && !final(self).dirty(b as int)
                && final(self).frame_page(b as int) == Seq::new(PAGE_SIZE as nat, |j: int| 0u8),
            r is Ok ==> forall|l: RelLocator| #[trigger] final(self).rel_pages(l) == if l == loc {
                old(self).rel_pages(l).push(Seq::new(PAGE_SIZE as nat, |j: int| 0u8))
            } else {
                old(self).rel_pages(l)
            },
    {
        if self.free_list.len() == 0 && self.lru.len() == 0 {
            return Err(Error::NoFreeBuffer);
        }
        if self.smgr.size(loc) >= crate::storage::MAX_PAGES {
            return Err(Error::RelationTooLarge);
        }
        let ghost old_s = *self;
        let n = match self.smgr.extend(loc) {
            Ok(n) => n,
            Err(e) => {
                assert(false);
                return Err(e);
            },
        };
        let ghost mid = *self;
        proof {
            Self::lemma_extended(old_s, mid, loc);
            assert(!mid.is_cached(BufferTag::of(n, loc))) by {
                if mid.is_cached(BufferTag::of(n, loc)) {
                    let c = mid.buffer_of(BufferTag::of(n, loc));
                    assert(old_s.holds(c, BufferTag::of(n, loc)));
                    old_s.lemma_wf_facts();
                }
            }
            mid.lemma_wf_facts();
        }
        let r = self.fetch_buffer(loc, n);
        proof {
            assert(r is Ok);
            let b = r->Ok_0;
            assert forall|c: int| old_s.valid_buffer(c) && c != b implies #[trigger] self.pins(c) == old_s.pins(c) by {
                assert(mid.valid_buffer(c));
                assert(self.resident(c) == mid.resident(c));
                assert(self.pins(c) == mid.pins(c));
            }
            assert forall|l: RelLocator| #[trigger] self.rel_pages(l) == if l == loc {
                old_s.rel_pages(l).push(Seq::new(PAGE_SIZE as nat, |j: int| 0u8))
            } else {
                old_s.rel_pages(l)
            } by {
                assert(self.rel_pages(l) == mid.rel_pages(l));
            }
        }
        r
    }

    /// Number of pages of the relation.
    pub fn size_of_relation(&self, loc: RelLocator) -> (r: u32)
        requires
            self.wf(),
        ensures
            r as int == self.disk(loc).len(),
            r as int == self.rel_pages(loc).len(),
    {
        self.smgr.size(loc)
    }

    /// Writes every dirty frame to disk; afterwards every block held by a
    /// frame equals its copy on disk.
    pub fn flush_all_buffers(&mut self) -> (r: Result<(), Error>)
        requires
            old(self).wf(),
        ensures
            final(self).wf(),
            r is Ok,
            final(self).same_contents(old(self)),
            final(self).capacity() == old(self).capacity(),
            final(self).lru_order() == old(self).lru_order(),
            final(self).free_frames() == old(self).free_frames(),
            forall|c: int| old(self).valid_buffer(c) ==> #[trigger] final(self).resident(c) == old(self).resident(c)
                && final(self).tag_of(c) == old(self).tag_of(c) && final(self).pins(c) == old(self).pins(c)
                && final(self).frame_page(c) == old(self).frame_page(c),
            forall|c: int| #[trigger] final(self).valid_buffer(c) && final(self).resident(c) ==> !final(self).dirty(c)
                && final(self).disk(final(self).tag_of(c).locator())[final(self).tag_of(c).page_number - 1]
                == final(self).frame_page(c),
    {
        let ghost old_s = *self;
        let mut i: usize = 0;
        while i < self.frames.len()
            invariant
                self.wf(),
                i <= self.frames@.len(),
                self.same_contents(&old_s),
                self.capacity() == old_s.capacity(),
                self.lru_order() == old_s.lru_order(),
                self.free_frames() == old_s.free_frames(),
                forall|c: int| old_s.valid_buffer(c) ==> #[trigger] self.resident(c) == old_s.resident(c)
                    && self.tag_of(c) == old_s.tag_of(c) && self.pins(c) == old_s.pins(c)
                    && self.frame_page(c) == old_s.frame_page(c),
                forall|c: int| 1 <= c <= i && #[trigger] self.resident(c) ==> !self.dirty(c),
            decreases self.frames@.len() - i,
        {
            if self.frames[i].rel.is_some() && self.frames[i].is_dirty {
                let ghost before = *self;
                let f = self.flush_buffer(i + 1);
                assert(f is Ok);
                assert forall|l: RelLocator| #[trigger] self.rel_pages(l) == old_s.rel_pages(l) by {
                    assert(self.rel_pages(l) == before.rel_pages(l));
                }
                assert forall|c: int| old_s.valid_buffer(c) implies #[trigger] self.resident(c) == old_s.resident(c)
                    && self.tag_of(c) == old_s.tag_of(c) && self.pins(c) == old_s.pins(c)
                    && self.frame_page(c) == old_s.frame_page(c) by {
                    assert(before.valid_buffer(c));
                }
                assert forall|c: int| 1 <= c <= i + 1 && #[trigger] self.resident(c) implies !self.dirty(c) by {
                    assert(before.valid_buffer(c));
                }
            }
            i = i + 1;
        }
        proof {
            assert forall|c: int| #[trigger] self.valid_buffer(c) && self.resident(c) implies !self.dirty(c)
                && self.disk(self.tag_of(c).locator())[self.tag_of(c).page_number - 1] == self.frame_page(c) by {
                assert(self.frame_ok(c - 1));
            }
        }
        Ok(())
    }

    /// A copy of the bytes of frame `b`. Fails with `InvalidBuffer` when `b`
    /// names no frame or its frame holds no block.
    pub fn get_page(&self, b: Buffer) -> (r: Result<BufferPage, Error>)
        requires
            self.wf(),
        ensures
            (self.valid_buffer(b as int) && self.resident(b as int)) <==> r is Ok,
            r matches Ok(p) ==> p@ == self.frame_page(b as int) && p@ == self.rel_pages(self.tag_of(b as int).locator())[self.tag_of(b as int).page_number - 1],
            r matches Err(e) ==> e == Error::InvalidBuffer,
    {
        if b == 0 || b > self.frames.len() || self.frames[b - 1].rel.is_none() {
            return Err(Error::InvalidBuffer);
        }
        proof {
            self.lemma_wf_facts();
            assert(self.holds(b as int, self.tag_of(b as int)));
        }
        Ok(BufferPage { data: self.frames[b - 1].page.clone() })
    }

    /// The storage manager under the pool.
    pub fn storage(&self) -> (r: &StorageManager)
        ensures
            forall|l: RelLocator| #[trigger] r.file(l) == self.disk(l),
            self.wf() ==> r.wf(),
    {
        &self.smgr
    }

    /// The tag of the block held by frame `b`, if it holds one.
    pub fn buffer_tag(&self, b: Buffer) -> (r: Option<BufferTag>)
        ensures
            (self.valid_buffer(b as int) && self.resident(b as int)) <==> r is Some,
            r matches Some(t) ==> t == self.tag_of(b as int),
    {
        if b == 0 || b > self.frames.len() || self.frames[b - 1].rel.is_none() {
            None
        } else {
            Some(self.frames[b - 1].tag)
        }
    }

    /// Pin count of frame `b`; zero for an id that names no frame.
    pub fn pin_count(&self, b: Buffer) -> (r: usize)
        ensures
            self.valid_buffer(b as int) ==> r == self.pins(b as int),
            !self.valid_buffer(b as int) ==> r == 0,
    {
        if b == 0 || b > self.frames.len() {
            0
        } else {
            self.frames[b - 1].refcount
        }
    }

    /// Whether frame `b` is dirty; false for an id that names no frame.
    pub fn is_buffer_dirty(&self, b: Buffer) -> (r: bool)
        ensures
            self.valid_buffer(b as int) ==> r == self.dirty(b as int),
            !self.valid_buffer(b as int) ==> !r,
    {
        if b == 0 || b > self.frames.len() {
            false
        } else {
            self.frames[b - 1].is_dirty
        }
    }

    /// The unpinned frames holding a block, least recently unpinned first.
    pub fn lru_list(&self) -> (r: Vec<Buffer>)
        ensures
            r@ == self.lru_order(),
    {
        self.lru.clone()
    }

    /// Replaces the block held by the pinned frame `b` with `page` and marks
    /// the frame dirty. Fails with `InvalidBuffer` when `b` names no pinned
    /// frame and with `ShortWrite` when `page` is not one block long; the pool
    /// is then unchanged.
    pub fn write_page(&mut self, b: Buffer, page: &BufferPage) -> (r: Result<(), Error>)
        requires
            old(self).wf(),
        ensures
            final(self).wf(),
            final(self).same_pins(old(self)),
            final(self).lru_order() == old(self).lru_order(),
            final(self).free_frames() == old(self).free_frames(),
            forall|l: RelLocator| #[trigger] final(self).disk(l) == old(self).disk(l),
            !(old(self).valid_buffer(b as int) && old(self).resident(b as int) && old(self).pins(b as int) > 0)
                ==> r == Err::<(), Error>(Error::InvalidBuffer),
            old(self).valid_buffer(b as int) && old(self).resident(b as int) && old(self).pins(b as int) > 0
                && page@.len() != PAGE_SIZE ==> r == Err::<(), Error>(Error::ShortWrite),
            old(self).valid_buffer(b as int) && old(self).resident(b as int) && old(self).pins(b as int) > 0
                && page@.len() == PAGE_SIZE ==> r is Ok,
            r is Err ==> *final(self) == *old(self),
            r is Ok ==> {
                let t = old(self).tag_of(b as int);
                &&& final(self).frame_page(b as int) == page@
                &&& final(self).dirty(b as int)
                &&& final(self).holds(b as int, t)
                &&& forall|l: RelLocator| #[trigger] final(self).rel_pages(l) == if l == t.locator() {
                    old(self).rel_pages(l).update(t.page_number - 1, page@)
                } else {
                    old(self).rel_pages(l)
                }
            },
    {
        if b == 0 || b > self.frames.len() {
            return Err(Error::InvalidBuffer);
        }
        let i = b - 1;
        if self.frames[i].rel.is_none() || self.frames[i].refcount == 0 {
            return Err(Error::InvalidBuffer);
        }
        if page.data.len() != PAGE_SIZE {
            return Err(Error::ShortWrite);
        }
        let ghost old_s = *self;
        self.frames[i].page = page.data.clone();
        self.frames[i].is_dirty = true;
        proof {
            Self::lemma_page_replaced(old_s, *self, b as int);
        }
        Ok(())
    }
}

/// A copy of the bytes of one page.
pub struct BufferPage {
    data: Vec<u8>,
}

impl View for BufferPage {
    type V = Seq<u8>;

    closed spec fn view(&self) -> Seq<u8> {
        self.data@
    }
}

impl BufferPage {
    /// A page with the default header and no items.
    pub fn new_empty() -> (r: BufferPage)
        ensures
            r@ == crate::page::empty_page(),
    {
        BufferPage { data: crate::page::page_init() }
    }

    /// A page holding `data`.
    pub fn from_bytes(data: Vec<u8>) -> (r: BufferPage)
        ensures
            r@ == data@,
    {
        BufferPage { data }
    }

    /// The bytes of the page.
    pub fn as_bytes(&self) -> (r: &Vec<u8>)
        ensures
            r@ == self@,
    {
        &self.data
    }

    /// The bytes `start..end` of the page.
    pub fn slice(&self, start: usize, end: usize) -> (r: Vec<u8>)
        requires
            start <= end <= self@.len(),
        ensures
            r@ == self@.subrange(start as int, end as int),
    {
        crate::page::copy_range(&self.data, start, end)
    }

    /// A writer over a copy of the page, positioned at its start.
    pub fn writer(&self) -> (r: BufferPageWriter)
        ensures
            r.pos() == 0,
            r.page()@ == self@,
    {
        BufferPageWriter { pos: 0, page: BufferPage { data: self.data.clone() } }
    }
}

/// Writes bytes into a page at a position.
pub struct BufferPageWriter {
    pos: usize,
    page: BufferPage,
}

impl BufferPageWriter {
    pub closed spec fn pos(&self) -> nat {
        self.pos as nat
    }

    pub closed spec fn page(&self) -> BufferPage {
        self.page
    }

    /// Moves to `offset` and writes `buf` there, returning the number of bytes
    /// written. Fails with `ShortWrite`, the writer unchanged, when `offset`
    /// lies past the last byte of the page or `buf` does not fit after it.
    pub fn write_at(&mut self, buf: &[u8], offset: usize) -> (r: Result<usize, Error>)
        ensures
            (offset < old(self).page()@.len() && offset + buf@.len() <= old(self).page()@.len()) <==> r is Ok,
            r matches Err(e) ==> e == Error::ShortWrite && *final(self) == *old(self),
            r matches Ok(n) ==> n == buf@.len() && final(self).pos() == offset + buf@.len()
                && final(self).page()@ == old(self).page()@.subrange(0, offset as int) + buf@
                + old(self).page()@.subrange(offset + buf@.len(), old(self).page()@.len() as int),
    {
        let len = self.page.data.len();
        if offset >= len || buf.len() > len - offset {
            return Err(Error::ShortWrite);
        }
        let ghost old_p = self.page.data@;
        let mut k: usize = 0;
        while k < buf.len()
            invariant
                offset + buf@.len() <= len,
                len == old_p.len(),
                self.page.data@.len() == len,
                k <= buf@.len(),
                forall|j: int| 0 <= j < k ==> self.page.data@[offset + j] == buf@[j],
                forall|j: int| 0 <= j < len && !(offset <= j < offset + k) ==> self.page.data@[j] == old_p[j],
            decreases buf@.len() - k,
        {
            self.page.data.set(offset + k, buf[k]);
            k = k + 1;
        }
        self.pos = offset + buf.len();
        assert(self.page.data@ =~= old_p.subrange(0, offset as int) + buf@ + old_p.subrange(offset + buf@.len(), len as int));
        Ok(buf.len())
    }

    /// The page as written so far.
    pub fn into_page(self) -> (r: BufferPage)
        ensures
            r == self.page(),
    {
        self.page
    }
}

} // verus!
