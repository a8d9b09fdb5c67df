//! Storage manager: maps a relation locator to a file of fixed-size blocks.
//! Files are held as sequences of pages; loading them from and saving them to
//! a data directory is the caller's business.
use vstd::prelude::*;

use crate::page::{views, PAGE_SIZE};
use crate::Error;

verus! {

/// Largest number of pages a relation may hold.
pub const MAX_PAGES: u32 = 0x7fff_ffff;

/// Identifies the physical file of a relation.
#[derive(Debug, Clone, Copy, PartialEq, Eq, Structural)]
pub struct RelLocator {
    pub tablespace: u32,
    pub database: u32,
    pub oid: u32,
}

/// A relation: the identity of its file and its name.
#[derive(Debug, Clone, PartialEq, Eq)]
pub struct Relation {
    pub locator: RelLocator,
    /// Name, UTF-8.
    pub rel_name: Vec<u8>,
}

/// One relation file: its locator and its blocks, page 1 first.
pub struct RelFile {
    pub locator: RelLocator,
    pub pages: Vec<Vec<u8>>,
}

/// All relation files of a data directory.
pub struct StorageManager {
    files: Vec<RelFile>,
}

impl StorageManager {
    pub closed spec fn has_file(&self, loc: RelLocator) -> bool {
        exists|i: int| 0 <= i < self.files@.len() && #[trigger] self.files@[i].locator == loc
    }

    pub closed spec fn index_of(&self, loc: RelLocator) -> int {
        choose|i: int| 0 <= i < self.files@.len() && #[trigger] self.files@[i].locator == loc
    }

    /// Each relation file, as its sequence of pages.
    pub closed spec fn view(&self) -> Map<RelLocator, Seq<Seq<u8>>> {
        Map::new(
            |loc: RelLocator| self.has_file(loc),
            |loc: RelLocator| views(self.files@[self.index_of(loc)].pages@),
        )
    }

    /// The pages of a relation; a relation without a file has none.
    pub open spec fn file(&self, loc: RelLocator) -> Seq<Seq<u8>> {
        if self@.contains_key(loc) {
            self@[loc]
        } else {
            seq![]
        }
    }

    pub closed spec fn wf(&self) -> bool {
        &&& forall|i: int, j: int|
            0 <= i < j < self.files@.len() ==> self.files@[i].locator != self.files@[j].locator
        &&& forall|i: int|
            0 <= i < self.files@.len() ==> #[trigger] self.files@[i].pages@.len() <= MAX_PAGES
        &&& forall|i: int, k: int|
            0 <= i < self.files@.len() && 0 <= k < self.files@[i].pages@.len()
                ==> #[trigger] self.files@[i].pages@[k]@.len() == PAGE_SIZE
    }

    /// Every page of every file is a full block.
    pub open spec fn pages_full(&self) -> bool {
        forall|loc: RelLocator, k: int|
            0 <= k < self.file(loc).len() ==> #[trigger] self.file(loc)[k].len() == PAGE_SIZE
    }

    proof fn lemma_index(&self, loc: RelLocator, i: int)
        requires
            self.wf(),
            0 <= i < self.files@.len(),
            self.files@[i].locator == loc,
        ensures
            self.has_file(loc),
            self.index_of(loc) == i,
            self.file(loc) == views(self.files@[i].pages@),
    {
        assert(self.has_file(loc));
        let j = self.index_of(loc);
        assert(self.files@[j].locator == loc);
    }

    pub proof fn lemma_wf_facts(&self)
        requires
            self.wf(),
        ensures
            self.pages_full(),
            forall|loc: RelLocator| #[trigger] self.file(loc).len() <= MAX_PAGES,
    {
        assert forall|loc: RelLocator, k: int| 0 <= k < self.file(loc).len() implies #[trigger] self.file(
            loc,
        )[k].len() == PAGE_SIZE by {
            if self.has_file(loc) {
                self.lemma_index(loc, self.index_of(loc));
            }
        }
        assert forall|loc: RelLocator| #[trigger] self.file(loc).len() <= MAX_PAGES by {
            if self.has_file(loc) {
                self.lemma_index(loc, self.index_of(loc));
            }
        }
    }

    /// A storage manager with no files.
    pub fn new() -> (r: Self)
        ensures
            r.wf(),
            r@ == Map::<RelLocator, Seq<Seq<u8>>>::empty(),
    {
        let r = StorageManager { files: Vec::new() };
        assert(r@ =~= Map::<RelLocator, Seq<Seq<u8>>>::empty());
        r
    }

    fn find(&self, loc: RelLocator) -> (r: Option<usize>)
        requires
            self.wf(),
        ensures
            r matches Some(i) ==> i < self.files@.len() && self.files@[i as int].locator == loc
                && self.index_of(loc) == i && self.has_file(loc),
            r is None ==> !self.has_file(loc),
    {
        let mut i: usize = 0;
        while i < self.files.len()
            invariant
                self.wf(),
                i <= self.files@.len(),
                forall|j: int| 0 <= j < i ==> self.files@[j].locator != loc,
            decreases self.files@.len() - i,
        {
            if self.files[i].locator == loc {
                proof {
                    self.lemma_index(loc, i as int);
                }
                return Some(i);
            }
            i = i + 1;
        }
        None
    }

    /// Whether a file exists for the relation.
    pub fn has_relation(&self, loc: RelLocator) -> (r: bool)
        requires
            self.wf(),
        ensures
            r == self@.contains_key(loc),
    {
        self.find(loc).is_some()
    }

    /// Number of pages of the relation; zero when it has no file.
    pub fn size(&self, loc: RelLocator) -> (r: u32)
        requires
            self.wf(),
        ensures
            r as int == self.file(loc).len(),
    {
        match self.find(loc) {
            Some(i) => {
                proof {
                    self.lemma_index(loc, i as int);
                }
                self.files[i].pages.len() as u32
            },
            None => 0,
        }
    }

    /// Reads block `page_number` (1-based) of the relation.
    /// Fails with `ShortRead` when the file has no such block.
    pub fn read(&self, loc: RelLocator, page_number: u32) -> (r: Result<Vec<u8>, Error>)
        requires
            self.wf(),
        ensures
            (1 <= page_number <= self.file(loc).len()) <==> r is Ok,
            r matches Ok(p) ==> p@ == self.file(loc)[page_number - 1],
            r matches Err(e) ==> e == Error::ShortRead,
    {
        match self.find(loc) {
            Some(i) => {
                proof {
                    self.lemma_index(loc, i as int);
                }
                if page_number >= 1 && (page_number as usize) <= self.files[i].pages.len() {
                    Ok(self.files[i].pages[(page_number - 1) as usize].clone())
                } else {
                    Err(Error::ShortRead)
                }
            },
            None => Err(Error::ShortRead),
        }
    }

    /// Writes `data` as block `page_number` (1-based) of the relation.
    /// Fails with `ShortWrite`, the files unchanged, when the block does not
    /// exist or `data` is not one block long.
    pub fn write(&mut self, loc: RelLocator, page_number: u32, data: &Vec<u8>) -> (r: Result<
        (),
        Error,
    >)
        requires
            old(self).wf(),
        ensures
            final(self).wf(),
            (1 <= page_number <= old(self).file(loc).len() && data@.len() == PAGE_SIZE) <==> r is Ok,
            r is Ok ==> final(self)@ == old(self)@.insert(
                loc,
                old(self).file(loc).update(page_number - 1, data@),
            ),
            r matches Err(e) ==> e == Error::ShortWrite && final(self)@ == old(self)@,
    {
        match self.find(loc) {
            Some(i) => {
                proof {
                    self.lemma_index(loc, i as int);
                }
                if page_number >= 1 && (page_number as usize) <= self.files[i].pages.len()
                    && data.len() == PAGE_SIZE {
                    let ghost old_s = *self;
                    self.files[i].pages.set((page_number - 1) as usize, data.clone());
                    proof {
                        Self::lemma_set_file(old_s, *self, loc, i as int);
                        assert(views(self.files@[i as int].pages@) =~= old_s.file(loc).update(page_number - 1, data@));
                    }
                    Ok(())
                } else {
                    Err(Error::ShortWrite)
                }
            },
            None => Err(Error::ShortWrite),
        }
    }

    proof fn lemma_set_file(old_s: Self, new_s: Self, loc: RelLocator, i: int)
        requires
            old_s.wf(),
            0 <= i < old_s.files@.len(),
            old_s.files@[i].locator == loc,
            new_s.files@.len() == old_s.files@.len(),
            new_s.files@[i].locator == loc,
            new_s.files@[i].pages@.len() <= MAX_PAGES,
            forall|k: int| 0 <= k < new_s.files@[i].pages@.len() ==> #[trigger] new_s.files@[i].pages@[k]@.len() == PAGE_SIZE,
            forall|j: int| 0 <= j < old_s.files@.len() && j != i ==> new_s.files@[j] == old_s.files@[j],
        ensures
            new_s.wf(),
            new_s@ == old_s@.insert(loc, views(new_s.files@[i].pages@)),
    {
        assert forall|a: int, b: int| 0 <= a < b < new_s.files@.len() implies new_s.files@[a].locator != new_s.files@[b].locator by {
            assert(old_s.files@[a].locator != old_s.files@[b].locator);
        }
        assert(new_s.wf());
        new_s.lemma_index(loc, i);
        assert forall|l: RelLocator| #[trigger] new_s.has_file(l) == (old_s.has_file(l) || l == loc) by {
            if old_s.has_file(l) {
                let j = old_s.index_of(l);
                assert(new_s.files@[j].locator == l);
            }
            if new_s.has_file(l) {
                let j = new_s.index_of(l);
                assert(old_s.files@[j].locator == l);
            }
        }
        assert forall|l: RelLocator| l != loc && old_s.has_file(l) implies new_s@[l] == old_s@[l] by {
            let j = old_s.index_of(l);
            old_s.lemma_index(l, j);
            new_s.lemma_index(l, j);
        }
        assert(new_s@ =~= old_s@.insert(loc, views(new_s.files@[i].pages@)));
    }

    /// Appends one zeroed block to the relation, creating its file if needed,
    /// and returns the new block's page number.
    /// Fails with `RelationTooLarge`, the files unchanged, when the relation
    /// already holds `MAX_PAGES` pages.
    pub fn extend(&mut self, loc: RelLocator) -> (r: Result<u32, Error>)
        requires
            old(self).wf(),
        ensures
            final(self).wf(),
            old(self).file(loc).len() < MAX_PAGES <==> r is Ok,
            r matches Ok(n) ==> n == old(self).file(loc).len() + 1 && final(self)@ == old(self)@.insert(
                loc,
                old(self).file(loc).push(Seq::new(PAGE_SIZE as nat, |j: int| 0u8)),
            ),
            r matches Err(e) ==> e == Error::RelationTooLarge && final(self)@ == old(self)@,
    {
        let ghost zero = Seq::new(PAGE_SIZE as nat, |j: int| 0u8);
        let blank: Vec<u8> = vec![0u8; PAGE_SIZE];
        assert(blank@ =~= zero);
        let ghost old_s = *self;
        match self.find(loc) {
            Some(i) => {
                proof {
                    self.lemma_index(loc, i as int);
                }
                if self.files[i].pages.len() >= MAX_PAGES as usize {
                    return Err(Error::RelationTooLarge);
                }
                self.files[i].pages.push(blank);
                let n = self.files[i].pages.len() as u32;
                proof {
                    Self::lemma_set_file(old_s, *self, loc, i as int);
                    assert(views(self.files@[i as int].pages@) =~= old_s.file(loc).push(zero));
                }
                Ok(n)
            },
            None => {
                let mut pages: Vec<Vec<u8>> = Vec::new();
                pages.push(blank);
                self.files.push(RelFile { locator: loc, pages });
                proof {
                    let i = old_s.files@.len() as int;
                    assert forall|a: int, b: int| 0 <= a < b < self.files@.len() implies self.files@[a].locator != self.files@[b].locator by {
                        if b == i {
                            assert(old_s.files@[a].locator != loc);
                        } else {
                            assert(old_s.files@[a].locator != old_s.files@[b].locator);
                        }
                    }
                    assert(self.wf());
                    self.lemma_index(loc, i);
                    assert forall|l: RelLocator| #[trigger] self.has_file(l) == (old_s.has_file(l) || l == loc) by {
                        if old_s.has_file(l) {
                            let j = old_s.index_of(l);
                            assert(self.files@[j].locator == l);
                        }
                        if self.has_file(l) && l != loc {
                            let j = self.index_of(l);
                            assert(old_s.files@[j].locator == l);
                        }
                    }
                    assert forall|l: RelLocator| l != loc && old_s.has_file(l) implies self@[l] == old_s@[l] by {
                        let j = old_s.index_of(l);
                        old_s.lemma_index(l, j);
                        self.lemma_index(l, j);
                    }
                    assert(views(self.files@[i].pages@) =~= old_s.file(loc).push(zero));
                    assert(self@ =~= old_s@.insert(loc, old_s.file(loc).push(zero)));
                }
                Ok(1)
            },
        }
    }

    /// The locators of all files.
    pub fn locators(&self) -> (r: Vec<RelLocator>)
        requires
            self.wf(),
        ensures
            forall|l: RelLocator| #[trigger] self@.contains_key(l) <==> r@.contains(l),
    {
        let mut r: Vec<RelLocator> = Vec::new();
        let mut i: usize = 0;
        while i < self.files.len()
            invariant
                self.wf(),
                i <= self.files@.len(),
                r@.len() == i,
                forall|j: int| 0 <= j < i ==> r@[j] == self.files@[j].locator,
            decreases self.files@.len() - i,
        {
            r.push(self.files[i].locator);
            i = i + 1;
        }
        assert forall|l: RelLocator| #[trigger] self@.contains_key(l) <==> r@.contains(l) by {
            if self.has_file(l) {
                let j = self.index_of(l);
                assert(r@[j] == l);
            }
            if r@.contains(l) {
                let j = choose|j: int| 0 <= j < r@.len() && r@[j] == l;
                assert(self.files@[j].locator == l);
            }
        }
        r
    }

    /// The bytes of a relation's file: its blocks in order.
    pub fn file_bytes(&self, loc: RelLocator) -> (r: Vec<u8>)
        requires
            self.wf(),
        ensures
            r@.len() == self.file(loc).len() * PAGE_SIZE,
            forall|k: int, j: int| 0 <= k < self.file(loc).len() && 0 <= j < PAGE_SIZE ==> #[trigger] r@[k * PAGE_SIZE + j] == self.file(loc)[k][j],
    {
        let mut r: Vec<u8> = Vec::new();
        let n = self.size(loc);
        proof {
            self.lemma_wf_facts();
        }
        let mut k: u32 = 1;
        while k <= n
            invariant
                self.wf(),
                n as int == self.file(loc).len(),
                n <= MAX_PAGES,
                1 <= k <= n + 1,
                r@.len() == (k - 1) * PAGE_SIZE,
                self.pages_full(),
                forall|kk: int, j: int| 0 <= kk < k - 1 && 0 <= j < PAGE_SIZE ==> #[trigger] r@[kk * PAGE_SIZE + j] == self.file(loc)[kk][j],
            decreases n + 1 - k,
        {
            let page = match self.read(loc, k) {
                Ok(p) => p,
                Err(_) => {
                    assert(false);
                    return r;
                },
            };
            let ghost base = r@;
            let mut j: usize = 0;
            while j < page.len()
                invariant
                    page@.len() == PAGE_SIZE,
                    j <= PAGE_SIZE,
                    r@.len() == base.len() + j,
                    forall|x: int| 0 <= x < base.len() ==> r@[x] == base[x],
                    forall|x: int| 0 <= x < j ==> r@[base.len() + x] == page@[x],
                decreases PAGE_SIZE - j,
            {
                r.push(page[j]);
                j = j + 1;
            }
            proof {
                assert forall|kk: int, jj: int| 0 <= kk < k && 0 <= jj < PAGE_SIZE implies #[trigger] r@[kk * PAGE_SIZE + jj] == self.file(loc)[kk][jj] by {
                    if kk < k - 1 {
                        assert(kk * PAGE_SIZE + jj < (k - 1) * PAGE_SIZE) by (nonlinear_arith)
                            requires 0 <= kk < k - 1, 0 <= jj < PAGE_SIZE;
                        assert(r@[kk * PAGE_SIZE + jj] == base[kk * PAGE_SIZE + jj]);
                    } else {
                        assert(kk * PAGE_SIZE + jj == base.len() + jj);
                    }
                }
            }
            k = k + 1;
        }
        r
    }

    /// Replaces the relation's file with `data`, cut into blocks. Fails with
    /// `ShortRead`, the files unchanged, when `data` is not a whole number of
    /// blocks, and with `RelationTooLarge` when it holds more than `MAX_PAGES`.
    pub fn load_file(&mut self, loc: RelLocator, data: &Vec<u8>) -> (r: Result<(), Error>)
        requires
            old(self).wf(),
        ensures
            final(self).wf(),
            r is Err ==> final(self)@ == old(self)@,
            r is Ok ==> final(self).file(loc).len() * PAGE_SIZE == data@.len(),
            r is Ok ==> forall|k: int, j: int| 0 <= k < final(self).file(loc).len() && 0 <= j < PAGE_SIZE
                ==> #[trigger] final(self).file(loc)[k][j] == data@[k * PAGE_SIZE + j],
            r is Ok ==> forall|l: RelLocator| l != loc ==> #[trigger] final(self).file(l) == old(self).file(l),
            data@.len() % (PAGE_SIZE as nat) != 0 ==> r == Err::<(), Error>(Error::ShortRead),
            data@.len() % (PAGE_SIZE as nat) == 0 && data@.len() / (PAGE_SIZE as nat) > MAX_PAGES ==> r == Err::<(), Error>(Error::RelationTooLarge),
            data@.len() % (PAGE_SIZE as nat) == 0 && data@.len() / (PAGE_SIZE as nat) <= MAX_PAGES ==> r is Ok,
    {
        if data.len() % PAGE_SIZE != 0 {
            return Err(Error::ShortRead);
        }
        let n = data.len() / PAGE_SIZE;
        if n > MAX_PAGES as usize {
            return Err(Error::RelationTooLarge);
        }
        let mut pages: Vec<Vec<u8>> = Vec::new();
        let mut k: usize = 0;
        while k < n
            invariant
                n * PAGE_SIZE == data.len(),
                n <= MAX_PAGES,
                k <= n,
                pages@.len() == k,
                forall|kk: int| 0 <= kk < k ==> #[trigger] pages@[kk]@.len() == PAGE_SIZE,
                forall|kk: int, j: int| 0 <= kk < k && 0 <= j < PAGE_SIZE ==> #[trigger] pages@[kk]@[j] == data@[kk * PAGE_SIZE + j],
            decreases n - k,
        {
            proof {
                assert((k + 1) * PAGE_SIZE <= n * PAGE_SIZE) by (nonlinear_arith)
                    requires k + 1 <= n;
            }
            let page = crate::page::copy_range(data, k * PAGE_SIZE, (k + 1) * PAGE_SIZE);
            pages.push(page);
            k = k + 1;
        }
        let ghost old_s = *self;
        match self.find(loc) {
            Some(i) => {
                self.files[i].pages = pages;
                proof {
                    Self::lemma_set_file(old_s, *self, loc, i as int);
                    self.lemma_index(loc, i as int);
                    assert forall|l: RelLocator| l != loc implies #[trigger] self.file(l) == old_s.file(l) by {
                        assert(self@.contains_key(l) == old_s@.contains_key(l));
                    }
                }
            },
            None => {
                self.files.push(RelFile { locator: loc, pages: Vec::new() });
                let i = self.files.len() - 1;
                let ghost mid = *self;
                proof {
                    assert forall|a: int, b: int| 0 <= a < b < mid.files@.len() implies mid.files@[a].locator != mid.files@[b].locator by {
                        if b == i {
                            assert(old_s.files@[a].locator != loc);
                        } else {
                            assert(old_s.files@[a].locator != old_s.files@[b].locator);
                        }
                    }
                    assert(mid.wf());
                    assert forall|l: RelLocator| l != loc implies #[trigger] mid.file(l) == old_s.file(l) by {
                        if old_s.has_file(l) {
                            let j = old_s.index_of(l);
                            old_s.lemma_index(l, j);
                            mid.lemma_index(l, j);
                        } else {
                            if mid.has_file(l) {
                                let j = mid.index_of(l);
                                assert(old_s.files@[j].locator == l);
                            }
                        }
                    }
                }
                self.files[i].pages = pages;
                proof {
                    Self::lemma_set_file(mid, *self, loc, i as int);
                    self.lemma_index(loc, i as int);
                    assert forall|l: RelLocator| l != loc implies #[trigger] self.file(l) == old_s.file(l) by {
                        assert(self@.contains_key(l) == mid@.contains_key(l));
                        assert(mid.file(l) == old_s.file(l));
                    }
                }
            },
        }
        Ok(())
    }
}

} // verus!
