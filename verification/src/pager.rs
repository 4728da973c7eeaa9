//! Page cache and transaction management.
//!
//! A pager reads pages of the database file into a cache, keeps the pages
//! written in a transaction in the cache marked dirty, and writes the dirty
//! pages to the file when the transaction commits (or is synced). Page `p`
//! lies at bytes `(p - 1) * page_size .. p * page_size` of the file.

use vstd::prelude::*;

use crate::constants::{DATABASE_HEADER_SIZE, DEFAULT_PAGE_SIZE, PAGE_TYPE_LEAF_TABLE, ROOT_PAGE};
use crate::error::{is_sql_error, ResultCode, SqlliteError};
use crate::header::{decoded_header, encodes_header, header_ok, valid_page_size, DatabaseHeader};
use crate::io::{
    be_u16, keeps_prefix, lemma_overwrite_inside, lemma_overwrite_outside, overwrite,
    path_to_path_buf, read_exact_at, write_exact_at, MemoryFile, OpenFlags, Vfs, VfsFile,
};
use crate::types::PageNo;
use crate::wal::{in_some_slot, lemma_slots_disjoint, slot_has};
use std::collections::HashMap;
use vstd::std_specs::iter::IteratorSpec;
use std::path::{Path, PathBuf};

verus! {

/// Journal mode for the database.
#[derive(Debug, Clone, Copy, PartialEq, Eq, Default, Structural)]
pub enum JournalMode {
    #[default]
    Delete,
    Persist,
    Off,
    Truncate,
    Memory,
    Wal,
}

/// Pager open flags.
#[derive(Debug, Clone, Copy, Default)]
pub struct PagerFlags {
    pub omit_journal: bool,
    pub memory: bool,
    pub read_only: bool,
}

/// A cached database page.
#[derive(Debug, Clone)]
pub struct Page {
    pub pgno: PageNo,
    pub data: Vec<u8>,
    pub dirty: bool,
}

/// The file a pager works on: an in-memory file, or one opened through a VFS.
pub enum PagerFile<F: VfsFile> {
    Memory(MemoryFile),
    Disk(F),
}

impl<F: VfsFile> VfsFile for PagerFile<F> {
    closed spec fn contents(&self) -> Seq<u8> {
        match self {
            PagerFile::Memory(m) => m.contents(),
            PagerFile::Disk(f) => f.contents(),
        }
    }

    closed spec fn never_fails(&self) -> bool {
        match self {
            PagerFile::Memory(m) => m.never_fails(),
            PagerFile::Disk(f) => f.never_fails(),
        }
    }

    fn read_at(&mut self, offset: u64, buf: &mut [u8]) -> (r: Result<usize, SqlliteError>) {
        match self {
            PagerFile::Memory(m) => m.read_at(offset, buf),
            PagerFile::Disk(f) => f.read_at(offset, buf),
        }
    }

    fn write_at(&mut self, offset: u64, buf: &[u8]) -> (r: Result<usize, SqlliteError>) {
        match self {
            PagerFile::Memory(m) => m.write_at(offset, buf),
            PagerFile::Disk(f) => f.write_at(offset, buf),
        }
    }

    fn truncate(&mut self, size: u64) -> (r: Result<(), SqlliteError>) {
        match self {
            PagerFile::Memory(m) => m.truncate(size),
            PagerFile::Disk(f) => f.truncate(size),
        }
    }

    fn sync(&mut self) -> (r: Result<(), SqlliteError>) {
        match self {
            PagerFile::Memory(m) => m.sync(),
            PagerFile::Disk(f) => f.sync(),
        }
    }

    fn size(&self) -> (r: Result<u64, SqlliteError>) {
        match self {
            PagerFile::Memory(m) => m.size(),
            PagerFile::Disk(f) => f.size(),
        }
    }

    fn path(&self) -> (r: Option<&Path>)
        ensures
            self matches PagerFile::Memory(m) ==> (r is Some <==> m.has_path()),
    {
        match self {
            PagerFile::Memory(m) => m.path(),
            PagerFile::Disk(f) => f.path(),
        }
    }
}

/// The pager manages page-level I/O and transactions.
pub struct Pager<F: VfsFile> {
    file: PagerFile<F>,
    page_size: u32,
    header: DatabaseHeader,
    cache: HashMap<PageNo, Page>,
    journal_mode: JournalMode,
    in_transaction: bool,
    read_only: bool,
    db_path: Option<PathBuf>,
    page_count: u32,
}

/// Where page `p` starts in the file.
pub open spec fn page_offset(p: int, ps: int) -> int {
    (p - 1) * ps
}

/// A copy of a page.
fn copy_page(page: &Page) -> (c: Page)
    ensures
        c.pgno == page.pgno,
        c.data@ == page.data@,
        c.dirty == page.dirty,
{
    Page { pgno: page.pgno, data: vstd::slice::slice_to_vec(page.data.as_slice()), dirty: page.dirty }
}

impl<F: VfsFile> Pager<F> {
    /// The bytes of the database file.
    pub closed spec fn db(&self) -> Seq<u8> {
        self.file.contents()
    }

    /// The cached pages: their bytes and whether they are dirty.
    pub closed spec fn cached(&self) -> Map<PageNo, (Seq<u8>, bool)> {
        Map::new(
            |p: PageNo| self.cache@.contains_key(p),
            |p: PageNo| (self.cache@[p].data@, self.cache@[p].dirty),
        )
    }

    /// The cached pages written since they were last stored in the file.
    pub open spec fn dirty_pages(&self) -> Map<PageNo, Seq<u8>> {
        Map::new(
            |p: PageNo| self.cached().contains_key(p) && self.cached()[p].1,
            |p: PageNo| self.cached()[p].0,
        )
    }

    pub closed spec fn spec_page_size(&self) -> u32 {
        self.page_size
    }

    pub closed spec fn spec_page_count(&self) -> u32 {
        self.page_count
    }

    pub closed spec fn spec_header(&self) -> DatabaseHeader {
        self.header
    }

    pub closed spec fn spec_in_transaction(&self) -> bool {
        self.in_transaction
    }

    pub closed spec fn spec_read_only(&self) -> bool {
        self.read_only
    }

    pub closed spec fn spec_journal_mode(&self) -> JournalMode {
        self.journal_mode
    }

    /// The cache is keyed by page number and holds whole pages that lie
    /// within the address space.
    pub closed spec fn wf(&self) -> bool {
        &&& vstd::std_specs::hash::obeys_key_model::<u32>()
        &&& forall|p: PageNo|
            #[trigger] self.cache@.contains_key(p) ==> {
                &&& self.cache@[p].pgno == p
                &&& self.cache@[p].data@.len() == self.page_size
                &&& p >= 1
                &&& p * self.page_size <= usize::MAX
            }
    }

    /// Whether every operation on the database file succeeds (a database in
    /// memory).
    pub closed spec fn file_never_fails(&self) -> bool {
        self.file.never_fails()
    }

    /// The fields other than the file and the cache are those of `other`,
    /// and the file fails or not as that of `other`.
    pub open spec fn same_settings(&self, other: &Self) -> bool {
        &&& self.file_never_fails() == other.file_never_fails()
        &&& self.spec_page_size() == other.spec_page_size()
        &&& self.spec_page_count() == other.spec_page_count()
        &&& self.spec_header() == other.spec_header()
        &&& self.spec_in_transaction() == other.spec_in_transaction()
        &&& self.spec_read_only() == other.spec_read_only()
        &&& self.spec_journal_mode() == other.spec_journal_mode()
    }

    pub fn page_size(&self) -> (ps: u32)
        ensures
            ps == self.spec_page_size(),
    {
        self.page_size
    }

    pub fn header(&self) -> (h: DatabaseHeader)
        ensures
            h == self.spec_header(),
    {
        self.header
    }

    pub fn page_count(&self) -> (n: u32)
        ensures
            n == self.spec_page_count(),
    {
        self.page_count
    }

    pub fn journal_mode(&self) -> (m: JournalMode)
        ensures
            m == self.spec_journal_mode(),
    {
        self.journal_mode
    }

    pub fn set_journal_mode(&mut self, mode: JournalMode)
        ensures
            final(self).spec_journal_mode() == mode,
            final(self).db() == old(self).db(),
            final(self).cached() == old(self).cached(),
            final(self).spec_page_size() == old(self).spec_page_size(),
            final(self).spec_page_count() == old(self).spec_page_count(),
            final(self).spec_header() == old(self).spec_header(),
            final(self).spec_in_transaction() == old(self).spec_in_transaction(),
            final(self).spec_read_only() == old(self).spec_read_only(),
            final(self).file_never_fails() == old(self).file_never_fails(),
            old(self).wf() ==> final(self).wf(),
    {
        self.journal_mode = mode;
    }

    pub fn in_transaction(&self) -> (b: bool)
        ensures
            b == self.spec_in_transaction(),
    {
        self.in_transaction
    }

    /// Read a page from cache or disk.
    ///
    /// A cached page is returned as cached. Any other page must be one of
    /// the pages of the file (else `Corrupt` "invalid page number"); it is
    /// read from its place in the file and cached clean.
    pub fn get_page(&mut self, pgno: PageNo) -> (r: Result<Page, SqlliteError>)
        requires
            old(self).wf(),
            pgno * old(self).spec_page_size() <= usize::MAX,
        ensures
            final(self).wf(),
            final(self).same_settings(old(self)),
            final(self).db() == old(self).db(),
            r matches Ok(page) ==> page.data@.len() == old(self).spec_page_size(),
            old(self).cached().contains_key(pgno) ==> (r matches Ok(page) && page.pgno == pgno && (
            page.data@, page.dirty) == old(self).cached()[pgno] && final(self).cached() == old(self).cached()),
            !old(self).cached().contains_key(pgno) && (pgno == 0 || pgno > old(self).spec_page_count()) ==> (r matches Err(e) && is_sql_error(
                e,
                ResultCode::Corrupt,
                "invalid page number"@,
            ) && final(self).cached() == old(self).cached()),
            !old(self).cached().contains_key(pgno) && 0 < pgno <= old(self).spec_page_count()
                && old(self).file_never_fails() && pgno * old(self).spec_page_size() <= old(
                self,
            ).db().len() ==> r is Ok,
            !old(self).cached().contains_key(pgno) && 0 < pgno <= old(self).spec_page_count() ==> {
                let ps = old(self).spec_page_size() as int;
                match r {
                    Ok(page) => page.pgno == pgno && !page.dirty && page.data@ == old(self).db().subrange(page_offset(pgno as int, ps), pgno * ps) && final(self).cached() == old(self).cached().insert(pgno, (page.data@, false)),
                    Err(_) => final(self).cached() == old(self).cached(),
                }
            },
    {
        broadcast use vstd::std_specs::hash::group_hash_axioms;

        if let Some(page) = self.cache.get(&pgno) {
            let c = copy_page(page);
            return Ok(c);
        }
        let mut data: Vec<u8> = vec![0u8; self.page_size as usize];
        if pgno == 0 || (pgno as u64) > self.page_count as u64 {
            return Err(SqlliteError::sql(ResultCode::Corrupt, "invalid page number"));
        }
        proof {
            assert((pgno as int - 1) * self.page_size + self.page_size == pgno * self.page_size)
                by (nonlinear_arith);
            assert(0 <= (pgno as int - 1) * self.page_size) by (nonlinear_arith)
                requires
                    pgno >= 1,
            ;
        }
        let offset = (pgno as u64 - 1) * self.page_size as u64;
        match read_exact_at(&mut self.file, offset, data.as_mut_slice()) {
            Ok(()) => {},
            Err(e) => return Err(e),
        }
        proof {
            if self.page_size == 0 {
                assert((pgno as int - 1) * self.page_size == 0 && pgno * self.page_size == 0)
                    by (nonlinear_arith)
                    requires
                        self.page_size == 0,
                ;
                assert(data@ =~= self.file.contents().subrange(0, 0));
            }
        }
        let page = Page { pgno, data, dirty: false };
        let c = copy_page(&page);
        self.cache.insert(pgno, c);
        proof {
            assert(self.cached() =~= old(self).cached().insert(pgno, (page.data@, false)));
        }
        Ok(page)
    }

    /// Keeps `page` in the cache as written (dirty), to be stored at commit.
    ///
    /// Fails with `ReadOnly` "attempt to write a readonly database" on a
    /// read-only pager, leaving everything as it was.
    pub fn write_page(&mut self, page: &mut Page) -> (r: Result<(), SqlliteError>)
        requires
            old(self).wf(),
            old(page).data@.len() == old(self).spec_page_size(),
            old(page).pgno >= 1,
            old(page).pgno * old(self).spec_page_size() <= usize::MAX,
        ensures
            final(self).wf(),
            final(self).same_settings(old(self)),
            final(self).db() == old(self).db(),
            final(page).pgno == old(page).pgno,
            final(page).data@ == old(page).data@,
            old(self).spec_read_only() ==> (r matches Err(e) && is_sql_error(
                e,
                ResultCode::ReadOnly,
                "attempt to write a readonly database"@,
            ) && final(self).cached() == old(self).cached() && final(page).dirty == old(page).dirty),
            !old(self).spec_read_only() ==> r is Ok && final(page).dirty && final(self).cached()
                == old(self).cached().insert(old(page).pgno, (old(page).data@, true)),
    {
        broadcast use vstd::std_specs::hash::group_hash_axioms;

        if self.read_only {
            return Err(
                SqlliteError::sql(ResultCode::ReadOnly, "attempt to write a readonly database"),
            );
        }
        page.dirty = true;
        let c = copy_page(page);
        self.cache.insert(page.pgno, c);
        proof {
            assert(self.cached() =~= old(self).cached().insert(old(page).pgno, (old(page).data@, true)));
        }
        Ok(())
    }

    /// Writes `data` straight into the file at the place of page `pgno`.
    pub(crate) fn write_page_direct(&mut self, pgno: PageNo, data: &[u8]) -> (r: Result<
        (),
        SqlliteError,
    >)
        requires
            pgno >= 1,
            page_offset(pgno as int, old(self).spec_page_size() as int) + data@.len() <= usize::MAX,
        ensures
            final(self).same_settings(old(self)),
            final(self).cached() == old(self).cached(),
            old(self).wf() ==> final(self).wf(),
            keeps_prefix(
                old(self).db(),
                final(self).db(),
                page_offset(pgno as int, old(self).spec_page_size() as int),
            ),
            old(self).file_never_fails() ==> r is Ok,
            r is Ok ==> final(self).db() == if data@.len() == 0 {
                old(self).db()
            } else {
                overwrite(
                    old(self).db(),
                    page_offset(pgno as int, old(self).spec_page_size() as int),
                    data@,
                )
            },
    {
        proof {
            assert(0 <= (pgno as int - 1) * self.page_size) by (nonlinear_arith)
                requires
                    pgno >= 1,
            ;
        }
        let offset = (pgno as u64 - 1) * self.page_size as u64;
        write_exact_at(&mut self.file, offset, data)
    }

    /// Allocate a new page: the page after the last one, zero-filled and dirty.
    pub fn allocate_page(&mut self) -> (r: Result<PageNo, SqlliteError>)
        requires
            old(self).wf(),
            old(self).spec_page_count() < u32::MAX,
            (old(self).spec_page_count() + 1) * old(self).spec_page_size() <= usize::MAX,
        ensures
            final(self).wf(),
            final(self).db() == old(self).db(),
            r == Ok::<PageNo, SqlliteError>((old(self).spec_page_count() + 1) as PageNo),
            final(self).spec_page_count() == old(self).spec_page_count() + 1,
            final(self).cached() == old(self).cached().insert(
                (old(self).spec_page_count() + 1) as PageNo,
                (Seq::new(old(self).spec_page_size() as nat, |i: int| 0u8), true),
            ),
            final(self).spec_page_size() == old(self).spec_page_size(),
            final(self).spec_header() == old(self).spec_header(),
            final(self).spec_in_transaction() == old(self).spec_in_transaction(),
            final(self).spec_read_only() == old(self).spec_read_only(),
            final(self).file_never_fails() == old(self).file_never_fails(),
            final(self).spec_journal_mode() == old(self).spec_journal_mode(),
    {
        broadcast use vstd::std_specs::hash::group_hash_axioms;

        self.page_count = self.page_count + 1;
        let pgno = self.page_count;
        let data: Vec<u8> = vec![0u8; self.page_size as usize];
        proof {
            assert(data@ =~= Seq::new(self.page_size as nat, |i: int| 0u8));
        }
        let page = Page { pgno, data, dirty: true };
        self.cache.insert(pgno, page);
        proof {
            assert(self.cached() =~= old(self).cached().insert(
                pgno,
                (Seq::new(self.page_size as nat, |i: int| 0u8), true),
            ));
        }
        Ok(pgno)
    }

    /// Begin a transaction (nothing changes when one is open already).
    pub fn begin(&mut self) -> (r: Result<(), SqlliteError>)
        ensures
            r is Ok,
            final(self).spec_in_transaction(),
            final(self).db() == old(self).db(),
            final(self).cached() == old(self).cached(),
            final(self).spec_page_size() == old(self).spec_page_size(),
            final(self).spec_page_count() == old(self).spec_page_count(),
            final(self).spec_header() == old(self).spec_header(),
            final(self).spec_read_only() == old(self).spec_read_only(),
            final(self).file_never_fails() == old(self).file_never_fails(),
            final(self).spec_journal_mode() == old(self).spec_journal_mode(),
            old(self).wf() ==> final(self).wf(),
    {
        if self.in_transaction {
            return Ok(());
        }
        self.in_transaction = true;
        Ok(())
    }

    /// Rollback a transaction: every cached page is dropped, written or not.
    pub fn rollback(&mut self) -> (r: Result<(), SqlliteError>)
        requires
            old(self).wf(),
        ensures
            r is Ok,
            final(self).wf(),
            !final(self).spec_in_transaction(),
            final(self).cached() == Map::<PageNo, (Seq<u8>, bool)>::empty(),
            final(self).db() == old(self).db(),
            final(self).spec_page_size() == old(self).spec_page_size(),
            final(self).spec_page_count() == old(self).spec_page_count(),
            final(self).spec_header() == old(self).spec_header(),
            final(self).spec_read_only() == old(self).spec_read_only(),
            final(self).file_never_fails() == old(self).file_never_fails(),
            final(self).spec_journal_mode() == old(self).spec_journal_mode(),
    {
        broadcast use vstd::std_specs::hash::group_hash_axioms;

        self.cache.clear();
        self.in_transaction = false;
        proof {
            assert(self.cached() =~= Map::<PageNo, (Seq<u8>, bool)>::empty());
        }
        Ok(())
    }
}

/// Whether `after` is `before` with each page of `pages` stored in its slot:
/// the slots hold the pages, every other byte is as it was (zero past the old
/// end), and the file grew only as far as the slots reach.
pub open spec fn stores_pages(before: Seq<u8>, after: Seq<u8>, pages: Map<PageNo, Seq<u8>>, ps: int) -> bool {
    &&& after.len() >= before.len()
    &&& forall|p: PageNo|
        #[trigger] pages.contains_key(p) ==> after.len() >= p * ps && after.subrange(
            page_offset(p as int, ps),
            p * ps,
        ) == pages[p]
    &&& forall|i: int|
        0 <= i < after.len() && !in_some_slot(pages, i, ps) ==> #[trigger] after[i] == if i
            < before.len() {
            before[i]
        } else {
            0u8
        }
    &&& forall|i: int| before.len() <= i < after.len() ==> #[trigger] below_some_end(pages, i, ps)
}

/// Whether byte `i` lies before the end of the slot of one of the pages.
pub open spec fn below_some_end(pages: Map<PageNo, Seq<u8>>, i: int, ps: int) -> bool {
    exists|p: PageNo| pages.contains_key(p) && i < #[trigger] (p * ps)
}

/// Whether byte `i` lies before the end of the slot of one of the first `k` pages.
pub open spec fn below_list_end(pages: Seq<Page>, k: int, i: int, ps: int) -> bool {
    exists|j: int| 0 <= j < k && i < #[trigger] (pages[j].pgno * ps)
}

/// Whether byte `i` lies in the slot of one of the first `k` pages of `pages`.
pub open spec fn in_list_slots(pages: Seq<Page>, k: int, i: int, ps: int) -> bool {
    exists|j: int| 0 <= j < k && #[trigger] slot_has(pages[j].pgno, i, ps)
}

impl<F: VfsFile> Pager<F> {
    /// The dirty pages of the cache, each once.
    fn dirty_list(&self) -> (pages: Vec<Page>)
        requires
            self.wf(),
        ensures
            forall|j: int|
                0 <= j < pages@.len() ==> #[trigger] self.dirty_pages().contains_key(pages@[j].pgno)
                    && self.dirty_pages()[pages@[j].pgno] == pages@[j].data@,
            forall|p: PageNo|
                #[trigger] self.dirty_pages().contains_key(p) ==> exists|j: int|
                    0 <= j < pages@.len() && #[trigger] pages@[j].pgno == p,
            forall|a: int, b: int|
                0 <= a < b < pages@.len() ==> pages@[a].pgno != pages@[b].pgno,
    {
        broadcast use vstd::std_specs::hash::group_hash_axioms;

        let mut pages: Vec<Page> = Vec::new();
        let it = self.cache.iter();
        let ghost entries = it.remaining();
        let ghost mut taken: Seq<int> = seq![];
        for e in iter: it
            invariant
                entries == iter.seq(),
                self.wf(),
                pages@.len() == taken.len(),
                forall|j: int|
                    0 <= j < taken.len() ==> 0 <= #[trigger] taken[j] < iter.index()
                        && entries[taken[j]].1.pgno == pages@[j].pgno && entries[taken[j]].1.dirty
                        && pages@[j].data@ == entries[taken[j]].1.data@,
                forall|a: int, b: int| 0 <= a < b < taken.len() ==> taken[a] < taken[b],
                forall|q: int|
                    0 <= q < iter.index() && entries[q].1.dirty ==> exists|j: int|
                        0 <= j < taken.len() && #[trigger] taken[j] == q,
        {
            let ghost before = taken;
            let ghost idx = iter.index() as int;
            proof {
                assert(e == entries[iter.index() as int]);
            }
            if e.1.dirty {
                let c = copy_page(e.1);
                pages.push(c);
                proof {
                    taken = taken.push(iter.index() as int);
                    assert(taken[taken.len() - 1] == iter.index() as int);
                }
            }
            proof {
                assert forall|q: int|
                    0 <= q <= idx && entries[q].1.dirty implies exists|j: int|
                        0 <= j < taken.len() && #[trigger] taken[j] == q by {
                    if q == idx {
                        assert(taken[taken.len() - 1] == q);
                    } else {
                        let j = choose|j: int| 0 <= j < before.len() && #[trigger] before[j] == q;
                        assert(taken[j] == q);
                    }
                }
            }
        }
        proof {
            assert forall|j: int|
                0 <= j < pages@.len() implies #[trigger] self.dirty_pages().contains_key(pages@[j].pgno)
                && self.dirty_pages()[pages@[j].pgno] == pages@[j].data@ by {
                let q = taken[j];
                assert(entries.contains(entries[q]));
                assert(self.cache@.contains_key(*entries[q].0));
                assert(self.cache@[*entries[q].0] == *entries[q].1);
                assert(entries[q].1.pgno == *entries[q].0);
            }
            assert forall|p: PageNo| #[trigger] self.dirty_pages().contains_key(p) implies exists|j: int|
                0 <= j < pages@.len() && #[trigger] pages@[j].pgno == p by {
                assert(entries.contains((&p, &self.cache@[p])));
                let q = choose|q: int| 0 <= q < entries.len() && entries[q] == (&p, &self.cache@[p]);
                let j = choose|j: int| 0 <= j < taken.len() && #[trigger] taken[j] == q;
                assert(pages@[j].pgno == p);
            }
            assert forall|a: int, b: int|
                0 <= a < b < pages@.len() implies pages@[a].pgno != pages@[b].pgno by {
                assert(entries.no_duplicates());
                let qa = taken[a];
                let qb = taken[b];
                if pages@[a].pgno == pages@[b].pgno {
                    assert(self.cache@.contains_key(*entries[qa].0));
                    assert(self.cache@.contains_key(*entries[qb].0));
                    assert(self.cache@[*entries[qa].0] == *entries[qa].1);
                    assert(self.cache@[*entries[qb].0] == *entries[qb].1);
                    assert(entries[qa] == entries[qb]);
                }
            }
        }
        pages
    }
}

impl<F: VfsFile> Pager<F> {
    /// Writes every dirty page of the cache into its slot of the file.
    fn store_dirty(&mut self) -> (r: Result<(), SqlliteError>)
        requires
            old(self).wf(),
        ensures
            final(self).wf(),
            final(self).same_settings(old(self)),
            final(self).cached() == old(self).cached(),
            old(self).file_never_fails() ==> r is Ok,
            r is Ok ==> stores_pages(
                old(self).db(),
                final(self).db(),
                old(self).dirty_pages(),
                old(self).spec_page_size() as int,
            ),
    {
        let pages = self.dirty_list();
        let ghost db0 = self.db();
        let ghost ps = self.page_size as int;
        let ghost dirty = self.dirty_pages();
        let ghost s0 = *self;
        let n = pages.len();
        let mut k: usize = 0;
        while k < n
            invariant
                n == pages@.len(),
                k <= n,
                self.wf(),
                self.same_settings(old(self)),
                self.cached() == old(self).cached(),
                dirty == old(self).dirty_pages(),
                s0 == *old(self),
                ps == self.spec_page_size(),
                forall|j: int|
                    0 <= j < pages@.len() ==> #[trigger] dirty.contains_key(pages@[j].pgno)
                        && dirty[pages@[j].pgno] == pages@[j].data@,
                forall|a: int, b: int|
                    0 <= a < b < pages@.len() ==> pages@[a].pgno != pages@[b].pgno,
                forall|j: int|
                    0 <= j < k ==> {
                        let p = #[trigger] pages@[j].pgno;
                        &&& self.db().len() >= p * ps
                        &&& self.db().subrange(page_offset(p as int, ps), p * ps) == pages@[j].data@
                    },
                forall|i: int|
                    0 <= i < self.db().len() && !in_list_slots(pages@, k as int, i, ps)
                        ==> #[trigger] self.db()[i] == if i < db0.len() {
                        db0[i]
                    } else {
                        0u8
                    },
                forall|i: int|
                    db0.len() <= i < self.db().len() ==> #[trigger] below_list_end(pages@, k as int, i, ps),
                self.db().len() >= db0.len(),
            decreases n - k,
        {
            let page = &pages[k];
            let pgno = page.pgno;
            proof {
                assert(dirty.contains_key(pgno));
                assert(s0.cache@.contains_key(pgno));
                assert(pgno >= 1 && pgno * ps <= usize::MAX);
                assert((pgno as int - 1) * ps + ps == pgno * ps) by (nonlinear_arith);
                assert(0 <= (pgno as int - 1) * ps) by (nonlinear_arith)
                    requires
                        pgno >= 1,
                        ps >= 0,
                ;
                assert(page.data@.len() == ps);
            }
            let ghost dbk = self.db();
            match self.write_page_direct(pgno, page.data.as_slice()) {
                Ok(()) => {},
                Err(e) => return Err(e),
            }
            proof {
                let db = self.db();
                let lo = page_offset(pgno as int, ps);
                let hi = pgno as int * ps;
                if ps == 0 {
                    assert(db == dbk);
                    assert(lo == 0 && hi == 0) by (nonlinear_arith)
                        requires
                            lo == (pgno as int - 1) * ps,
                            hi == pgno as int * ps,
                            ps == 0,
                    ;
                } else {
                    lemma_overwrite_inside(dbk, lo, page.data@);
                }
                assert(db.subrange(lo, hi) =~= page.data@);
                assert(db.len() >= dbk.len());
                assert(db.len() >= hi);
                assert forall|j: int| 0 <= j < k + 1 implies {
                    let p = #[trigger] pages@[j].pgno;
                    &&& db.len() >= p * ps
                    &&& db.subrange(page_offset(p as int, ps), p * ps) == pages@[j].data@
                } by {
                    if j < k {
                        let p = pages@[j].pgno;
                        assert(p != pgno);
                        assert(dirty.contains_key(p));
                        assert(s0.cache@.contains_key(p));
                        lemma_slots_disjoint(p as int, pgno as int, ps);
                        assert(0 <= (p - 1) * ps <= p * ps) by (nonlinear_arith)
                            requires
                                p >= 1,
                                ps >= 0,
                        ;
                        if ps != 0 {
                            lemma_overwrite_outside(dbk, lo, page.data@, (p - 1) * ps, p * ps);
                        }
                    }
                }
                assert forall|i: int|
                    0 <= i < db.len() && !in_list_slots(pages@, k + 1, i, ps) implies #[trigger] db[i]
                        == if i < db0.len() {
                        db0[i]
                    } else {
                        0u8
                    } by {
                    assert(!in_list_slots(pages@, k as int, i, ps)) by {
                        if in_list_slots(pages@, k as int, i, ps) {
                            let j = choose|j: int| 0 <= j < k && #[trigger] slot_has(pages@[j].pgno, i, ps);
                            assert(slot_has(pages@[j].pgno, i, ps));
                        }
                    }
                    if lo <= i < hi {
                        assert(pages@[k as int].pgno == pgno);
                        assert(slot_has(pages@[k as int].pgno, i, ps));
                    }
                    if i >= dbk.len() {
                        if ps != 0 {
                            assert(db[i] == 0u8);
                        }
                    }
                }
                assert forall|i: int| db0.len() <= i < db.len() implies #[trigger] below_list_end(
                    pages@,
                    k + 1,
                    i,
                    ps,
                ) by {
                    if i < dbk.len() {
                        assert(below_list_end(pages@, k as int, i, ps));
                        let j = choose|j: int| 0 <= j < k && i < #[trigger] (pages@[j].pgno * ps);
                        assert(i < pages@[j].pgno * ps);
                    } else {
                        assert(pages@[k as int].pgno == pgno);
                        assert(i < pages@[k as int].pgno * ps);
                    }
                }
            }
            k = k + 1;
        }
        proof {
            let db = self.db();
            assert forall|p: PageNo| #[trigger] dirty.contains_key(p) implies db.len() >= p * ps
                && db.subrange(page_offset(p as int, ps), p * ps) == dirty[p] by {
                let j = choose|j: int| 0 <= j < pages@.len() && #[trigger] pages@[j].pgno == p;
                assert(pages@[j].pgno == p);
            }
            assert forall|i: int|
                0 <= i < db.len() && !in_some_slot(dirty, i, ps) implies #[trigger] db[i] == if i
                    < db0.len() {
                    db0[i]
                } else {
                    0u8
                } by {
                if in_list_slots(pages@, n as int, i, ps) {
                    let j = choose|j: int| 0 <= j < n && #[trigger] slot_has(pages@[j].pgno, i, ps);
                    assert(dirty.contains_key(pages@[j].pgno));
                    assert(slot_has(pages@[j].pgno, i, ps));
                }
            }
            assert forall|i: int| db0.len() <= i < db.len() implies #[trigger] below_some_end(dirty, i, ps) by {
                assert(below_list_end(pages@, n as int, i, ps));
                let j = choose|j: int| 0 <= j < n && i < #[trigger] (pages@[j].pgno * ps);
                assert(dirty.contains_key(pages@[j].pgno));
                assert(i < pages@[j].pgno * ps);
            }
        }
        Ok(())
    }
}

/// Whether `hp` is the page `data` with the header `h` written over its first
/// hundred bytes (the reserved bytes 72 to 92 kept).
pub open spec fn with_header(hp: Seq<u8>, data: Seq<u8>, h: DatabaseHeader) -> bool {
    &&& hp.len() == data.len()
    &&& encodes_header(h, hp)
    &&& forall|i: int| (72 <= i < 92 || 100 <= i < data.len()) ==> #[trigger] hp[i] == data[i]
}

/// The cache with every page marked clean.
pub open spec fn all_clean(c: Map<PageNo, (Seq<u8>, bool)>) -> Map<PageNo, (Seq<u8>, bool)> {
    Map::new(|p: PageNo| c.contains_key(p), |p: PageNo| (c[p].0, false))
}

/// Storing a page over the slot of page 1 after storing `pages` is storing
/// `pages` with page 1 replaced.
proof fn lemma_store_first(
    before: Seq<u8>,
    mid: Seq<u8>,
    after: Seq<u8>,
    pages: Map<PageNo, Seq<u8>>,
    hp: Seq<u8>,
    ps: int,
)
    requires
        ps > 0,
        hp.len() == ps,
        stores_pages(before, mid, pages, ps),
        after == overwrite(mid, 0, hp),
        forall|p: PageNo| #[trigger] pages.contains_key(p) ==> p >= 1,
    ensures
        stores_pages(before, after, pages.insert(1, hp), ps),
{
    let m = pages.insert(1, hp);
    lemma_overwrite_inside(mid, 0, hp);
    assert(page_offset(1, ps) == 0);
    assert(1 * ps == ps);
    assert forall|p: PageNo| #[trigger] m.contains_key(p) implies after.len() >= p * ps
        && after.subrange(page_offset(p as int, ps), p * ps) == m[p] by {
        if p != 1 {
            assert(pages.contains_key(p));
            lemma_slots_disjoint(p as int, 1, ps);
            assert(0 <= (p - 1) * ps <= p * ps) by (nonlinear_arith)
                requires
                    p >= 1,
                    ps >= 0,
            ;
            assert(ps <= (p - 1) * ps) by (nonlinear_arith)
                requires
                    p >= 2,
                    ps >= 0,
            ;
            lemma_overwrite_outside(mid, 0, hp, (p - 1) * ps, p * ps);
        }
    }
    assert forall|i: int|
        0 <= i < after.len() && !in_some_slot(m, i, ps) implies #[trigger] after[i] == if i
            < before.len() {
            before[i]
        } else {
            0u8
        } by {
        if in_some_slot(pages, i, ps) {
            let p = choose|p: PageNo| pages.contains_key(p) && #[trigger] slot_has(p, i, ps);
            assert(m.contains_key(p));
            assert(slot_has(p, i, ps));
        }
        if i < ps {
            assert(m.contains_key(1u32));
            assert(slot_has(1u32, i, ps));
        }
    }
    assert forall|i: int| before.len() <= i < after.len() implies #[trigger] below_some_end(m, i, ps) by {
        if i < mid.len() {
            assert(below_some_end(pages, i, ps));
            let p = choose|p: PageNo| pages.contains_key(p) && i < #[trigger] (p * ps);
            assert(m.contains_key(p));
            assert(i < p * ps);
        } else {
            assert(m.contains_key(1u32));
            assert(i < 1u32 * ps);
        }
    }
}

impl<F: VfsFile> Pager<F> {
    /// Marks every cached page clean.
    fn mark_clean(&mut self)
        requires
            old(self).wf(),
        ensures
            final(self).wf(),
            final(self).same_settings(old(self)),
            final(self).db() == old(self).db(),
            final(self).cached() == all_clean(old(self).cached()),
    {
        broadcast use vstd::std_specs::hash::group_hash_axioms;

        let mut clean: HashMap<PageNo, Page> = HashMap::new();
        let it = self.cache.iter();
        let ghost entries = it.remaining();
        proof {
            assert forall|q: int| 0 <= q < entries.len() implies self.cache@.contains_key(
                *(#[trigger] entries[q]).0,
            ) && self.cache@[*entries[q].0] == *entries[q].1 by {
                assert(entries.contains(entries[q]));
            }
        }
        for e in iter: it
            invariant
                entries == iter.seq(),
                self.wf(),
                forall|q: int|
                    0 <= q < entries.len() ==> self.cache@.contains_key(*(#[trigger] entries[q]).0)
                        && self.cache@[*entries[q].0] == *entries[q].1,
                forall|p: PageNo|
                    #[trigger] clean@.contains_key(p) ==> self.cache@.contains_key(p) && clean@[p].pgno
                        == p && clean@[p].data@ == self.cache@[p].data@ && !clean@[p].dirty,
                forall|q: int| 0 <= q < iter.index() ==> #[trigger] clean@.contains_key(*entries[q].0),
        {
            proof {
                assert(e == entries[iter.index() as int]);
                assert(entries.contains(e));
                assert(self.cache@.contains_key(*e.0));
                assert(self.cache@[*e.0] == *e.1);
            }
            let c = Page { pgno: e.1.pgno, data: vstd::slice::slice_to_vec(e.1.data.as_slice()), dirty: false };
            clean.insert(*e.0, c);
        }
        proof {
            assert forall|p: PageNo| self.cache@.contains_key(p) implies #[trigger] clean@.contains_key(p) by {
                assert(entries.contains((&p, &self.cache@[p])));
                let q = choose|q: int| 0 <= q < entries.len() && entries[q] == (&p, &self.cache@[p]);
                assert(clean@.contains_key(*entries[q].0));
            }
        }
        self.cache = clean;
        proof {
            assert(self.cached() =~= all_clean(old(self).cached()));
        }
    }

    /// Flush all dirty pages without ending transaction.
    pub fn sync(&mut self) -> (r: Result<(), SqlliteError>)
        requires
            old(self).wf(),
        ensures
            final(self).wf(),
            final(self).same_settings(old(self)),
            final(self).cached() == old(self).cached(),
            old(self).file_never_fails() ==> r is Ok,
            r is Ok ==> stores_pages(
                old(self).db(),
                final(self).db(),
                old(self).dirty_pages(),
                old(self).spec_page_size() as int,
            ),
    {
        match self.store_dirty() {
            Ok(()) => {},
            Err(e) => return Err(e),
        }
        self.file.sync()
    }

    /// Ends a transaction: every dirty page is stored in its slot, then
    /// page 1 (when cached) is stored again with the header updated (the
    /// database size set to the page count and the change counter advanced),
    /// every cached page becomes clean and the transaction ends. Without an
    /// open transaction nothing happens.
    fn commit_transaction(&mut self) -> (r: Result<(), SqlliteError>)
        requires
            old(self).wf(),
            old(self).spec_in_transaction() && old(self).cached().contains_key(1) ==> old(
                self,
            ).spec_page_size() >= 100 && old(self).spec_header().change_counter < u32::MAX,
        ensures
            final(self).wf(),
            final(self).spec_page_size() == old(self).spec_page_size(),
            final(self).spec_page_count() == old(self).spec_page_count(),
            final(self).spec_read_only() == old(self).spec_read_only(),
            final(self).file_never_fails() == old(self).file_never_fails(),
            final(self).spec_journal_mode() == old(self).spec_journal_mode(),
            !old(self).spec_in_transaction() ==> r is Ok && *final(self) == *old(self),
            old(self).file_never_fails() ==> r is Ok,
            old(self).spec_in_transaction() && r is Ok ==> {
                let ps = old(self).spec_page_size() as int;
                let h = old(self).spec_header();
                let h2 = DatabaseHeader {
                    database_size: old(self).spec_page_count(),
                    change_counter: (h.change_counter + 1) as u32,
                    ..h
                };
                &&& !final(self).spec_in_transaction()
                &&& final(self).cached() == all_clean(old(self).cached())
                &&& if old(self).cached().contains_key(1) {
                    &&& final(self).spec_header() == h2
                    &&& exists|hp: Seq<u8>|
                        with_header(hp, old(self).cached()[1].0, h2) && stores_pages(
                            old(self).db(),
                            final(self).db(),
                            old(self).dirty_pages().insert(1, hp),
                            ps,
                        )
                } else {
                    &&& final(self).spec_header() == h
                    &&& stores_pages(old(self).db(), final(self).db(), old(self).dirty_pages(), ps)
                }
            },
    {
        broadcast use vstd::std_specs::hash::group_hash_axioms;

        if !self.in_transaction {
            return Ok(());
        }
        let ghost dirty = self.dirty_pages();
        let ghost ps = self.page_size as int;
        let ghost db0 = self.db();
        match self.store_dirty() {
            Ok(()) => {},
            Err(e) => return Err(e),
        }
        let ghost db1 = self.db();
        let page1 = match self.cache.get(&ROOT_PAGE) {
            Some(p) => Some(vstd::slice::slice_to_vec(p.data.as_slice())),
            None => None,
        };
        if let Some(mut header_page) = page1 {
            proof {
                assert(self.cache@.contains_key(1u32));
                assert(header_page@ == old(self).cached()[1].0);
                assert(header_page@.len() == ps);
            }
            self.header.database_size = self.page_count;
            self.header.change_counter = self.header.change_counter + 1;
            self.header.write(header_page.as_mut_slice());
            let ghost hp = header_page@;
            proof {
                assert(with_header(hp, old(self).cached()[1].0, self.header));
            }
            match self.write_page_direct(ROOT_PAGE, header_page.as_slice()) {
                Ok(()) => {},
                Err(e) => return Err(e),
            }
            proof {
                assert(page_offset(1, ps) == 0);
                assert forall|p: PageNo| #[trigger] dirty.contains_key(p) implies p >= 1 by {
                    assert(self.cache@.contains_key(p));
                }
                lemma_store_first(db0, db1, self.db(), dirty, hp, ps);
            }
        }
        self.mark_clean();
        match self.file.sync() {
            Ok(()) => {},
            Err(e) => return Err(e),
        }
        self.in_transaction = false;
        Ok(())
    }

    /// The bytes of page 1 as a commit stores them again: the cached copy,
    /// else those of the file.
    pub open spec fn first_page(&self) -> Seq<u8> {
        if self.cached().contains_key(1) {
            self.cached()[1].0
        } else {
            self.db().subrange(0, self.spec_page_size() as int)
        }
    }

    /// The cache with page 1 in it: as it is, or with page 1 read in clean.
    pub open spec fn cached_with_first_page(&self) -> Map<PageNo, (Seq<u8>, bool)> {
        if self.cached().contains_key(1) {
            self.cached()
        } else {
            self.cached().insert(1, (self.first_page(), false))
        }
    }

    /// The header a commit writes: the database size set to the page count
    /// and the change counter advanced.
    pub open spec fn committed_header(&self) -> DatabaseHeader {
        DatabaseHeader {
            database_size: self.spec_page_count(),
            change_counter: (self.spec_header().change_counter + 1) as u32,
            ..self.spec_header()
        }
    }

    /// Reads page 1 into the cache.
    fn load_first_page(&mut self) -> (r: Result<(), SqlliteError>)
        requires
            old(self).wf(),
            !old(self).cached().contains_key(1),
        ensures
            final(self).wf(),
            final(self).same_settings(old(self)),
            final(self).db() == old(self).db(),
            old(self).spec_page_count() >= 1 && old(self).file_never_fails() && old(
                self,
            ).spec_page_size() <= old(self).db().len() ==> r is Ok,
            r is Ok ==> final(self).cached() == old(self).cached_with_first_page()
                && final(self).dirty_pages() == old(self).dirty_pages(),
    {
        let ghost ps = self.page_size as int;
        match self.get_page(ROOT_PAGE) {
            Ok(page) => {
                proof {
                    assert(page_offset(1, ps) == 0);
                    assert(self.cached() =~= old(self).cached_with_first_page());
                    assert(self.dirty_pages() =~= old(self).dirty_pages());
                }
                Ok(())
            },
            Err(e) => Err(e),
        }
    }

    /// Commit a transaction: page 1 is read in when it is not cached, every
    /// dirty page is stored in its slot, then page 1 is stored again with the
    /// header updated (the database size set to the page count and the change
    /// counter advanced), every cached page becomes clean and the transaction
    /// ends. Without an open transaction nothing happens.
    pub fn commit(&mut self) -> (r: Result<(), SqlliteError>)
        requires
            old(self).wf(),
            old(self).spec_in_transaction() ==> old(self).spec_page_size() >= 100 && old(
                self,
            ).spec_header().change_counter < u32::MAX,
        ensures
            final(self).wf(),
            final(self).spec_page_size() == old(self).spec_page_size(),
            final(self).spec_page_count() == old(self).spec_page_count(),
            final(self).spec_read_only() == old(self).spec_read_only(),
            final(self).file_never_fails() == old(self).file_never_fails(),
            final(self).spec_journal_mode() == old(self).spec_journal_mode(),
            !old(self).spec_in_transaction() ==> r is Ok && *final(self) == *old(self),
            old(self).file_never_fails() && (old(self).cached().contains_key(1) || (old(
                self,
            ).spec_page_count() >= 1 && old(self).spec_page_size() <= old(self).db().len()))
                ==> r is Ok,
            old(self).spec_in_transaction() && r is Ok ==> {
                &&& !final(self).spec_in_transaction()
                &&& final(self).cached() == all_clean(old(self).cached_with_first_page())
                &&& final(self).spec_header() == old(self).committed_header()
                &&& exists|hp: Seq<u8>|
                    with_header(hp, old(self).first_page(), old(self).committed_header())
                        && stores_pages(
                        old(self).db(),
                        final(self).db(),
                        old(self).dirty_pages().insert(1, hp),
                        old(self).spec_page_size() as int,
                    )
            },
    {
        broadcast use vstd::std_specs::hash::group_hash_axioms;

        if self.in_transaction && !self.cache.contains_key(&ROOT_PAGE) {
            match self.load_first_page() {
                Ok(()) => {},
                Err(e) => return Err(e),
            }
        }
        let ghost mid = *self;
        assert(mid.first_page() == old(self).first_page());
        assert(mid.cached_with_first_page() == old(self).cached_with_first_page());
        assert(mid.spec_in_transaction() ==> mid.cached().contains_key(1));
        assert(mid.committed_header() == old(self).committed_header());
        assert(mid.spec_in_transaction() ==> mid.dirty_pages() == old(self).dirty_pages());
        let r = self.commit_transaction();
        proof {
            if old(self).spec_in_transaction() && r is Ok {
                let ps = old(self).spec_page_size() as int;
                let h2 = old(self).committed_header();
                let hp = choose|hp: Seq<u8>|
                    with_header(hp, mid.cached()[1].0, h2) && stores_pages(
                        mid.db(),
                        self.db(),
                        mid.dirty_pages().insert(1, hp),
                        ps,
                    );
                assert(with_header(hp, old(self).first_page(), h2));
                assert(stores_pages(old(self).db(), self.db(), old(self).dirty_pages().insert(1, hp), ps));
            }
        }
        r
    }
}

/// Whether `p` is the first page of a new database of page size `ps`: the
/// database header `h`, then the header of an empty table leaf whose content
/// starts at the end of the page, zeros elsewhere.
pub open spec fn fresh_root_page(p: Seq<u8>, h: DatabaseHeader, ps: int) -> bool {
    &&& p.len() == ps
    &&& encodes_header(h, p)
    &&& p[100] == PAGE_TYPE_LEAF_TABLE
    &&& p[101] == 0 && p[102] == 0 && p[103] == 0 && p[104] == 0 && p[105] == 0
    &&& be_u16(p, 106) == ps % 0x10000
    &&& forall|i: int| (72 <= i < 92 || 108 <= i < ps) ==> #[trigger] p[i] == 0
}

/// The header of a new database.
pub open spec fn fresh_header(ps: u32) -> DatabaseHeader {
    DatabaseHeader {
        page_size: ps,
        write_version: 1,
        read_version: 1,
        reserved_bytes: 0,
        max_embedded_payload: crate::constants::MAX_EMBEDDED_PAYLOAD,
        min_embedded_payload: crate::constants::MIN_EMBEDDED_PAYLOAD,
        leaf_payload: crate::constants::LEAF_PAYLOAD,
        change_counter: 1,
        database_size: 1,
        freelist_trunk: 0,
        freelist_count: 0,
        schema_cookie: 0,
        schema_format: crate::constants::SCHEMA_FORMAT,
        default_cache_size: 0,
        largest_root: 0,
        text_encoding: crate::constants::TEXT_ENCODING_UTF8,
        user_version: 0,
        incr_vacuum: 0,
        application_id: 0,
        version_valid_for: 1,
        sqlite_version: 3044001,
    }
}

/// The number of pages of a file of `size` bytes, counting a partial last page.
pub open spec fn pages_in(size: nat, ps: nat) -> nat {
    if size % ps == 0 {
        size / ps
    } else {
        size / ps + 1
    }
}

impl<F: VfsFile> Pager<F> {
    /// A new database: default page size, one page, the first page written.
    pub open spec fn is_fresh(&self) -> bool {
        &&& self.spec_page_size() == DEFAULT_PAGE_SIZE
        &&& self.spec_page_count() == 1
        &&& self.spec_header() == fresh_header(DEFAULT_PAGE_SIZE)
        &&& self.db().len() >= DEFAULT_PAGE_SIZE
        &&& fresh_root_page(
            self.db().subrange(0, DEFAULT_PAGE_SIZE as int),
            self.spec_header(),
            DEFAULT_PAGE_SIZE as int,
        )
    }

    /// An existing database: the header read from the file gives the page
    /// size, and the page count is its database size or, when that is zero,
    /// the number of pages the file spans.
    pub open spec fn is_loaded(&self) -> bool {
        &&& header_ok(self.db())
        &&& self.spec_header() == decoded_header(self.db())
        &&& self.spec_page_size() == self.spec_header().page_size
        &&& self.spec_page_count() == if self.spec_header().database_size > 0 {
            self.spec_header().database_size
        } else {
            pages_in(self.db().len(), self.spec_page_size() as nat) as u32
        }
    }

    /// Writes the first page of a new database and counts it.
    #[verifier::rlimit(40)]
    #[verifier::spinoff_prover]
    fn initialize_new_database(&mut self) -> (r: Result<(), SqlliteError>)
        requires
            old(self).wf(),
            old(self).cached() == Map::<PageNo, (Seq<u8>, bool)>::empty(),
            old(self).spec_page_size() == DEFAULT_PAGE_SIZE,
        ensures
            final(self).wf(),
            final(self).cached() == Map::<PageNo, (Seq<u8>, bool)>::empty(),
            final(self).spec_page_size() == old(self).spec_page_size(),
            final(self).spec_in_transaction() == old(self).spec_in_transaction(),
            final(self).spec_read_only() == old(self).spec_read_only(),
            final(self).file_never_fails() == old(self).file_never_fails(),
            final(self).spec_journal_mode() == old(self).spec_journal_mode(),
            final(self).spec_header() == (DatabaseHeader { database_size: 1, ..old(self).spec_header() }),
            final(self).file_never_fails() == old(self).file_never_fails(),
            old(self).file_never_fails() ==> r is Ok,
            r is Ok ==> final(self).spec_page_count() == 1 && final(self).db().len() >= DEFAULT_PAGE_SIZE
                && fresh_root_page(
                final(self).db().subrange(0, DEFAULT_PAGE_SIZE as int),
                final(self).spec_header(),
                DEFAULT_PAGE_SIZE as int,
            ) && final(self).db().len() == (if old(self).db().len() > DEFAULT_PAGE_SIZE {
                old(self).db().len()
            } else {
                DEFAULT_PAGE_SIZE as nat
            }) && forall|i: int|
                DEFAULT_PAGE_SIZE <= i < final(self).db().len() ==> #[trigger] final(self).db()[i]
                    == old(self).db()[i],
    {
        let mut page: Vec<u8> = vec![0u8; self.page_size as usize];
        self.header.database_size = 1;
        let ghost zeros = page@;
        self.header.write(page.as_mut_slice());
        let ghost written = page@;
        page.set(100, PAGE_TYPE_LEAF_TABLE);
        page.set(101, 0);
        page.set(102, 0);
        page.set(103, 0);
        page.set(104, 0);
        page.set(105, 0);
        let content_start = self.page_size as u16;
        page.set(106, (content_start >> 8) as u8);
        page.set(107, content_start as u8);
        page.set(108, 0);
        proof {
            assert(content_start == 4096);
            assert((content_start >> 8) as u8 == 16) by (bit_vector)
                requires
                    content_start == 4096,
            ;
            assert(content_start as u8 == 0) by (bit_vector)
                requires
                    content_start == 4096,
            ;
            assert(forall|i: int| 0 <= i < zeros.len() ==> zeros[i] == 0u8);
            assert forall|i: int| 0 <= i < 100 implies #[trigger] page@[i] == written[i] by {}
            crate::header::lemma_encodes_header_same(self.header, written, page@);
            assert forall|i: int| (72 <= i < 92 || 108 <= i < 4096) implies #[trigger] page@[i]
                == 0 by {
                assert(written[i] == zeros[i]);
            }
            assert(be_u16(page@, 106) == 4096);
        }
        let ghost db0 = self.db();
        match self.write_page_direct(ROOT_PAGE, page.as_slice()) {
            Ok(()) => {},
            Err(e) => return Err(e),
        }
        proof {
            lemma_overwrite_inside(db0, 0, page@);
            assert(page_offset(1, 4096) == 0);
            assert(self.db().subrange(0, 4096) =~= page@);
        }
        self.page_count = 1;
        Ok(())
    }

    /// Opens the database at `path` through `vfs`, or an in-memory database
    /// when the flags ask for one or no path is given.
    ///
    /// A new (or empty) database gets the default page size and its first
    /// page written; an existing one is read from its header, its page count
    /// being the header's database size or, when that is zero, the number of
    /// pages the file spans.
    pub fn open<V: Vfs<File = F>>(vfs: &V, path: Option<&Path>, flags: PagerFlags) -> (r: Result<
        Self,
        SqlliteError,
    >)
        ensures
            r matches Ok(p) ==> {
                &&& p.wf()
                &&& p.cached() == Map::<PageNo, (Seq<u8>, bool)>::empty()
                &&& !p.spec_in_transaction()
                &&& p.spec_journal_mode() == JournalMode::Delete
                &&& p.spec_read_only() == flags.read_only
                &&& valid_page_size(p.spec_page_size() as int)
                &&& (flags.memory || path is None) ==> p.is_fresh() && p.file_never_fails()
                &&& p.is_fresh() || p.is_loaded()
            },
            (flags.memory || path is None) ==> r is Ok,
    {
        broadcast use vstd::std_specs::hash::group_hash_axioms;

        let (mut file, db_path, is_new) = if flags.memory || path.is_none() {
            (PagerFile::Memory(MemoryFile::new()), None, true)
        } else {
            let path = path.unwrap();
            let exists = vfs.path_exists(path);
            let open_flags = OpenFlags { read_only: flags.read_only, create: !exists, memory: false };
            let f = match vfs.open(path, open_flags) {
                Ok(f) => f,
                Err(e) => return Err(e),
            };
            (PagerFile::Disk(f), Some(path_to_path_buf(path)), !exists)
        };
        let size = match file.size() {
            Ok(n) => n,
            Err(e) => return Err(e),
        };
        let is_new = size == 0 || is_new;
        let (page_size, header) = if is_new {
            let ps = DEFAULT_PAGE_SIZE;
            (ps, DatabaseHeader::new(ps))
        } else {
            let mut hdr_buf: Vec<u8> = vec![0u8; DATABASE_HEADER_SIZE];
            match read_exact_at(&mut file, 0, hdr_buf.as_mut_slice()) {
                Ok(()) => {},
                Err(e) => return Err(e),
            }
            let h = match DatabaseHeader::parse(hdr_buf.as_slice()) {
                Ok(h) => h,
                Err(e) => return Err(e),
            };
            proof {
                assert(file.contents().subrange(0, 100) == hdr_buf@);
                crate::header::lemma_header_prefix(hdr_buf@, file.contents());
            }
            proof {
                assert(valid_page_size(h.page_size as int));
            }
            (h.page_size, h)
        };
        proof {
            assert(!is_new ==> page_size >= 512);
            assert(valid_page_size(page_size as int));
        }
        let page_count: u32 = if is_new {
            0
        } else if header.database_size > 0 {
            header.database_size
        } else {
            let ps = page_size as u64;
            let full = size / ps;
            proof {
                assert(full < 0xffff_ffff_ffff_ffff) by (nonlinear_arith)
                    requires
                        full == size / ps,
                        ps >= 512,
                ;
            }
            let n = if size % ps != 0 {
                full + 1
            } else {
                full
            };
            n as u32
        };
        let mut pager = Pager {
            file,
            page_size,
            header,
            cache: HashMap::new(),
            journal_mode: JournalMode::Delete,
            in_transaction: false,
            read_only: flags.read_only,
            db_path,
            page_count,
        };
        proof {
            assert(pager.cached() =~= Map::<PageNo, (Seq<u8>, bool)>::empty());
        }
        if is_new {
            match pager.initialize_new_database() {
                Ok(()) => {},
                Err(e) => return Err(e),
            }
        }
        Ok(pager)
    }
}

/// Every cached page is a whole page, numbered from 1, within the address space.
pub proof fn lemma_cached_pages<F: VfsFile>(pager: &Pager<F>)
    requires
        pager.wf(),
    ensures
        forall|p: PageNo|
            #[trigger] pager.cached().contains_key(p) ==> {
                &&& pager.cached()[p].0.len() == pager.spec_page_size()
                &&& p >= 1
                &&& p * pager.spec_page_size() <= usize::MAX
            },
{
}

/// A page written to the pager reads back as written: it is cached, dirty,
/// and among the pages the next commit stores.
pub proof fn lemma_written_page_reads_back<F: VfsFile>(
    before: &Pager<F>,
    after: &Pager<F>,
    pgno: PageNo,
    data: Seq<u8>,
)
    requires
        after.cached() == before.cached().insert(pgno, (data, true)),
    ensures
        after.cached().contains_key(pgno),
        after.cached()[pgno].0 == data,
        after.dirty_pages().contains_key(pgno),
        after.dirty_pages()[pgno] == data,
{
}

/// After the dirty pages are stored, each page reads back from its slot of
/// the file, and every byte outside the slots is what the file held before.
pub proof fn lemma_stored_pages_read_back(
    before: Seq<u8>,
    after: Seq<u8>,
    pages: Map<PageNo, Seq<u8>>,
    ps: int,
    p: PageNo,
    i: int,
)
    requires
        stores_pages(before, after, pages, ps),
    ensures
        pages.contains_key(p) ==> after.subrange(page_offset(p as int, ps), p * ps) == pages[p],
        0 <= i < before.len() && !in_some_slot(pages, i, ps) ==> after[i] == before[i],
{
}

/// A commit keeps the bytes of every cached page and leaves none dirty.
pub proof fn lemma_commit_cleans(c: Map<PageNo, (Seq<u8>, bool)>)
    ensures
        forall|p: PageNo| #[trigger] all_clean(c).contains_key(p) == c.contains_key(p),
        forall|p: PageNo| c.contains_key(p) ==> (#[trigger] all_clean(c)[p]).0 == c[p].0 && !all_clean(c)[p].1,
{
}

} // verus!
