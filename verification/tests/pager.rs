use sqllite::error::{ResultCode, SqlliteError};
use sqllite::io::{MemoryFile, OpenFlags, Vfs, VfsFile};
use sqllite::pager::{JournalMode, Page, Pager, PagerFlags};
use std::cell::RefCell;
use std::collections::HashMap;
use std::path::{Path, PathBuf};
use std::rc::Rc;

/// A file whose bytes live in memory shared with the VFS that opened it.
struct SharedFile {
    data: Rc<RefCell<Vec<u8>>>,
}

impl VfsFile for SharedFile {
    fn read_at(&mut self, offset: u64, buf: &mut [u8]) -> Result<usize, SqlliteError> {
        let data = self.data.borrow();
        let offset = offset as usize;
        if offset >= data.len() {
            return Ok(0);
        }
        let n = buf.len().min(data.len() - offset);
        buf[..n].copy_from_slice(&data[offset..offset + n]);
        Ok(n)
    }

    fn write_at(&mut self, offset: u64, buf: &[u8]) -> Result<usize, SqlliteError> {
        let mut data = self.data.borrow_mut();
        let end = offset as usize + buf.len();
        if data.len() < end {
            data.resize(end, 0);
        }
        data[offset as usize..end].copy_from_slice(buf);
        Ok(buf.len())
    }

    fn truncate(&mut self, size: u64) -> Result<(), SqlliteError> {
        self.data.borrow_mut().resize(size as usize, 0);
        Ok(())
    }

    fn sync(&mut self) -> Result<(), SqlliteError> {
        Ok(())
    }

    fn size(&self) -> Result<u64, SqlliteError> {
        Ok(self.data.borrow().len() as u64)
    }

    fn path(&self) -> Option<&Path> {
        None
    }
}

/// A VFS that keeps its files in memory, so that a database can be reopened.
#[derive(Default)]
struct SharedVfs {
    files: RefCell<HashMap<PathBuf, Rc<RefCell<Vec<u8>>>>>,
}

impl Vfs for SharedVfs {
    type File = SharedFile;

    fn open(&self, path: &Path, _flags: OpenFlags) -> Result<SharedFile, SqlliteError> {
        let data = self
            .files
            .borrow_mut()
            .entry(path.to_path_buf())
            .or_insert_with(|| Rc::new(RefCell::new(Vec::new())))
            .clone();
        Ok(SharedFile { data })
    }

    fn delete(&self, path: &Path) -> Result<(), SqlliteError> {
        self.files.borrow_mut().remove(path);
        Ok(())
    }

    fn path_exists(&self, path: &Path) -> bool {
        self.files.borrow().contains_key(path)
    }

    fn name(&self) -> &str {
        "shared-memory"
    }
}

fn memory_pager() -> Pager<SharedFile> {
    let vfs = SharedVfs::default();
    Pager::open(&vfs, None, PagerFlags { memory: true, ..Default::default() }).unwrap()
}

#[test]
fn new_database_has_one_page() {
    let mut p = memory_pager();
    assert_eq!(p.page_size(), 4096);
    assert_eq!(p.page_count(), 1);
    assert_eq!(p.header().database_size, 1);
    assert_eq!(p.journal_mode(), JournalMode::Delete);
    assert!(!p.in_transaction());
    let page = p.get_page(1).unwrap();
    assert_eq!(&page.data[0..16], b"SQLite format 3\0");
    assert_eq!(page.data[100], 0x0d);
    assert_eq!(&page.data[106..108], &[0x10, 0x00]);
    assert!(!page.dirty);
}

#[test]
fn invalid_page_numbers() {
    let mut p = memory_pager();
    let e = p.get_page(0).unwrap_err();
    assert_eq!(e.code(), ResultCode::Corrupt);
    assert_eq!(e.message(), "invalid page number");
    assert_eq!(p.get_page(2).unwrap_err().message(), "invalid page number");
}

#[test]
fn written_page_reads_back_and_rollback_drops_it() {
    let mut p = memory_pager();
    p.begin().unwrap();
    let n = p.allocate_page().unwrap();
    assert_eq!(n, 2);
    assert_eq!(p.page_count(), 2);
    let fresh = p.get_page(2).unwrap();
    assert!(fresh.dirty);
    assert_eq!(fresh.data, vec![0u8; 4096]);
    let mut page = Page { pgno: 2, data: vec![7u8; 4096], dirty: false };
    p.write_page(&mut page).unwrap();
    assert!(page.dirty);
    assert_eq!(p.get_page(2).unwrap().data, vec![7u8; 4096]);
    p.rollback().unwrap();
    assert!(!p.in_transaction());
    // page 2 was never stored in the file
    assert!(p.get_page(2).is_err());
}

#[test]
fn commit_stores_pages_and_updates_header() {
    let mut p = memory_pager();
    p.begin().unwrap();
    let before = p.get_page(1).unwrap();
    let n = p.allocate_page().unwrap();
    let mut page = Page { pgno: n, data: vec![0x5au8; 4096], dirty: false };
    p.write_page(&mut page).unwrap();
    p.commit().unwrap();
    assert!(!p.in_transaction());
    assert_eq!(p.header().database_size, 2);
    assert_eq!(p.header().change_counter, before_counter(&before) + 1);
    p.rollback().unwrap();
    assert_eq!(p.get_page(2).unwrap().data, vec![0x5au8; 4096]);
    let page1 = p.get_page(1).unwrap();
    assert_eq!(&page1.data[28..32], &2u32.to_be_bytes());
    assert!(!page1.dirty);
}

fn before_counter(page1: &Page) -> u32 {
    u32::from_be_bytes([page1.data[24], page1.data[25], page1.data[26], page1.data[27]])
}

#[test]
fn commit_without_transaction_does_nothing() {
    let mut p = memory_pager();
    let mut page = Page { pgno: 1, data: vec![1u8; 4096], dirty: false };
    p.write_page(&mut page).unwrap();
    p.commit().unwrap();
    assert!(p.get_page(1).unwrap().dirty);
}

#[test]
fn read_only_pager_refuses_writes() {
    let vfs = SharedVfs::default();
    let mut p: Pager<SharedFile> =
        Pager::open(&vfs, None, PagerFlags { memory: true, read_only: true, omit_journal: false })
            .unwrap();
    let mut page = Page { pgno: 1, data: vec![0u8; 4096], dirty: false };
    let e = p.write_page(&mut page).unwrap_err();
    assert_eq!(e.code(), ResultCode::ReadOnly);
    assert_eq!(e.message(), "attempt to write a readonly database");
    assert!(!page.dirty);
}

#[test]
fn database_file_reopens_with_its_pages() {
    let vfs = SharedVfs::default();
    let path = PathBuf::from("test.db");
    {
        let mut p = Pager::open(&vfs, Some(&path), PagerFlags::default()).unwrap();
        p.begin().unwrap();
        p.get_page(1).unwrap();
        let n = p.allocate_page().unwrap();
        let mut page = Page { pgno: n, data: vec![3u8; 4096], dirty: false };
        p.write_page(&mut page).unwrap();
        p.commit().unwrap();
    }
    let mut p = Pager::open(&vfs, Some(&path), PagerFlags::default()).unwrap();
    assert_eq!(p.page_count(), 2);
    assert_eq!(p.page_size(), 4096);
    assert_eq!(p.get_page(2).unwrap().data, vec![3u8; 4096]);
}

#[test]
fn sync_stores_without_ending_transaction() {
    let mut p = memory_pager();
    p.begin().unwrap();
    let n = p.allocate_page().unwrap();
    p.sync().unwrap();
    assert!(p.in_transaction());
    assert!(p.get_page(n).unwrap().dirty);
    p.set_journal_mode(JournalMode::Wal);
    assert_eq!(p.journal_mode(), JournalMode::Wal);
    let _unused = MemoryFile::new();
}
