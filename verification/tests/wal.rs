use sqllite::error::{ResultCode, SqlliteError};
use sqllite::io::{read_exact_at, write_exact_at, MemoryFile, OpenFlags, Vfs, VfsFile};
use sqllite::wal::{Wal, WalFrameHeader, WalHeader};
use std::cell::RefCell;
use std::collections::HashMap;
use std::path::{Path, PathBuf};
use std::rc::Rc;

/// A file whose bytes live in memory shared with the VFS that opened it.
struct SharedFile {
    data: Rc<RefCell<Vec<u8>>>,
    path: PathBuf,
}

impl VfsFile for SharedFile {
    fn read_at(&mut self, offset: u64, buf: &mut [u8]) -> Result<usize, SqlliteError> {
        let data = self.data.borrow();
        let offset = offset as usize;
        if offset >= data.len() {
            return Ok(0);
        }
        let n = buf.len().min(data.len() - offset);
        buf[..n].copy_from_slice(&data[offset..offset + n]);
        Ok(n)
    }

    fn write_at(&mut self, offset: u64, buf: &[u8]) -> Result<usize, SqlliteError> {
        let mut data = self.data.borrow_mut();
        let end = offset as usize + buf.len();
        if data.len() < end {
            data.resize(end, 0);
        }
        data[offset as usize..end].copy_from_slice(buf);
        Ok(buf.len())
    }

    fn truncate(&mut self, size: u64) -> Result<(), SqlliteError> {
        self.data.borrow_mut().resize(size as usize, 0);
        Ok(())
    }

    fn sync(&mut self) -> Result<(), SqlliteError> {
        Ok(())
    }

    fn size(&self) -> Result<u64, SqlliteError> {
        Ok(self.data.borrow().len() as u64)
    }

    fn path(&self) -> Option<&Path> {
        Some(&self.path)
    }
}

/// A VFS that keeps its files in memory, so that a file can be reopened.
#[derive(Default)]
struct SharedVfs {
    files: RefCell<HashMap<PathBuf, Rc<RefCell<Vec<u8>>>>>,
}

impl Vfs for SharedVfs {
    type File = SharedFile;

    fn open(&self, path: &Path, flags: OpenFlags) -> Result<SharedFile, SqlliteError> {
        let mut files = self.files.borrow_mut();
        let data = match files.get(path) {
            Some(d) => d.clone(),
            None => {
                if !flags.create {
                    return Err(SqlliteError::Io("no such file".to_string()));
                }
                let d = Rc::new(RefCell::new(Vec::new()));
                files.insert(path.to_path_buf(), d.clone());
                d
            }
        };
        Ok(SharedFile { data, path: path.to_path_buf() })
    }

    fn delete(&self, path: &Path) -> Result<(), SqlliteError> {
        self.files.borrow_mut().remove(path);
        Ok(())
    }

    fn path_exists(&self, path: &Path) -> bool {
        self.files.borrow().contains_key(path)
    }

    fn name(&self) -> &str {
        "shared-memory"
    }
}

#[test]
fn wal_header_roundtrip() {
    let header = WalHeader::new(4096, 1, 2);
    let decoded = WalHeader::decode(&header.encode()).unwrap();
    assert_eq!(decoded, header);
}

#[test]
fn wal_append_and_read() {
    let wal_file = PathBuf::from("test.db-wal");
    let vfs = SharedVfs::default();
    let mut wal = Wal::create(&vfs, &wal_file, 4096).unwrap();
    let page = vec![0xAB; 4096];
    wal.append_frame(1, &page, 1).unwrap();
    wal.sync().unwrap();
    let mut wal2 = Wal::open(&vfs, &wal_file, 4096).unwrap();
    assert_eq!(wal2.frame_count(), 1);
    assert_eq!(wal2.read_page(1).unwrap().unwrap(), page);
}

#[test]
fn wal_checkpoint_stub() {
    let wal_file = PathBuf::from("test.db-wal");
    let vfs = SharedVfs::default();
    let mut wal = Wal::create(&vfs, &wal_file, 4096).unwrap();
    let page = vec![0xCD; 4096];
    wal.append_frame(1, &page, 1).unwrap();
    let mut db = MemoryFile::new();
    wal.checkpoint(&mut db).unwrap();
    let mut read = vec![0u8; 4096];
    read_exact_at(&mut db, 0, &mut read).unwrap();
    assert_eq!(read, page);
    assert_eq!(wal.frame_count(), 0);
}

#[test]
fn wal_header_bytes_and_checksum() {
    let header = WalHeader::new(4096, 1, 2);
    let bytes = header.encode();
    assert_eq!(&bytes[0..4], &[0x37, 0x7f, 0x06, 0x82]);
    assert_eq!(&bytes[8..12], &4096u32.to_be_bytes());
    assert!(header.verify_checksum());
    let mut bad = bytes;
    bad[12] ^= 1;
    let e = WalHeader::decode(&bad).unwrap_err();
    assert_eq!(e.code(), ResultCode::Corrupt);
}

#[test]
fn wal_header_decode_rejects_short_and_bad_magic() {
    let e = WalHeader::decode(&[0u8; 10]).unwrap_err();
    assert_eq!(e.code(), ResultCode::Corrupt);
    let mut bytes = WalHeader::new(1024, 5, 6).encode();
    bytes[0] = 0;
    assert_eq!(WalHeader::decode(&bytes).unwrap_err().code(), ResultCode::Corrupt);
}

#[test]
fn frame_header_roundtrip() {
    let fh = WalFrameHeader {
        pgno: 7,
        db_size: 9,
        salt1: 1,
        salt2: 2,
        checksum1: 3,
        checksum2: 4,
    };
    assert_eq!(WalFrameHeader::decode(&fh.encode()).unwrap(), fh);
}

#[test]
fn wal_read_after_write_latest_copy_wins() {
    let path = PathBuf::from("a.db-wal");
    let vfs = SharedVfs::default();
    let mut wal = Wal::create(&vfs, &path, 512).unwrap();
    wal.append_frame(2, &vec![1u8; 512], 2).unwrap();
    wal.append_frame(3, &vec![2u8; 512], 3).unwrap();
    wal.append_frame(2, &vec![3u8; 512], 3).unwrap();
    assert_eq!(wal.frame_count(), 3);
    assert_eq!(wal.read_page(2).unwrap().unwrap(), vec![3u8; 512]);
    assert_eq!(wal.read_page(3).unwrap().unwrap(), vec![2u8; 512]);
    assert_eq!(wal.read_page(4).unwrap(), None);
}

#[test]
fn wal_append_wrong_size_is_refused() {
    let path = PathBuf::from("b.db-wal");
    let vfs = SharedVfs::default();
    let mut wal = Wal::create(&vfs, &path, 512).unwrap();
    let e = wal.append_frame(1, &[0u8; 100], 1).unwrap_err();
    assert_eq!(e.code(), ResultCode::Corrupt);
    assert_eq!(e.message(), "WAL page size mismatch");
    assert_eq!(wal.frame_count(), 0);
}

#[test]
fn wal_recovery_gives_back_the_pages() {
    let path = PathBuf::from("c.db-wal");
    let vfs = SharedVfs::default();
    let mut wal = Wal::create(&vfs, &path, 512).unwrap();
    wal.append_frame(1, &vec![9u8; 512], 1).unwrap();
    wal.append_frame(2, &vec![8u8; 512], 2).unwrap();
    let mut wal2 = Wal::open(&vfs, &path, 512).unwrap();
    assert_eq!(wal2.frame_count(), 2);
    assert_eq!(wal2.read_page(1).unwrap().unwrap(), vec![9u8; 512]);
    assert_eq!(wal2.read_page(2).unwrap().unwrap(), vec![8u8; 512]);
}

#[test]
fn wal_open_refuses_other_page_size() {
    let path = PathBuf::from("d.db-wal");
    let vfs = SharedVfs::default();
    Wal::create(&vfs, &path, 512).unwrap();
    let e = Wal::open(&vfs, &path, 1024).err().unwrap();
    assert_eq!(e.code(), ResultCode::Corrupt);
    assert_eq!(e.message(), "WAL page size does not match database");
}

#[test]
fn wal_checkpoint_writes_each_page_in_its_slot_and_resets() {
    let path = PathBuf::from("e.db-wal");
    let vfs = SharedVfs::default();
    let mut wal = Wal::create(&vfs, &path, 512).unwrap();
    wal.append_frame(3, &vec![7u8; 512], 3).unwrap();
    wal.append_frame(1, &vec![5u8; 512], 3).unwrap();
    let mut db = MemoryFile::new();
    write_exact_at(&mut db, 512, &[0xEEu8; 10]).unwrap();
    wal.checkpoint(&mut db).unwrap();
    assert_eq!(db.data().len(), 3 * 512);
    assert_eq!(&db.data()[0..512], &vec![5u8; 512][..]);
    assert_eq!(&db.data()[512..522], &[0xEEu8; 10]);
    assert_eq!(&db.data()[1024..1536], &vec![7u8; 512][..]);
    assert_eq!(wal.frame_count(), 0);
    assert_eq!(wal.read_page(1).unwrap(), None);
}
