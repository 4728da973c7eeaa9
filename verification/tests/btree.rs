use sqllite::btree::{btree_insert_index, btree_insert_row, Btree, BtreeFlags};
use sqllite::error::{ResultCode, SqlliteError};
use sqllite::io::{OpenFlags, Vfs, VfsFile};
use sqllite::pager::{Pager, PagerFlags};
use sqllite::record::{encode_record, record_byte_length};
use sqllite::tree::split_index_payload;
use sqllite::types::Value;
use std::cell::RefCell;
use std::collections::HashMap;
use std::path::{Path, PathBuf};
use std::rc::Rc;

/// A file whose bytes live in memory shared with the VFS that opened it.
struct SharedFile {
    data: Rc<RefCell<Vec<u8>>>,
}

impl VfsFile for SharedFile {
    fn read_at(&mut self, offset: u64, buf: &mut [u8]) -> Result<usize, SqlliteError> {
        let data = self.data.borrow();
        let offset = offset as usize;
        if offset >= data.len() {
            return Ok(0);
        }
        let n = buf.len().min(data.len() - offset);
        buf[..n].copy_from_slice(&data[offset..offset + n]);
        Ok(n)
    }

    fn write_at(&mut self, offset: u64, buf: &[u8]) -> Result<usize, SqlliteError> {
        let mut data = self.data.borrow_mut();
        let end = offset as usize + buf.len();
        if data.len() < end {
            data.resize(end, 0);
        }
        data[offset as usize..end].copy_from_slice(buf);
        Ok(buf.len())
    }

    fn truncate(&mut self, size: u64) -> Result<(), SqlliteError> {
        self.data.borrow_mut().resize(size as usize, 0);
        Ok(())
    }

    fn sync(&mut self) -> Result<(), SqlliteError> {
        Ok(())
    }

    fn size(&self) -> Result<u64, SqlliteError> {
        Ok(self.data.borrow().len() as u64)
    }

    fn path(&self) -> Option<&Path> {
        None
    }
}

/// A VFS that keeps its files in memory, so that a database can be reopened.
#[derive(Default)]
struct SharedVfs {
    files: RefCell<HashMap<PathBuf, Rc<RefCell<Vec<u8>>>>>,
}

impl Vfs for SharedVfs {
    type File = SharedFile;

    fn open(&self, path: &Path, _flags: OpenFlags) -> Result<SharedFile, SqlliteError> {
        let data = self
            .files
            .borrow_mut()
            .entry(path.to_path_buf())
            .or_insert_with(|| Rc::new(RefCell::new(Vec::new())))
            .clone();
        Ok(SharedFile { data })
    }

    fn delete(&self, path: &Path) -> Result<(), SqlliteError> {
        self.files.borrow_mut().remove(path);
        Ok(())
    }

    fn path_exists(&self, path: &Path) -> bool {
        self.files.borrow().contains_key(path)
    }

    fn name(&self) -> &str {
        "shared-memory"
    }
}

fn memory_pager() -> Pager<SharedFile> {
    let vfs = SharedVfs::default();
    Pager::open(&vfs, None, PagerFlags { memory: true, ..Default::default() }).unwrap()
}

fn scan_keys(btree: &Btree, pager: &mut Pager<SharedFile>) -> Vec<i64> {
    let mut cursor = btree.cursor();
    let mut keys = Vec::new();
    if !cursor.first(pager).unwrap() {
        return keys;
    }
    loop {
        keys.push(cursor.key().unwrap());
        if !cursor.next(pager).unwrap() {
            break;
        }
    }
    keys
}

#[test]
fn btree_insert_and_scan() {
    let mut pager = memory_pager();
    let (mut btree, _) = Btree::create_table(&mut pager).unwrap();
    btree_insert_row(&mut btree, &mut pager, 1, &[Value::Integer(1), Value::Text("hello".into())])
        .unwrap();
    btree_insert_row(&mut btree, &mut pager, 2, &[Value::Integer(2), Value::Text("world".into())])
        .unwrap();
    pager.commit().unwrap();
    let mut cursor = btree.cursor();
    assert!(cursor.first(&mut pager).unwrap());
    assert_eq!(cursor.key(), Some(1));
    assert!(cursor.next(&mut pager).unwrap());
    assert_eq!(cursor.key(), Some(2));
    assert!(!cursor.next(&mut pager).unwrap());
}

#[test]
fn btree_large_insert_with_splits() {
    let mut pager = memory_pager();
    let (mut btree, _) = Btree::create_table(&mut pager).unwrap();
    for i in 1..=500i64 {
        btree_insert_row(&mut btree, &mut pager, i, &[Value::Integer(i)]).unwrap();
    }
    pager.commit().unwrap();
    let mut cursor = btree.cursor();
    assert!(cursor.first(&mut pager).unwrap());
    let mut count = 0i64;
    loop {
        assert_eq!(cursor.key(), Some(count + 1));
        count += 1;
        if !cursor.next(&mut pager).unwrap() {
            break;
        }
    }
    assert_eq!(count, 500);
}

#[test]
fn btree_persist_and_reload() {
    let vfs = SharedVfs::default();
    let path = PathBuf::from("btree.db");
    let saved_root;
    {
        let mut pager = Pager::open(&vfs, Some(&path), PagerFlags::default()).unwrap();
        let (mut btree, root) = Btree::create_table(&mut pager).unwrap();
        assert_eq!(root, 2);
        pager.begin().unwrap();
        for i in 1..=200i64 {
            btree_insert_row(&mut btree, &mut pager, i, &[Value::Text(format!("row{i}"))]).unwrap();
        }
        saved_root = btree.root_page();
        pager.commit().unwrap();
    }
    {
        let mut pager = Pager::open(&vfs, Some(&path), PagerFlags::default()).unwrap();
        let btree = Btree::new(saved_root, BtreeFlags { intkey: true, blobkey: false });
        let mut cursor = btree.cursor();
        assert!(cursor.first(&mut pager).unwrap());
        let mut count = 0;
        while cursor.next(&mut pager).unwrap() {
            count += 1;
        }
        assert_eq!(count + 1, 200);
    }
}

#[test]
fn index_insert_and_scan() {
    let mut pager = memory_pager();
    let (mut btree, _) = Btree::create_index(&mut pager).unwrap();
    btree_insert_index(&mut btree, &mut pager, &[Value::Integer(10)], 1).unwrap();
    btree_insert_index(&mut btree, &mut pager, &[Value::Integer(20)], 2).unwrap();
    pager.commit().unwrap();
    let mut cursor = btree.cursor();
    assert!(cursor.first(&mut pager).unwrap());
    assert_eq!(cursor.key(), Some(1));
    assert_eq!(cursor.values().unwrap(), vec![Value::Integer(10)]);
    assert!(cursor.next(&mut pager).unwrap());
    assert_eq!(cursor.key(), Some(2));
    assert!(!cursor.next(&mut pager).unwrap());
}

#[test]
fn rows_come_back_in_rowid_order_with_their_records() {
    let mut pager = memory_pager();
    let (mut btree, _) = Btree::create_table(&mut pager).unwrap();
    for i in [5i64, 3, 9, 1, 7] {
        btree_insert_row(&mut btree, &mut pager, i, &[Value::Integer(i * 10)]).unwrap();
    }
    assert_eq!(scan_keys(&btree, &mut pager), vec![1, 3, 5, 7, 9]);
    let mut cursor = btree.cursor();
    assert!(cursor.seek(&mut pager, 6).unwrap());
    assert_eq!(cursor.key(), Some(7));
    assert_eq!(cursor.values().unwrap(), vec![Value::Integer(70)]);
    assert_eq!(cursor.record().unwrap(), encode_record(&[Value::Integer(70)]).as_slice());
    assert!(!cursor.seek(&mut pager, 10).unwrap());
    assert!(cursor.is_eof());
    assert_eq!(cursor.key(), None);
    assert!(!cursor.next(&mut pager).unwrap());
}

#[test]
fn duplicate_rowid_is_refused() {
    let mut pager = memory_pager();
    let (mut btree, _) = Btree::create_table(&mut pager).unwrap();
    btree_insert_row(&mut btree, &mut pager, 4, &[Value::Null]).unwrap();
    let e = btree_insert_row(&mut btree, &mut pager, 4, &[Value::Null]).unwrap_err();
    assert_eq!(e.code(), ResultCode::Constraint);
    assert_eq!(e.message(), "UNIQUE constraint failed");
}

#[test]
fn a_full_leaf_splits_under_a_new_root() {
    let mut pager = memory_pager();
    let (mut btree, root) = Btree::create_table(&mut pager).unwrap();
    for i in 1..=120i64 {
        btree_insert_row(&mut btree, &mut pager, i, &[Value::Blob(vec![1u8; 40])]).unwrap();
    }
    assert_ne!(btree.root_page(), root);
    assert_eq!(scan_keys(&btree, &mut pager), (1..=120i64).collect::<Vec<_>>());
    let mut cursor = btree.cursor();
    assert!(cursor.seek(&mut pager, 100).unwrap());
    assert_eq!(cursor.key(), Some(100));
    assert_eq!(cursor.values().unwrap(), vec![Value::Blob(vec![1u8; 40])]);
}

#[test]
fn delete_and_replace_rows() {
    let mut pager = memory_pager();
    let (mut btree, _) = Btree::create_table(&mut pager).unwrap();
    for i in 1..=3i64 {
        btree_insert_row(&mut btree, &mut pager, i, &[Value::Integer(i)]).unwrap();
    }
    assert!(btree.delete(&mut pager, 2).unwrap());
    assert!(!btree.delete(&mut pager, 2).unwrap());
    assert_eq!(scan_keys(&btree, &mut pager), vec![1, 3]);
    btree.replace(&mut pager, 3, &encode_record(&[Value::Integer(9)])).unwrap();
    btree.replace(&mut pager, 1, &encode_record(&[Value::Text("longer".into())])).unwrap();
    let mut cursor = btree.cursor();
    assert!(cursor.first(&mut pager).unwrap());
    assert_eq!(cursor.values().unwrap(), vec![Value::Text("longer".into())]);
    assert!(cursor.next(&mut pager).unwrap());
    assert_eq!(cursor.values().unwrap(), vec![Value::Integer(9)]);
}

#[test]
fn operations_of_the_wrong_kind_of_tree_fail() {
    let mut pager = memory_pager();
    let (mut table, _) = Btree::create_table(&mut pager).unwrap();
    let (mut index, _) = Btree::create_index(&mut pager).unwrap();
    let e: SqlliteError = table.insert_index(&mut pager, &[1, 2], 1).unwrap_err();
    assert_eq!(e.code(), ResultCode::Internal);
    assert_eq!(e.message(), "insert_index requires index btree");
    assert_eq!(index.insert(&mut pager, 1, &[]).unwrap_err().message(), "use insert_index for index btrees");
    assert_eq!(
        index.delete(&mut pager, 1).unwrap_err().message(),
        "delete by rowid not supported on index btrees"
    );
    assert_eq!(
        index.replace(&mut pager, 1, &[]).unwrap_err().message(),
        "replace not supported on index btrees"
    );
}

#[test]
fn index_entries_sort_by_key_and_refuse_duplicates() {
    let mut pager = memory_pager();
    let (mut index, _) = Btree::create_index(&mut pager).unwrap();
    for (k, rowid) in [(30i64, 3i64), (10, 1), (20, 2)] {
        btree_insert_index(&mut index, &mut pager, &[Value::Integer(k)], rowid).unwrap();
    }
    let e = btree_insert_index(&mut index, &mut pager, &[Value::Integer(10)], 1).unwrap_err();
    assert_eq!(e.code(), ResultCode::Constraint);
    let mut cursor = index.cursor();
    assert!(cursor.first(&mut pager).unwrap());
    let mut seen = vec![(cursor.key().unwrap(), cursor.values().unwrap())];
    while cursor.next(&mut pager).unwrap() {
        seen.push((cursor.key().unwrap(), cursor.values().unwrap()));
    }
    assert_eq!(
        seen,
        vec![
            (1, vec![Value::Integer(10)]),
            (2, vec![Value::Integer(20)]),
            (3, vec![Value::Integer(30)]),
        ]
    );
}

#[test]
fn a_full_index_leaf_splits() {
    let mut pager = memory_pager();
    let (mut index, root) = Btree::create_index(&mut pager).unwrap();
    let key = |k: i64| {
        let mut b = (k as u64).to_be_bytes().to_vec();
        b.extend_from_slice(&[0u8; 40]);
        vec![Value::Blob(b)]
    };
    for k in 0..100i64 {
        btree_insert_index(&mut index, &mut pager, &key(k), k + 1).unwrap();
    }
    assert_ne!(index.root_page(), root);
    let mut cursor = index.cursor();
    assert!(cursor.first(&mut pager).unwrap());
    let mut count = 1;
    assert_eq!(cursor.key(), Some(1));
    while cursor.next(&mut pager).unwrap() {
        count += 1;
        assert_eq!(cursor.key(), Some(count));
        assert_eq!(cursor.values().unwrap(), key(count - 1));
    }
    assert_eq!(count, 100);
}

#[test]
fn index_payload_splits_into_record_and_rowid() {
    let record = encode_record(&[Value::Integer(10)]);
    assert_eq!(record_byte_length(&record).unwrap(), record.len());
    let mut payload = record.clone();
    payload.push(5);
    assert_eq!(split_index_payload(&payload).unwrap(), (record.clone(), 5));
    let mut two_byte = record.clone();
    two_byte.extend_from_slice(&[0x81, 0x00]);
    assert_eq!(split_index_payload(&two_byte).unwrap(), (record.clone(), 128));
    assert_eq!(record_byte_length(&payload).unwrap_err().message(), "malformed record");
    assert_eq!(split_index_payload(&[7]).unwrap_err().message(), "invalid index payload");
}
