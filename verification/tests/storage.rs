use sqllite::btree::{
    build_index_cell, build_interior_index_cell, build_interior_table_cell, build_table_cell,
    interior_cell_ptr_offset, leaf_cell_ptr_offset, page_header_offset, read_cell_rowid,
    read_index_payload, read_interior_index_cell, read_interior_table_cell, BtreeFlags,
};
use sqllite::error::ResultCode;
use sqllite::header::DatabaseHeader;
use sqllite::io::{read_u16_be, read_u32_be, write_u16_be, write_u32_be, MemoryFile, VfsFile};

#[test]
fn header_write_then_parse() {
    let mut h = DatabaseHeader::new(4096);
    h.database_size = 7;
    h.schema_cookie = 3;
    let mut page = vec![0u8; 4096];
    h.write(&mut page);
    assert_eq!(&page[0..16], b"SQLite format 3\0");
    assert_eq!(&page[16..18], &[0x10, 0x00]);
    let p = DatabaseHeader::parse(&page).unwrap();
    assert_eq!(p.page_size, 4096);
    assert_eq!(p.database_size, 7);
    assert_eq!(p.schema_cookie, 3);
    assert_eq!(p.usable_page_size(), 4096);
}

#[test]
fn header_page_size_65536_is_stored_as_one() {
    let h = DatabaseHeader::new(65536);
    let mut page = vec![0u8; 100];
    h.write(&mut page);
    assert_eq!(&page[16..18], &[0x00, 0x01]);
    assert_eq!(DatabaseHeader::parse(&page).unwrap().page_size, 65536);
}

#[test]
fn header_parse_errors() {
    let e = DatabaseHeader::parse(&[0u8; 50]).unwrap_err();
    assert_eq!(e.code(), ResultCode::Corrupt);
    assert_eq!(e.message(), "database header too short");
    let e = DatabaseHeader::parse(&[0u8; 100]).unwrap_err();
    assert_eq!(e.code(), ResultCode::NotADb);
    let mut page = vec![0u8; 100];
    DatabaseHeader::new(4096).write(&mut page);
    page[16] = 0x03;
    page[17] = 0x00;
    let e = DatabaseHeader::parse(&page).unwrap_err();
    assert_eq!(e.message(), "invalid page size");
}

#[test]
fn big_endian_helpers() {
    let mut buf = [0u8; 6];
    write_u16_be(&mut buf, 0, 0x1234);
    write_u32_be(&mut buf, 2, 0xdeadbeef);
    assert_eq!(buf, [0x12, 0x34, 0xde, 0xad, 0xbe, 0xef]);
    assert_eq!(read_u16_be(&buf, 0), 0x1234);
    assert_eq!(read_u32_be(&buf, 2), 0xdeadbeef);
}

#[test]
fn memory_file_reads_what_was_written() {
    let mut f = MemoryFile::new();
    assert_eq!(f.write_at(4, &[1, 2, 3]).unwrap(), 3);
    assert_eq!(f.data(), &[0, 0, 0, 0, 1, 2, 3]);
    let mut buf = [9u8; 5];
    assert_eq!(f.read_at(5, &mut buf).unwrap(), 2);
    assert_eq!(&buf[..2], &[2, 3]);
    assert_eq!(f.read_at(10, &mut buf).unwrap(), 0);
    f.truncate(2).unwrap();
    assert_eq!(f.size().unwrap(), 2);
    assert!(f.path().is_none());
}

#[test]
fn cell_layouts() {
    assert_eq!(build_table_cell(5, &[9, 9]), vec![5, 2, 9, 9]);
    assert_eq!(build_index_cell(&[1, 2, 3]), vec![3, 1, 2, 3]);
    assert_eq!(build_interior_table_cell(0x01020304, 300), vec![1, 2, 3, 4, 0x82, 0x2c]);
    assert_eq!(build_interior_index_cell(2, &[7]), vec![0, 0, 0, 2, 1, 7]);
    assert_eq!(page_header_offset(1), 100);
    assert_eq!(page_header_offset(2), 0);
    assert_eq!(leaf_cell_ptr_offset(100, 3), 114);
    assert_eq!(interior_cell_ptr_offset(0, 3), 18);
    let f = BtreeFlags { intkey: true, blobkey: false };
    assert!(f.intkey && !f.blobkey);
}

#[test]
fn cells_read_back() {
    let mut page = vec![0xaa, 0xbb];
    page.extend(build_table_cell(1000, b"rec"));
    let (rowid, next) = read_cell_rowid(&page, 2).unwrap();
    assert_eq!(rowid, 1000);
    assert_eq!(next, 4);

    let cell = build_interior_table_cell(9, 77);
    assert_eq!(read_interior_table_cell(&cell, 0).unwrap(), (9, 77));

    let cell = build_interior_index_cell(12, b"key");
    assert_eq!(read_interior_index_cell(&cell, 0).unwrap(), (12, b"key".to_vec()));

    let cell = build_index_cell(b"payload");
    assert_eq!(read_index_payload(&cell, 0).unwrap(), b"payload".to_vec());
}

#[test]
fn truncated_cells_are_corrupt() {
    let e = read_index_payload(&[5, 1, 2], 0).unwrap_err();
    assert_eq!(e.code(), ResultCode::Corrupt);
    assert_eq!(e.message(), "truncated index cell");
    assert_eq!(read_cell_rowid(&[0x80], 0).unwrap_err().message(), "truncated varint");
    assert_eq!(
        read_interior_table_cell(&[0, 0, 0, 1], 0).unwrap_err().message(),
        "truncated varint"
    );
}
