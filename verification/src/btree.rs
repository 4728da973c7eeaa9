//! B-tree page layout: where a page's header and cell pointers lie, and the
//! byte layout of the four kinds of cells.
//!
//! A table leaf cell is the rowid and the record length (varints) and the
//! record; an index leaf cell is the payload length and the payload; an
//! interior table cell is the left child page (four bytes, big-endian) and
//! the key; an interior index cell is the left child, the key length and the key.

use vstd::prelude::*;

use vstd::slice::{slice_subrange, slice_to_vec};
use crate::constants::{DATABASE_HEADER_SIZE, ROOT_PAGE};
use crate::error::{is_sql_error, ResultCode, SqlliteError};
use crate::io::{be_u32, read_u32_be, write_u32_be};
use crate::record::append_bytes;
use crate::types::PageNo;
pub use crate::tree::{btree_insert_index, btree_insert_row, Btree, BtreeCursor};
use crate::varint::{
    groups, lemma_groups_below, lemma_varint_at_bound, lemma_varint_roundtrip, read_varint,
    varint_at, varint_bytes, write_varint,
};

verus! {

/// Flags of a b-tree: integer keys (tables) or blob keys (indexes).
#[derive(Debug, Clone, Copy, Default)]
pub struct BtreeFlags {
    pub intkey: bool,
    pub blobkey: bool,
}

/// The four big-endian bytes of `v`.
pub open spec fn be_bytes4(v: u32) -> Seq<u8> {
    seq![
        (v / 0x1000000) as u8,
        ((v / 0x10000) % 256) as u8,
        ((v / 0x100) % 256) as u8,
        (v % 256) as u8,
    ]
}

/// A table leaf cell.
pub open spec fn table_cell(key: nat, record: Seq<u8>) -> Seq<u8> {
    varint_bytes(key) + varint_bytes(record.len()) + record
}

/// An index leaf cell.
pub open spec fn index_cell(payload: Seq<u8>) -> Seq<u8> {
    varint_bytes(payload.len()) + payload
}

/// An interior table cell.
pub open spec fn interior_table_cell(child: u32, key: nat) -> Seq<u8> {
    be_bytes4(child) + varint_bytes(key)
}

/// An interior index cell.
pub open spec fn interior_index_cell(child: u32, key: Seq<u8>) -> Seq<u8> {
    be_bytes4(child) + varint_bytes(key.len()) + key
}

/// Offset of the pointer to leaf cell `index`, the page header starting at `header_offset`.
pub fn leaf_cell_ptr_offset(header_offset: usize, index: usize) -> (o: usize)
    requires
        header_offset + 8 + index * 2 <= usize::MAX,
    ensures
        o == header_offset + 8 + index * 2,
{
    header_offset + 8 + index * 2
}

/// Offset of the pointer to interior cell `index`, the page header starting at `header_offset`.
pub fn interior_cell_ptr_offset(header_offset: usize, index: usize) -> (o: usize)
    requires
        header_offset + 12 + index * 2 <= usize::MAX,
    ensures
        o == header_offset + 12 + index * 2,
{
    header_offset + 12 + index * 2
}

/// Where the b-tree header of page `pgno` starts: after the database header
/// on page 1, at the start of any other page.
pub fn page_header_offset(pgno: PageNo) -> (o: usize)
    ensures
        o == if pgno == ROOT_PAGE {
            DATABASE_HEADER_SIZE
        } else {
            0
        },
{
    if pgno == ROOT_PAGE {
        DATABASE_HEADER_SIZE
    } else {
        0
    }
}

/// Appends the varint of `v`.
fn push_varint(buf: &mut Vec<u8>, v: u64)
    requires
        v < 0x8000000000000000,
    ensures
        final(buf)@ == old(buf)@ + varint_bytes(v as nat),
{
    let mut tmp = [0u8; 9];
    proof {
        lemma_groups_below(v as nat);
    }
    let n = write_varint(v, &mut tmp);
    append_bytes(buf, slice_subrange(tmp.as_slice(), 0, n));
}

/// Appends the four big-endian bytes of `v`.
fn push_be_u32(buf: &mut Vec<u8>, v: u32)
    ensures
        final(buf)@ == old(buf)@ + be_bytes4(v),
{
    let mut tmp = [0u8; 4];
    write_u32_be(&mut tmp, 0, v);
    proof {
        assert(tmp@ =~= be_bytes4(v)) by {
            assert(be_u32(tmp@, 0) == v);
            assert(tmp@[0] == (v / 0x1000000) as u8) by (nonlinear_arith)
                requires
                    tmp@[0] * 0x1000000 + tmp@[1] * 0x10000 + tmp@[2] * 0x100 + tmp@[3] == v,
                    tmp@[0] < 256,
                    tmp@[1] < 256,
                    tmp@[2] < 256,
                    tmp@[3] < 256,
            ;
            assert(tmp@[1] == ((v / 0x10000) % 256) as u8) by (nonlinear_arith)
                requires
                    tmp@[0] * 0x1000000 + tmp@[1] * 0x10000 + tmp@[2] * 0x100 + tmp@[3] == v,
                    tmp@[0] < 256,
                    tmp@[1] < 256,
                    tmp@[2] < 256,
                    tmp@[3] < 256,
            ;
            assert(tmp@[2] == ((v / 0x100) % 256) as u8) by (nonlinear_arith)
                requires
                    tmp@[0] * 0x1000000 + tmp@[1] * 0x10000 + tmp@[2] * 0x100 + tmp@[3] == v,
                    tmp@[0] < 256,
                    tmp@[1] < 256,
                    tmp@[2] < 256,
                    tmp@[3] < 256,
            ;
            assert(tmp@[3] == (v % 256) as u8) by (nonlinear_arith)
                requires
                    tmp@[0] * 0x1000000 + tmp@[1] * 0x10000 + tmp@[2] * 0x100 + tmp@[3] == v,
                    tmp@[0] < 256,
                    tmp@[1] < 256,
                    tmp@[2] < 256,
                    tmp@[3] < 256,
            ;
        }
    }
    append_bytes(buf, tmp.as_slice());
}

/// The table leaf cell of `key` and `record`.
pub fn build_table_cell(key: i64, record: &[u8]) -> (cell: Vec<u8>)
    requires
        key >= 0,
        record@.len() < 0x8000000000000000,
    ensures
        cell@ == table_cell(key as nat, record@),
{
    let mut cell: Vec<u8> = Vec::new();
    push_varint(&mut cell, key as u64);
    push_varint(&mut cell, record.len() as u64);
    append_bytes(&mut cell, record);
    cell
}

/// The index leaf cell of `payload`.
pub fn build_index_cell(payload: &[u8]) -> (cell: Vec<u8>)
    requires
        payload@.len() < 0x8000000000000000,
    ensures
        cell@ == index_cell(payload@),
{
    let mut cell: Vec<u8> = Vec::new();
    push_varint(&mut cell, payload.len() as u64);
    append_bytes(&mut cell, payload);
    cell
}

/// The interior table cell of `child` and `key`.
pub fn build_interior_table_cell(child: PageNo, key: i64) -> (cell: Vec<u8>)
    requires
        key >= 0,
    ensures
        cell@ == interior_table_cell(child, key as nat),
{
    let mut cell: Vec<u8> = Vec::new();
    push_be_u32(&mut cell, child);
    push_varint(&mut cell, key as u64);
    cell
}

/// The interior index cell of `child` and `key`.
pub fn build_interior_index_cell(child: PageNo, key: &[u8]) -> (cell: Vec<u8>)
    requires
        key@.len() < 0x8000000000000000,
    ensures
        cell@ == interior_index_cell(child, key@),
{
    let mut cell: Vec<u8> = Vec::new();
    push_be_u32(&mut cell, child);
    push_varint(&mut cell, key.len() as u64);
    append_bytes(&mut cell, key);
    cell
}

/// Reads the rowid varint of a table leaf cell at `offset`; returns the rowid
/// and the offset after it.
pub fn read_cell_rowid(data: &[u8], offset: usize) -> (r: Result<(i64, usize), SqlliteError>)
    ensures
        match r {
            Ok((rowid, next)) => varint_at(data@, offset as int) matches Some((v, n)) && rowid
                == v as i64 && next == offset + n,
            Err(e) => varint_at(data@, offset as int) is None && is_sql_error(
                e,
                ResultCode::Corrupt,
                "truncated varint"@,
            ),
        },
{
    let (rowid, n) = match read_varint(data, offset) {
        Ok(p) => p,
        Err(e) => return Err(e),
    };
    proof {
        lemma_varint_at_bound(data@, offset as int);
    }
    let _ = data.len();
    Ok((rowid as i64, offset + n))
}

/// Reads an interior table cell at `offset`: the left child and the key.
pub fn read_interior_table_cell(data: &[u8], offset: usize) -> (r: Result<(PageNo, i64), SqlliteError>)
    requires
        offset + 4 <= data@.len(),
    ensures
        match r {
            Ok((child, key)) => child == be_u32(data@, offset as int) && (varint_at(
                data@,
                offset + 4,
            ) matches Some((v, n)) && key == v as i64),
            Err(e) => varint_at(data@, offset + 4) is None && is_sql_error(
                e,
                ResultCode::Corrupt,
                "truncated varint"@,
            ),
        },
{
    let _ = data.len();
    let child = read_u32_be(data, offset);
    let (key, _) = match read_varint(data, offset + 4) {
        Ok(p) => p,
        Err(e) => return Err(e),
    };
    Ok((child, key as i64))
}

/// Reads an interior index cell at `offset`: the left child and the key bytes.
pub fn read_interior_index_cell(data: &[u8], offset: usize) -> (r: Result<(PageNo, Vec<u8>), SqlliteError>)
    requires
        offset + 4 <= data@.len(),
        varint_at(data@, offset + 4) matches Some((len, n)) ==> offset + 4 + n + len
            <= data@.len(),
    ensures
        match r {
            Ok((child, key)) => child == be_u32(data@, offset as int) && (varint_at(
                data@,
                offset + 4,
            ) matches Some((len, n)) && key@ == data@.subrange(
                offset + 4 + n,
                offset + 4 + n + len,
            )),
            Err(e) => varint_at(data@, offset + 4) is None && is_sql_error(
                e,
                ResultCode::Corrupt,
                "truncated varint"@,
            ),
        },
{
    let _ = data.len();
    let child = read_u32_be(data, offset);
    let (len, n) = match read_varint(data, offset + 4) {
        Ok(p) => p,
        Err(e) => return Err(e),
    };
    proof {
        lemma_varint_at_bound(data@, offset + 4);
    }
    let start = offset + 4 + n;
    let end = start + len as usize;
    Ok((child, slice_to_vec(slice_subrange(data, start, end))))
}

/// Reads the payload of an index leaf cell at `offset`.
///
/// Fails with `Corrupt` "truncated index cell" when the payload runs past the
/// end of `data`.
pub fn read_index_payload(data: &[u8], offset: usize) -> (r: Result<Vec<u8>, SqlliteError>)
    requires
        varint_at(data@, offset as int) matches Some((len, n)) ==> offset + n + len <= usize::MAX,
    ensures
        match r {
            Ok(p) => varint_at(data@, offset as int) matches Some((len, n)) && offset + n + len
                <= data@.len() && p@ == data@.subrange(offset + n, offset + n + len),
            Err(e) => match varint_at(data@, offset as int) {
                None => is_sql_error(e, ResultCode::Corrupt, "truncated varint"@),
                Some((len, n)) => offset + n + len > data@.len() && is_sql_error(
                    e,
                    ResultCode::Corrupt,
                    "truncated index cell"@,
                ),
            },
        },
{
    let (payload_len, n) = match read_varint(data, offset) {
        Ok(p) => p,
        Err(e) => return Err(e),
    };
    proof {
        lemma_varint_at_bound(data@, offset as int);
    }
    let start = offset + n;
    let end = start + payload_len as usize;
    if end > data.len() {
        return Err(SqlliteError::sql(ResultCode::Corrupt, "truncated index cell"));
    }
    Ok(slice_to_vec(slice_subrange(data, start, end)))
}

proof fn lemma_be_bytes4(v: u32)
    ensures
        be_u32(be_bytes4(v), 0) == v,
{
    let b = be_bytes4(v);
    assert(b[0] as int == v / 0x1000000);
    assert((v / 0x1000000) * 0x1000000 + ((v / 0x10000) % 256) * 0x10000 + ((v / 0x100) % 256)
        * 0x100 + v % 256 == v) by (nonlinear_arith);
}

/// The varint written at `offset` in `data` reads back, for every 64-bit value.
proof fn lemma_varint_in(v: nat, data: Seq<u8>, offset: int)
    requires
        v <= u64::MAX,
        0 <= offset,
        offset + varint_bytes(v).len() <= data.len(),
        data.subrange(offset, offset + varint_bytes(v).len()) == varint_bytes(v),
    ensures
        varint_at(data, offset) == Some((v, groups(v))),
        groups(v) == varint_bytes(v).len(),
{
    let g = varint_bytes(v).len() as int;
    let rest = data.subrange(offset + g, data.len() as int);
    assert(data.subrange(offset, data.len() as int) =~= varint_bytes(v) + rest);
    lemma_varint_roundtrip(v, rest);
}

/// Reading a table leaf cell placed at `offset` gives back its rowid and its
/// record length, and the record follows them (rowid and length 64-bit values).
pub proof fn lemma_table_cell_roundtrip(key: nat, record: Seq<u8>, data: Seq<u8>, offset: int)
    requires
        key <= u64::MAX,
        record.len() <= u64::MAX,
        0 <= offset,
        offset + table_cell(key, record).len() <= data.len(),
        data.subrange(offset, offset + table_cell(key, record).len()) == table_cell(key, record),
    ensures
        varint_at(data, offset) == Some((key, groups(key))),
        varint_at(data, offset + groups(key)) == Some((record.len(), groups(record.len()))),
        data.subrange(
            offset + groups(key) + groups(record.len()),
            offset + groups(key) + groups(record.len()) + record.len(),
        ) == record,
{
    let c = table_cell(key, record);
    let gk = varint_bytes(key).len() as int;
    let gl = varint_bytes(record.len()).len() as int;
    let sub = data.subrange(offset, offset + c.len());
    assert(data.subrange(offset, offset + gk) =~= sub.subrange(0, gk));
    assert(sub.subrange(0, gk) =~= varint_bytes(key));
    lemma_varint_in(key, data, offset);
    assert(data.subrange(offset + gk, offset + gk + gl) =~= sub.subrange(gk, gk + gl));
    assert(sub.subrange(gk, gk + gl) =~= varint_bytes(record.len()));
    lemma_varint_in(record.len(), data, offset + gk);
    assert(data.subrange(offset + gk + gl, offset + gk + gl + record.len()) =~= sub.subrange(
        gk + gl,
        c.len() as int,
    ));
}

/// Reading an index leaf cell placed at `offset` gives back its payload
/// (shorter than `2^56` bytes).
pub proof fn lemma_index_cell_roundtrip(payload: Seq<u8>, data: Seq<u8>, offset: int)
    requires
        payload.len() < 0x100000000000000,
        0 <= offset,
        offset + index_cell(payload).len() <= data.len(),
        data.subrange(offset, offset + index_cell(payload).len()) == index_cell(payload),
    ensures
        varint_at(data, offset) == Some((payload.len(), groups(payload.len()))),
        data.subrange(
            offset + groups(payload.len()),
            offset + groups(payload.len()) + payload.len(),
        ) == payload,
{
    let c = index_cell(payload);
    let g = varint_bytes(payload.len()).len() as int;
    let sub = data.subrange(offset, offset + c.len());
    assert(data.subrange(offset, offset + g) =~= sub.subrange(0, g));
    assert(sub.subrange(0, g) =~= varint_bytes(payload.len()));
    lemma_varint_in(payload.len(), data, offset);
    assert(data.subrange(offset + g, offset + g + payload.len()) =~= sub.subrange(g, c.len() as int));
}

/// Reading an interior table cell placed at `offset` gives back its child
/// page and its key (below `2^56`).
pub proof fn lemma_interior_table_cell_roundtrip(child: u32, key: nat, data: Seq<u8>, offset: int)
    requires
        key < 0x100000000000000,
        0 <= offset,
        offset + interior_table_cell(child, key).len() <= data.len(),
        data.subrange(offset, offset + interior_table_cell(child, key).len()) == interior_table_cell(
            child,
            key,
        ),
    ensures
        be_u32(data, offset) == child,
        varint_at(data, offset + 4) == Some((key, groups(key))),
{
    let c = interior_table_cell(child, key);
    let g = varint_bytes(key).len() as int;
    let sub = data.subrange(offset, offset + c.len());
    lemma_be_bytes4(child);
    assert(sub.subrange(0, 4) =~= be_bytes4(child));
    assert(data[offset] == sub[0] && data[offset + 1] == sub[1] && data[offset + 2] == sub[2]
        && data[offset + 3] == sub[3]);
    assert(data.subrange(offset + 4, offset + 4 + g) =~= sub.subrange(4, 4 + g));
    assert(sub.subrange(4, 4 + g) =~= varint_bytes(key));
    lemma_varint_in(key, data, offset + 4);
}

/// Reading an interior index cell placed at `offset` gives back its child
/// page and its key (shorter than `2^56` bytes).
pub proof fn lemma_interior_index_cell_roundtrip(child: u32, key: Seq<u8>, data: Seq<u8>, offset: int)
    requires
        key.len() < 0x100000000000000,
        0 <= offset,
        offset + interior_index_cell(child, key).len() <= data.len(),
        data.subrange(offset, offset + interior_index_cell(child, key).len()) == interior_index_cell(
            child,
            key,
        ),
    ensures
        be_u32(data, offset) == child,
        varint_at(data, offset + 4) == Some((key.len(), groups(key.len()))),
        data.subrange(
            offset + 4 + groups(key.len()),
            offset + 4 + groups(key.len()) + key.len(),
        ) == key,
{
    let c = interior_index_cell(child, key);
    let g = varint_bytes(key.len()).len() as int;
    let sub = data.subrange(offset, offset + c.len());
    lemma_be_bytes4(child);
    assert(sub.subrange(0, 4) =~= be_bytes4(child));
    assert(data[offset] == sub[0] && data[offset + 1] == sub[1] && data[offset + 2] == sub[2]
        && data[offset + 3] == sub[3]);
    assert(data.subrange(offset + 4, offset + 4 + g) =~= sub.subrange(4, 4 + g));
    assert(sub.subrange(4, 4 + g) =~= varint_bytes(key.len()));
    lemma_varint_in(key.len(), data, offset + 4);
    assert(data.subrange(offset + 4 + g, offset + 4 + g + key.len()) =~= sub.subrange(
        4 + g,
        c.len() as int,
    ));
}

} // verus!
