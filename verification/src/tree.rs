//! B-tree operations over the pages of a pager: table b-trees keyed by rowid
//! and index b-trees keyed by payload bytes, with page splits.
//!
//! A page's b-tree header starts at `header_offset` (100 on page 1, else 0):
//! the page type at `+0`, the cell count at `+3`, the start of the cell
//! content area at `+5`, and on interior pages the right-most child at `+8`.
//! The cell pointers follow the header (at `+8` on leaf pages, `+12` on
//! interior pages), in key order.

use vstd::prelude::*;
use vstd::multiset::Multiset;

use vstd::slice::{slice_subrange, slice_to_vec};
use crate::btree::{
    build_interior_index_cell, build_interior_table_cell, build_table_cell,
    interior_cell_ptr_offset, leaf_cell_ptr_offset, page_header_offset, read_cell_rowid,
    read_index_payload, read_interior_index_cell, read_interior_table_cell, BtreeFlags,
};
use crate::constants::{
    DATABASE_HEADER_SIZE, PAGE_TYPE_INTERIOR_INDEX, PAGE_TYPE_INTERIOR_TABLE,
    PAGE_TYPE_LEAF_INDEX, PAGE_TYPE_LEAF_TABLE, ROOT_PAGE,
};
use crate::error::{is_sql_error, ResultCode, SqlliteError};
use crate::header::valid_page_size;
use crate::io::{
    be_u16, be_u32, overwrite, read_u16_be, read_u32_be, write_u16_be, write_u32_be, VfsFile,
};
use crate::pager::{lemma_cached_pages, page_offset, Page, Pager};
use crate::record::{
    decode_record, decoded_record, encode_record, record_byte_length, record_length, serial_type_of,
    views,
};
use crate::types::{Value, ValueView};
use crate::types::PageNo;
use crate::varint::{lemma_varint_at_bound, read_varint, varint_at};

verus! {

/// The number of cells on the page.
pub open spec fn page_cell_count(d: Seq<u8>, ho: int) -> int {
    be_u16(d, ho + 3)
}

/// Where the cell content area of the page starts.
pub open spec fn page_content_start(d: Seq<u8>, ho: int) -> int {
    be_u16(d, ho + 5)
}

/// The right-most child of an interior page.
pub open spec fn page_right_child(d: Seq<u8>, ho: int) -> int {
    be_u32(d, ho + 8)
}

/// Slot `i` of the cell pointer array that starts at `base`.
pub open spec fn ptr_at(d: Seq<u8>, base: int, i: int) -> int {
    be_u16(d, base + 2 * i)
}

/// The pointer to leaf cell `i`.
pub open spec fn leaf_ptr(d: Seq<u8>, ho: int, i: int) -> int {
    ptr_at(d, ho + 8, i)
}

/// The pointer to interior cell `i`.
pub open spec fn interior_ptr(d: Seq<u8>, ho: int, i: int) -> int {
    ptr_at(d, ho + 12, i)
}

/// The leaf header and its cell pointers lie within the page.
pub open spec fn leaf_ptrs_fit(d: Seq<u8>, ho: int) -> bool {
    &&& 0 <= ho
    &&& ho + 8 <= d.len()
    &&& ho + 8 + 2 * page_cell_count(d, ho) <= d.len()
}

/// The interior header and its cell pointers lie within the page, and every
/// interior cell starts with its four-byte child inside the page.
pub open spec fn interior_ptrs_fit(d: Seq<u8>, ho: int) -> bool {
    &&& 0 <= ho
    &&& ho + 12 <= d.len()
    &&& ho + 12 + 2 * page_cell_count(d, ho) <= d.len()
    &&& forall|i: int|
        0 <= i < page_cell_count(d, ho) ==> #[trigger] interior_ptr(d, ho, i) + 4 <= d.len()
}

/// The rowid of leaf cell `i`, when its varint can be read.
pub open spec fn leaf_rowid(d: Seq<u8>, ho: int, i: int) -> Option<i64> {
    match varint_at(d, leaf_ptr(d, ho, i)) {
        Some((v, _)) => Some(v as i64),
        None => None,
    }
}

/// The key of interior table cell `i`, when its varint can be read.
pub open spec fn interior_key(d: Seq<u8>, ho: int, i: int) -> Option<i64> {
    match varint_at(d, interior_ptr(d, ho, i) + 4) {
        Some((v, _)) => Some(v as i64),
        None => None,
    }
}

/// The left child of interior cell `i`.
pub open spec fn interior_child(d: Seq<u8>, ho: int, i: int) -> int {
    be_u32(d, interior_ptr(d, ho, i))
}

/// The key of interior cell `j` can be read and lies below `key`.
pub open spec fn key_below(d: Seq<u8>, ho: int, j: int, key: i64) -> bool {
    match interior_key(d, ho, j) {
        Some(k) => k < key,
        None => false,
    }
}

/// The keys of interior cells `0..n` can be read and all lie below `key`.
pub open spec fn keys_below(d: Seq<u8>, ho: int, n: int, key: i64) -> bool {
    forall|j: int| 0 <= j < n ==> #[trigger] key_below(d, ho, j, key)
}

/// The rowid of leaf cell `j` can be read and differs from `key`.
pub open spec fn rowid_differs(d: Seq<u8>, ho: int, j: int, key: i64) -> bool {
    match leaf_rowid(d, ho, j) {
        Some(k) => k != key,
        None => false,
    }
}

/// The child to follow for `key` on an interior table page: that of the
/// first cell whose key is at least `key`, else the right-most child.
pub open spec fn is_child_for_key(d: Seq<u8>, ho: int, key: i64, c: int) -> bool {
    ||| exists|i: int|
        #![trigger interior_key(d, ho, i)]
        0 <= i < page_cell_count(d, ho) && keys_below(d, ho, i, key) && (interior_key(
            d,
            ho,
            i,
        ) matches Some(k) && key <= k) && c == interior_child(d, ho, i)
    ||| keys_below(d, ho, page_cell_count(d, ho), key) && c == page_right_child(d, ho)
}

/// Some cell among the first `n` has a key varint that cannot be read.
pub open spec fn some_interior_key_unreadable(d: Seq<u8>, ho: int, n: int) -> bool {
    exists|i: int| 0 <= i < n && #[trigger] interior_key(d, ho, i) is None
}

/// The rowid of leaf cell `j` can be read and is below `key`.
pub open spec fn rowid_below(d: Seq<u8>, ho: int, j: int, key: i64) -> bool {
    leaf_rowid(d, ho, j) matches Some(v) && v < key
}

/// Some leaf cell among the first `n` has a rowid varint that cannot be read.
pub open spec fn some_rowid_unreadable(d: Seq<u8>, ho: int, n: int) -> bool {
    exists|i: int| 0 <= i < n && #[trigger] leaf_rowid(d, ho, i) is None
}

/// The rowid of leaf cell `j` can be read and is at most `key`.
pub open spec fn rowid_at_most(d: Seq<u8>, ho: int, j: int, key: i64) -> bool {
    match leaf_rowid(d, ho, j) {
        Some(k) => k <= key,
        None => false,
    }
}

/// The rowid of leaf cell `j` can be read and is greater than `key`.
pub open spec fn rowid_above(d: Seq<u8>, ho: int, j: int, key: i64) -> bool {
    match leaf_rowid(d, ho, j) {
        Some(k) => key < k,
        None => false,
    }
}

/// The key of interior cell `j` can be read and is at least `key`.
pub open spec fn key_at_least(d: Seq<u8>, ho: int, j: int, key: i64) -> bool {
    match interior_key(d, ho, j) {
        Some(k) => key <= k,
        None => false,
    }
}

/// Slot `idx` is where a leaf cell of rowid `key` goes: after every cell
/// whose rowid is at most `key`, before the first one above it.
pub open spec fn leaf_insert_slot(d: Seq<u8>, ho: int, key: i64, idx: int) -> bool {
    &&& 0 <= idx <= page_cell_count(d, ho)
    &&& forall|j: int| 0 <= j < idx ==> #[trigger] rowid_at_most(d, ho, j, key)
    &&& idx < page_cell_count(d, ho) ==> rowid_above(d, ho, idx, key)
}

/// Slot `idx` is where an interior cell of key `key` goes: after every cell
/// whose key is below `key`, before the first one at least `key`.
pub open spec fn interior_insert_slot(d: Seq<u8>, ho: int, key: i64, idx: int) -> bool {
    &&& 0 <= idx <= page_cell_count(d, ho)
    &&& keys_below(d, ho, idx, key)
    &&& idx < page_cell_count(d, ho) ==> key_at_least(d, ho, idx, key)
}

/// A cell of `len` bytes and one more pointer (in the array at `base`) do not
/// fit between the pointer array and the cell content area.
pub open spec fn no_room(d: Seq<u8>, ho: int, base: int, len: int) -> bool {
    page_content_start(d, ho) - len < base + 2 * (page_cell_count(d, ho) + 1) + 1
}

/// `d2` is `d` with `cell` put just below the cell content area and its
/// pointer put at slot `idx` of the array at `base`, the later pointers moved
/// up one slot, and the cell count and content start updated; no other byte
/// changes.
pub open spec fn placed(d: Seq<u8>, d2: Seq<u8>, ho: int, base: int, idx: int, cell: Seq<u8>) -> bool {
    let n = page_cell_count(d, ho);
    let cs = page_content_start(d, ho);
    let cs2 = cs - cell.len();
    &&& d2.len() == d.len()
    &&& page_cell_count(d2, ho) == n + 1
    &&& page_content_start(d2, ho) == cs2
    &&& d2.subrange(cs2, cs) == cell
    &&& forall|j: int| 0 <= j < idx ==> #[trigger] ptr_at(d2, base, j) == ptr_at(d, base, j)
    &&& ptr_at(d2, base, idx) == cs2
    &&& forall|j: int| idx < j <= n ==> #[trigger] ptr_at(d2, base, j) == ptr_at(d, base, j - 1)
    &&& forall|k: int|
        0 <= k < d.len() && !(ho + 3 <= k < ho + 7) && !(base <= k < base + 2 * (n + 1)) && !(
        cs2 <= k < cs) ==> #[trigger] d2[k] == d[k]
}

/// `d2` is page `d` with the cell pointer at slot `idx` of the pointer array
/// at `base` taken out: the later pointers move down one slot, the cell count
/// drops by one, and every other byte stays.
pub open spec fn unplaced(d: Seq<u8>, d2: Seq<u8>, ho: int, base: int, idx: int) -> bool {
    let n = page_cell_count(d, ho);
    &&& d2.len() == d.len()
    &&& page_cell_count(d2, ho) == n - 1
    &&& forall|j: int| 0 <= j < idx ==> #[trigger] ptr_at(d2, base, j) == ptr_at(d, base, j)
    &&& forall|j: int| idx <= j < n - 1 ==> #[trigger] ptr_at(d2, base, j) == ptr_at(d, base, j + 1)
    &&& forall|k: int|
        0 <= k < d.len() && !(ho + 3 <= k < ho + 5) && !(base <= k < base + 2 * (n - 1))
            ==> #[trigger] d2[k] == d[k]
}

/// A row placed on a table leaf reads back: after `cell_placed` puts the
/// cell of rowid `key` and record `record` on leaf `pgno`, a cell of that
/// page has rowid `key` and payload `record`.
pub proof fn lemma_placed_row_reads_back<F: VfsFile>(
    before: &Pager<F>,
    after: &Pager<F>,
    pgno: PageNo,
    key: i64,
    record: Seq<u8>,
)
    requires
        key >= 0,
        record.len() <= u64::MAX,
        leaf_takes_cell(before, pgno, crate::btree::table_cell(key as nat, record), key),
        cell_placed(before, after, pgno, crate::btree::table_cell(key as nat, record), key),
    ensures
        ({
            let d2 = page_bytes(after, pgno);
            let ho = page_header_offset_of(pgno);
            exists|i: int|
                0 <= i < page_cell_count(d2, ho) && #[trigger] leaf_rowid(d2, ho, i) == Some(key)
                    && leaf_table_payload(d2, ho, i) == Some(record)
        }),
{
    let cell = crate::btree::table_cell(key as nat, record);
    let d = page_bytes(before, pgno);
    let d2 = page_bytes(after, pgno);
    let ho = page_header_offset_of(pgno);
    let idx = choose|idx: int|
        leaf_insert_slot(d, ho, key, idx) && #[trigger] placed(d, d2, ho, ho + 8, idx, cell);
    let cs = page_content_start(d, ho);
    let cs2 = cs - cell.len();
    assert(d2.subrange(cs2, cs) == cell);
    crate::btree::lemma_table_cell_roundtrip(key as nat, record, d2, cs2);
    assert(leaf_ptr(d2, ho, idx) == cs2);
    assert(leaf_rowid(d2, ho, idx) == Some(key));
}

/// Puts `cell` at `new_cs`, just below the cell content area, and its pointer
/// at slot `idx` of the pointer array at `base`, moving the later pointers up
/// one slot; then records the new content start and cell count.
fn place_cell(
    data: &mut Vec<u8>,
    ho: usize,
    base: usize,
    count: usize,
    idx: usize,
    new_cs: usize,
    cell: &[u8],
)
    requires
        ho + 8 <= base,
        idx <= count,
        count == page_cell_count(old(data)@, ho as int),
        base + 2 * (count + 1) < new_cs,
        new_cs + cell@.len() == page_content_start(old(data)@, ho as int),
        page_content_start(old(data)@, ho as int) <= old(data)@.len(),
    ensures
        placed(old(data)@, final(data)@, ho as int, base as int, idx as int, cell@),
{
    let _ = data.len();
    let ghost d0 = data@;
    let ghost cs = page_content_start(d0, ho as int);
    let len = cell.len();
    let mut t: usize = 0;
    while t < len
        invariant
            data@.len() == d0.len(),
            t <= len,
            len == cell@.len(),
            new_cs + len == cs,
            cs <= d0.len(),
            d0.len() <= usize::MAX,
            forall|k: int|
                0 <= k < d0.len() && !(new_cs <= k < new_cs + t) ==> #[trigger] data@[k] == d0[k],
            forall|k: int| new_cs <= k < new_cs + t ==> #[trigger] data@[k] == cell@[k - new_cs],
        decreases len - t,
    {
        data.set(new_cs + t, cell[t]);
        t = t + 1;
    }
    let ghost d1 = data@;
    let mut j: usize = count;
    while j > idx
        invariant
            idx <= j <= count,
            data@.len() == d0.len(),
            base + 2 * (count + 1) < new_cs,
            new_cs <= d0.len(),
            forall|k: int|
                0 <= k < d0.len() && !(base + 2 * (j + 1) <= k < base + 2 * (count + 1))
                    ==> #[trigger] data@[k] == d1[k],
            forall|s: int| j < s <= count ==> #[trigger] ptr_at(data@, base as int, s) == ptr_at(d1, base as int, s - 1),
        decreases j - idx,
    {
        j = j - 1;
        let p = read_u16_be(data.as_slice(), base + 2 * j);
        assert(p == ptr_at(d1, base as int, j as int));
        let ghost before = data@;
        write_u16_be(data.as_mut_slice(), base + 2 * (j + 1), p);
        assert(ptr_at(data@, base as int, j + 1) == ptr_at(d1, base as int, j as int));
        assert forall|s: int| j < s <= count implies #[trigger] ptr_at(data@, base as int, s)
            == ptr_at(d1, base as int, s - 1) by {
            if s > j + 1 {
                assert(data@[base + 2 * s] == before[base + 2 * s]);
                assert(data@[base + 2 * s + 1] == before[base + 2 * s + 1]);
                assert(ptr_at(before, base as int, s) == ptr_at(d1, base as int, s - 1));
            }
        }
    }
    let ghost d2 = data@;
    write_u16_be(data.as_mut_slice(), base + 2 * idx, new_cs as u16);
    let ghost d3 = data@;
    write_u16_be(data.as_mut_slice(), ho + 5, new_cs as u16);
    let ghost d4 = data@;
    write_u16_be(data.as_mut_slice(), ho + 3, (count + 1) as u16);
    proof {
        let d5 = data@;
        assert forall|k: int|
            0 <= k < d0.len() && !(ho + 3 <= k < ho + 7) && !(base <= k < base + 2 * (count + 1))
                && !(new_cs <= k < cs) implies #[trigger] d5[k] == d0[k] by {
            assert(d4[k] == d3[k]);
            assert(d3[k] == d2[k]);
            assert(d2[k] == d1[k]);
        }
        assert forall|s: int| 0 <= s < idx implies #[trigger] ptr_at(d5, base as int, s) == ptr_at(d0, base as int, s) by {
            assert(d5[base + 2 * s] == d0[base + 2 * s]);
            assert(d5[base + 2 * s + 1] == d0[base + 2 * s + 1]);
        }
        assert forall|s: int| idx < s <= count implies #[trigger] ptr_at(d5, base as int, s) == ptr_at(d0, base as int, s - 1) by {
            assert(ptr_at(d2, base as int, s) == ptr_at(d1, base as int, s - 1));
            assert(d5[base + 2 * s] == d2[base + 2 * s]);
            assert(d5[base + 2 * s + 1] == d2[base + 2 * s + 1]);
            assert(d1[base + 2 * (s - 1)] == d0[base + 2 * (s - 1)]);
            assert(d1[base + 2 * (s - 1) + 1] == d0[base + 2 * (s - 1) + 1]);
        }
        assert(ptr_at(d5, base as int, idx as int) == new_cs) by {
            assert(d5[base + 2 * idx] == d3[base + 2 * idx]);
            assert(d5[base + 2 * idx + 1] == d3[base + 2 * idx + 1]);
        }
        assert(page_content_start(d5, ho as int) == new_cs) by {
            assert(d5[ho + 5] == d4[ho + 5]);
            assert(d5[ho + 6] == d4[ho + 6]);
        }
        assert(d5.subrange(new_cs as int, cs) =~= cell@) by {
            assert forall|k: int| 0 <= k < len implies d5[new_cs + k] == cell@[k] by {
                assert(d5[new_cs + k] == d1[new_cs + k]);
            }
        }
    }
}

/// The total length of `cells[i..]`.
pub open spec fn tail_len(cells: Seq<Seq<u8>>, i: int) -> int
    decreases cells.len() - i,
{
    if i < 0 || i >= cells.len() {
        0
    } else {
        cells[i].len() + tail_len(cells, i + 1)
    }
}

/// The views of the cells.
pub open spec fn cell_views(cells: Seq<Vec<u8>>) -> Seq<Seq<u8>> {
    cells.map_values(|c: Vec<u8>| c@)
}

/// `d2` is `d` with its cells replaced by `cells`: packed at the end of the
/// page in order, the last cell last, their pointers in the array at
/// `base`, the cell count and content start set and the fragment and
/// free-block fields cleared; no other byte changes.
pub open spec fn laid_out(d: Seq<u8>, d2: Seq<u8>, ho: int, base: int, cells: Seq<Seq<u8>>) -> bool {
    let n = cells.len() as int;
    let end = d.len() as int;
    &&& d2.len() == d.len()
    &&& d2[ho + 1] == 0 && d2[ho + 2] == 0 && d2[ho + 7] == 0
    &&& page_cell_count(d2, ho) == n % 65536
    &&& page_content_start(d2, ho) == (end - tail_len(cells, 0)) % 65536
    &&& forall|j: int| 0 <= j < n ==> #[trigger] ptr_at(d2, base, j) == (end - tail_len(cells, j)) % 65536
    &&& forall|j: int|
        0 <= j < n ==> d2.subrange(end - tail_len(cells, j), end - tail_len(cells, j) + cells[j].len())
            == #[trigger] cells[j]
    &&& forall|k: int|
        0 <= k < d.len() && !(ho + 1 <= k < base + 2 * n) && !(end - tail_len(cells, 0) <= k
            < end) ==> #[trigger] d2[k] == d[k]
}

proof fn lemma_tail_len_step(cells: Seq<Seq<u8>>, i: int)
    requires
        0 <= i < cells.len(),
    ensures
        tail_len(cells, i) == cells[i].len() + tail_len(cells, i + 1),
        tail_len(cells, i) >= 0,
{
    lemma_tail_len_nonneg(cells, i + 1);
}

proof fn lemma_tail_len_nonneg(cells: Seq<Seq<u8>>, i: int)
    ensures
        tail_len(cells, i) >= 0,
    decreases cells.len() - i,
{
    if 0 <= i < cells.len() {
        lemma_tail_len_nonneg(cells, i + 1);
    }
}

proof fn lemma_tail_len_mono(cells: Seq<Seq<u8>>, a: int, b: int)
    requires
        0 <= a <= b <= cells.len(),
    ensures
        tail_len(cells, a) >= tail_len(cells, b),
    decreases b - a,
{
    lemma_tail_len_nonneg(cells, b);
    if a < b {
        lemma_tail_len_mono(cells, a + 1, b);
        lemma_tail_len_step(cells, a);
    }
}

/// Copies `src` into `data` at `at`.
fn copy_bytes(data: &mut Vec<u8>, at: usize, src: &[u8])
    requires
        at + src@.len() <= old(data)@.len(),
    ensures
        final(data)@.len() == old(data)@.len(),
        final(data)@.subrange(at as int, at + src@.len()) == src@,
        forall|k: int|
            0 <= k < old(data)@.len() && !(at <= k < at + src@.len()) ==> #[trigger] final(data)@[k]
                == old(data)@[k],
{
    let _ = data.len();
    let ghost d0 = data@;
    let len = src.len();
    let mut t: usize = 0;
    while t < len
        invariant
            data@.len() == d0.len(),
            d0.len() <= usize::MAX,
            t <= len,
            len == src@.len(),
            at + len <= d0.len(),
            forall|k: int| 0 <= k < d0.len() && !(at <= k < at + t) ==> #[trigger] data@[k] == d0[k],
            forall|k: int| at <= k < at + t ==> #[trigger] data@[k] == src@[k - at],
        decreases len - t,
    {
        data.set(at + t, src[t]);
        t = t + 1;
    }
    assert(data@.subrange(at as int, at + len) =~= src@);
}

/// Packs `cells` at the end of the page, in order, writing their pointers
/// into the array at `base`, and sets the cell count and content start.
fn lay_out_cells(data: &mut Vec<u8>, ho: usize, base: usize, cells: &[Vec<u8>])
    requires
        ho + 8 <= base,
        base + 2 * cells@.len() + tail_len(cell_views(cells@), 0) <= old(data)@.len(),
    ensures
        laid_out(old(data)@, final(data)@, ho as int, base as int, cell_views(cells@)),
        forall|k: int| ho + 8 <= k < base ==> #[trigger] final(data)@[k] == old(data)@[k],
{
    let ghost d0 = data@;
    let ghost cv = cell_views(cells@);
    let ghost end = d0.len() as int;
    let page_size = data.len();
    let count = cells.len();
    proof {
        lemma_tail_len_nonneg(cv, 0);
    }
    data.set(ho + 1, 0);
    data.set(ho + 2, 0);
    let ghost da = data@;
    write_u16_be(data.as_mut_slice(), ho + 3, count as u16);
    let ghost db = data@;
    data.set(ho + 7, 0);
    let ghost d1 = data@;
    proof {
        assert(d1[ho + 1] == 0 && d1[ho + 2] == 0 && d1[ho + 7] == 0) by {
            assert(db[ho + 1] == da[ho + 1]);
            assert(db[ho + 2] == da[ho + 2]);
        }
        assert(page_cell_count(d1, ho as int) == (count as u16)) by {
            assert(d1[ho + 3] == db[ho + 3]);
            assert(d1[ho + 4] == db[ho + 4]);
        }
        assert forall|k: int| 0 <= k < end && !(ho + 1 <= k < ho + 8) implies d1[k] == d0[k] by {
            assert(db[k] == da[k]);
        }
    }
    proof {
        lemma_tail_len_nonneg(cv, 0);
    }
    let mut content_start = page_size;
    let mut i = cells.len();
    while i > 0
        invariant
            cv == cell_views(cells@),
            i <= cells@.len(),
            page_size == end,
            d0.len() == end,
            data@.len() == end,
            ho + 8 <= base,
            base + 2 * cells@.len() + tail_len(cv, 0) <= end,
            content_start == end - tail_len(cv, i as int),
            forall|k: int|
                0 <= k < end && !(base + 2 * i <= k < base + 2 * cells@.len()) && !(end - tail_len(
                    cv,
                    i as int,
                ) <= k < end) ==> #[trigger] data@[k] == d1[k],
            forall|j: int|
                i <= j < cells@.len() ==> #[trigger] ptr_at(data@, base as int, j) == (end - tail_len(
                    cv,
                    j,
                )) % 65536,
            forall|j: int, k: int|
                i <= j < cells@.len() && 0 <= k < cv[j].len() ==> #[trigger] data@[end - tail_len(
                    cv,
                    j,
                ) + k] == #[trigger] cv[j][k],
        decreases i,
    {
        i = i - 1;
        proof {
            lemma_tail_len_step(cv, i as int);
            lemma_tail_len_nonneg(cv, i + 1);
            lemma_tail_len_mono(cv, 0, i as int);
            lemma_tail_len_mono(cv, i as int, cells@.len() as int);
        }
        let ghost before = data@;
        let cell = &cells[i];
        assert(cell@ == cv[i as int]);
        assert(content_start == end - tail_len(cv, i + 1));
        content_start = content_start - cell.len();
        copy_bytes(data, content_start, cell.as_slice());
        let ghost mid = data@;
        write_u16_be(data.as_mut_slice(), base + 2 * i, content_start as u16);
        proof {
            assert((content_start as u16) as int == content_start % 65536) by (bit_vector);
            let now = data@;
            assert(ptr_at(now, base as int, i as int) == (end - tail_len(cv, i as int)) % 65536);
            assert forall|j: int| i <= j < cells@.len() implies #[trigger] ptr_at(now, base as int, j)
                == (end - tail_len(cv, j)) % 65536 by {
                if j > i {
                    assert(ptr_at(before, base as int, j) == (end - tail_len(cv, j)) % 65536);
                    assert(now[base + 2 * j] == mid[base + 2 * j]);
                    assert(now[base + 2 * j + 1] == mid[base + 2 * j + 1]);
                    assert(mid[base + 2 * j] == before[base + 2 * j]);
                    assert(mid[base + 2 * j + 1] == before[base + 2 * j + 1]);
                }
            }
            assert forall|j: int, k: int|
                i <= j < cells@.len() && 0 <= k < cv[j].len() implies #[trigger] now[end - tail_len(
                    cv,
                    j,
                ) + k] == #[trigger] cv[j][k] by {
                let x = end - tail_len(cv, j) + k;
                lemma_tail_len_mono(cv, 0, j);
                lemma_tail_len_step(cv, j);
                lemma_tail_len_nonneg(cv, j + 1);
                assert(now[x] == mid[x]);
                if j == i {
                    assert(x == content_start + k);
                    assert(mid.subrange(content_start as int, content_start + cell@.len())[k]
                        == mid[content_start + k]);
                } else {
                    lemma_tail_len_mono(cv, i + 1, j);
                    assert(mid[x] == before[x]);
                    assert(before[x] == cv[j][k]);
                }
            }
        }
    }
    let ghost dl = data@;
    write_u16_be(data.as_mut_slice(), ho + 5, content_start as u16);
    proof {
        assert((content_start as u16) as int == content_start % 65536) by (bit_vector);
        assert((count as u16) as int == count % 65536) by (bit_vector);
        let d2 = data@;
        assert(d2[ho + 1] == dl[ho + 1] && d2[ho + 2] == dl[ho + 2] && d2[ho + 7] == dl[ho + 7]);
        assert(dl[ho + 1] == d1[ho + 1] && dl[ho + 2] == d1[ho + 2] && dl[ho + 7] == d1[ho + 7]);
        assert(d2[ho + 3] == dl[ho + 3] && d2[ho + 4] == dl[ho + 4]);
        assert(dl[ho + 3] == d1[ho + 3] && dl[ho + 4] == d1[ho + 4]);
        assert(page_cell_count(d2, ho as int) == count % 65536);
        assert forall|j: int| 0 <= j < cells@.len() implies #[trigger] ptr_at(d2, base as int, j)
            == (end - tail_len(cv, j)) % 65536 by {
            assert(ptr_at(dl, base as int, j) == (end - tail_len(cv, j)) % 65536);
            assert(d2[base + 2 * j] == dl[base + 2 * j]);
            assert(d2[base + 2 * j + 1] == dl[base + 2 * j + 1]);
        }
        assert forall|k: int|
            0 <= k < end && !(ho + 1 <= k < ho + 8) && !(base <= k < base + 2 * cells@.len()) && !(end
                - tail_len(cv, 0) <= k < end) implies #[trigger] d2[k] == d0[k] by {
            assert(d2[k] == dl[k]);
            assert(dl[k] == d1[k]);
        }
        assert forall|k: int| ho + 8 <= k < base implies #[trigger] d2[k] == d0[k] by {
            assert(d2[k] == dl[k]);
            assert(dl[k] == d1[k]);
        }
        assert forall|j: int| 0 <= j < cells@.len() implies d2.subrange(
            end - tail_len(cv, j),
            end - tail_len(cv, j) + cv[j].len(),
        ) == #[trigger] cv[j] by {
            lemma_tail_len_mono(cv, 0, j);
            lemma_tail_len_step(cv, j);
            lemma_tail_len_nonneg(cv, j + 1);
            assert forall|k: int| 0 <= k < cv[j].len() implies d2[end - tail_len(cv, j) + k] == cv[j][k] by {
                let x = end - tail_len(cv, j) + k;
                assert(d2[x] == dl[x]);
                assert(dl[x] == cv[j][k]);
            }
            assert(d2.subrange(end - tail_len(cv, j), end - tail_len(cv, j) + cv[j].len()) =~= cv[j]);
        }
    }
}

/// The views of (key, cell) pairs.
pub open spec fn pair_views(s: Seq<(i64, Vec<u8>)>) -> Seq<(i64, Seq<u8>)> {
    s.map_values(|p: (i64, Vec<u8>)| (p.0, p.1@))
}

/// The pairs are in order of their keys.
pub open spec fn keys_sorted(s: Seq<(i64, Seq<u8>)>) -> bool {
    forall|a: int, b: int| 0 <= a < b < s.len() ==> #[trigger] s[a].0 <= #[trigger] s[b].0
}

/// The cells of the pairs.
pub open spec fn pair_cells(s: Seq<(i64, Seq<u8>)>) -> Seq<Seq<u8>> {
    s.map_values(|p: (i64, Seq<u8>)| p.1)
}

/// Sorts (key, cell) pairs by key; pairs of equal keys keep their order.
fn sort_cells_by_key(cells: Vec<(i64, Vec<u8>)>) -> (out: Vec<(i64, Vec<u8>)>)
    ensures
        keys_sorted(pair_views(out@)),
        pair_views(out@).to_multiset() == pair_views(cells@).to_multiset(),
        out@.len() == cells@.len(),
{
    broadcast use vstd::seq_lib::group_to_multiset_ensures;

    let mut rest = cells;
    let mut out: Vec<(i64, Vec<u8>)> = Vec::new();
    while rest.len() > 0
        invariant
            keys_sorted(pair_views(out@)),
            pair_views(out@).to_multiset().add(pair_views(rest@).to_multiset())
                == pair_views(cells@).to_multiset(),
        decreases rest@.len(),
    {
        let ghost r0 = rest@;
        let item = rest.pop().unwrap();
        assert(pair_views(r0) =~= pair_views(rest@).push((item.0, item.1@)));
        let mut pos: usize = 0;
        while pos < out.len() && out[pos].0 < item.0
            invariant
                pos <= out@.len(),
                forall|a: int| 0 <= a < pos ==> #[trigger] out@[a].0 < item.0,
            decreases out@.len() - pos,
        {
            pos = pos + 1;
        }
        let ghost o0 = out@;
        let ghost v = (item.0, item.1@);
        out.insert(pos, item);
        proof {
            assert(pair_views(out@) =~= pair_views(o0).insert(pos as int, v));
            let pv = pair_views(out@);
            assert forall|a: int, b: int| 0 <= a < b < pv.len() implies #[trigger] pv[a].0
                <= #[trigger] pv[b].0 by {
                let po = pair_views(o0);
                if b < pos {
                } else if b == pos {
                    assert(pv[a].0 == o0[a].0);
                } else if a == pos {
                    assert(pv[b].0 == po[b - 1].0);
                    if b - 1 > pos {
                        assert(po[pos as int].0 <= po[b - 1].0);
                    }
                    assert(!(o0[pos as int].0 < item.0));
                } else if a < pos {
                    assert(pv[a].0 == po[a].0 && pv[b].0 == po[b - 1].0);
                } else {
                    assert(pv[a].0 == po[a - 1].0 && pv[b].0 == po[b - 1].0);
                }
            }
            vstd::seq_lib::to_multiset_insert(pair_views(o0), pos as int, v);
            vstd::seq_lib::to_multiset_build(pair_views(rest@), v);
            assert(pair_views(out@).to_multiset().add(pair_views(rest@).to_multiset())
                =~= pair_views(o0).to_multiset().add(pair_views(r0).to_multiset()));
        }
    }
    proof {
        assert(pair_views(rest@) =~= Seq::<(i64, Seq<u8>)>::empty());
        assert(pair_views(rest@).to_multiset() =~= Multiset::empty());
        assert(pair_views(out@).to_multiset().add(Multiset::empty()) =~= pair_views(out@).to_multiset());
        vstd::seq_lib::to_multiset_len(pair_views(out@));
        vstd::seq_lib::to_multiset_len(pair_views(cells@));
    }
    out
}

/// The bytes of page `p` as the pager presents them: the cached copy, else
/// its place in the file.
pub open spec fn page_bytes<F: VfsFile>(pager: &Pager<F>, p: PageNo) -> Seq<u8> {
    if pager.cached().contains_key(p) {
        pager.cached()[p].0
    } else {
        let ps = pager.spec_page_size() as int;
        pager.db().subrange(page_offset(p as int, ps), p * ps)
    }
}

/// Whether `p` is a leaf page: its type, at its header, is that of a
/// table leaf or of an index leaf.
pub open spec fn is_leaf_page<F: VfsFile>(pager: &Pager<F>, p: PageNo) -> bool {
    let t = page_bytes(pager, p)[page_header_offset_of(p)];
    t == PAGE_TYPE_LEAF_TABLE || t == PAGE_TYPE_LEAF_INDEX
}

/// Page `p` can be read: it is cached, or it lies within the database and
/// the file, whose reads never fail.
pub open spec fn page_loadable<F: VfsFile>(pager: &Pager<F>, p: PageNo) -> bool {
    ||| pager.cached().contains_key(p)
    ||| {
        &&& 0 < p <= pager.spec_page_count()
        &&& pager.file_never_fails()
        &&& p * pager.spec_page_size() <= pager.db().len()
        &&& p * pager.spec_page_size() <= usize::MAX
    }
}

/// Every page that could be read before can still be read.
pub open spec fn loadable_kept<F: VfsFile>(before: &Pager<F>, after: &Pager<F>) -> bool {
    forall|q: PageNo| page_loadable(before, q) ==> #[trigger] page_loadable(after, q)
}

/// A leaf page whose header, cell pointers and content start lie within it.
pub open spec fn leaf_header_fits(d: Seq<u8>, ho: int) -> bool {
    leaf_ptrs_fit(d, ho) && page_content_start(d, ho) <= d.len()
}

/// A b-tree whose root `root` is a readable leaf page without cells.
pub open spec fn empty_leaf_root<F: VfsFile>(pager: &Pager<F>, root: PageNo) -> bool {
    let d = page_bytes(pager, root);
    let ho = page_header_offset_of(root);
    &&& pager.spec_page_count() > 0
    &&& page_loadable(pager, root)
    &&& is_leaf_page(pager, root)
    &&& leaf_header_fits(d, ho)
    &&& page_cell_count(d, ho) == 0
}

/// Page `pgno` leads to the table leaf `leaf` for rowid `key` through at
/// most `fuel` pages: it is that leaf, or an interior table page whose cell
/// keys can all be read and whose child for `key` (that of the first cell
/// whose key is at least `key`, else the right-most child) leads there.
/// Every page on the way can be read.
pub open spec fn key_path<F: VfsFile>(pager: &Pager<F>, pgno: PageNo, key: i64, leaf: PageNo, fuel: nat) -> bool
    decreases fuel,
{
    let d = page_bytes(pager, pgno);
    let ho = page_header_offset_of(pgno);
    if fuel == 0 {
        false
    } else {
        &&& page_loadable(pager, pgno)
        &&& {
            ||| d[ho] == PAGE_TYPE_LEAF_TABLE && leaf == pgno
            ||| {
                &&& d[ho] == PAGE_TYPE_INTERIOR_TABLE
                &&& interior_ptrs_fit(d, ho)
                &&& page_content_start(d, ho) <= d.len()
                &&& !some_interior_key_unreadable(d, ho, page_cell_count(d, ho))
                &&& exists|c: int|
                    #[trigger] is_child_for_key(d, ho, key, c) && key_path(
                        pager,
                        c as PageNo,
                        key,
                        leaf,
                        (fuel - 1) as nat,
                    )
            }
        }
    }
}

/// The first child of an interior page: that of its first cell, or the
/// right-most child when it has no cell.
pub open spec fn first_child(d: Seq<u8>, ho: int) -> int {
    if page_cell_count(d, ho) == 0 {
        page_right_child(d, ho)
    } else {
        interior_child(d, ho, 0)
    }
}

/// Page `pgno` leads to the leaf `leaf` through first children, within
/// `fuel` pages: it is that leaf, or an interior table page whose first
/// cell's key can be read and whose first child leads there. Every page on
/// the way can be read.
pub open spec fn leftmost_path<F: VfsFile>(pager: &Pager<F>, pgno: PageNo, leaf: PageNo, fuel: nat) -> bool
    decreases fuel,
{
    let d = page_bytes(pager, pgno);
    let ho = page_header_offset_of(pgno);
    if fuel == 0 {
        false
    } else {
        &&& page_loadable(pager, pgno)
        &&& {
            ||| (d[ho] == PAGE_TYPE_LEAF_TABLE || d[ho] == PAGE_TYPE_LEAF_INDEX) && leaf == pgno
            ||| {
                &&& d[ho] == PAGE_TYPE_INTERIOR_TABLE
                &&& interior_ptrs_fit(d, ho)
                &&& page_content_start(d, ho) <= d.len()
                &&& page_cell_count(d, ho) > 0 ==> interior_key(d, ho, 0) is Some
                &&& leftmost_path(pager, first_child(d, ho) as PageNo, leaf, (fuel - 1) as nat)
            }
        }
    }
}

/// An interior table page has one child for each key.
pub proof fn lemma_child_for_key_unique(d: Seq<u8>, ho: int, key: i64, c1: int, c2: int)
    requires
        is_child_for_key(d, ho, key, c1),
        is_child_for_key(d, ho, key, c2),
    ensures
        c1 == c2,
{
    let n = page_cell_count(d, ho);
    if exists|i: int|
        #![trigger interior_key(d, ho, i)]
        0 <= i < n && keys_below(d, ho, i, key) && (interior_key(d, ho, i) matches Some(k) && key
            <= k) && c1 == interior_child(d, ho, i) {
        let i1 = choose|i: int|
            #![trigger interior_key(d, ho, i)]
            0 <= i < n && keys_below(d, ho, i, key) && (interior_key(d, ho, i) matches Some(k)
                && key <= k) && c1 == interior_child(d, ho, i);
        assert(!key_below(d, ho, i1, key));
        if exists|i: int|
            #![trigger interior_key(d, ho, i)]
            0 <= i < n && keys_below(d, ho, i, key) && (interior_key(d, ho, i) matches Some(k)
                && key <= k) && c2 == interior_child(d, ho, i) {
            let i2 = choose|i: int|
                #![trigger interior_key(d, ho, i)]
                0 <= i < n && keys_below(d, ho, i, key) && (interior_key(d, ho, i) matches Some(k)
                    && key <= k) && c2 == interior_child(d, ho, i);
            assert(!key_below(d, ho, i2, key));
            assert(i1 == i2);
        }
    } else {
        if exists|i: int|
            #![trigger interior_key(d, ho, i)]
            0 <= i < n && keys_below(d, ho, i, key) && (interior_key(d, ho, i) matches Some(k)
                && key <= k) && c2 == interior_child(d, ho, i) {
            let i2 = choose|i: int|
                #![trigger interior_key(d, ho, i)]
                0 <= i < n && keys_below(d, ho, i, key) && (interior_key(d, ho, i) matches Some(k)
                    && key <= k) && c2 == interior_child(d, ho, i);
            assert(!key_below(d, ho, i2, key));
        }
    }
}

/// A rowid leads to one leaf: two paths for `key` from the same page, with
/// any fuel, end at the same leaf.
pub proof fn lemma_key_path_unique<F: VfsFile>(
    pager: &Pager<F>,
    pgno: PageNo,
    key: i64,
    l1: PageNo,
    l2: PageNo,
    f1: nat,
    f2: nat,
)
    requires
        key_path(pager, pgno, key, l1, f1),
        key_path(pager, pgno, key, l2, f2),
    ensures
        l1 == l2,
    decreases f1,
{
    let d = page_bytes(pager, pgno);
    let ho = page_header_offset_of(pgno);
    if d[ho] == PAGE_TYPE_INTERIOR_TABLE {
        let c1 = choose|c: int|
            #[trigger] is_child_for_key(d, ho, key, c) && key_path(pager, c as PageNo, key, l1, (f1 - 1) as nat);
        let c2 = choose|c: int|
            #[trigger] is_child_for_key(d, ho, key, c) && key_path(pager, c as PageNo, key, l2, (f2 - 1) as nat);
        lemma_child_for_key_unique(d, ho, key, c1, c2);
        lemma_key_path_unique(pager, c1 as PageNo, key, l1, l2, (f1 - 1) as nat, (f2 - 1) as nat);
    }
}

/// What is said of a table leaf and of placing a cell on it depends only on
/// the pages, on which of them can be read, and on whether the database is
/// read-only.
pub proof fn lemma_leaf_facts_kept<F: VfsFile>(
    p1: &Pager<F>,
    p2: &Pager<F>,
    pgno: PageNo,
    cell: Seq<u8>,
    key: i64,
)
    requires
        forall|p: PageNo| #[trigger] page_bytes(p2, p) == page_bytes(p1, p),
        loadable_kept(p1, p2),
        p2.spec_read_only() == p1.spec_read_only(),
    ensures
        readable_table_leaf(p1, pgno) ==> readable_table_leaf(p2, pgno),
        leaf_has_rowid(p1, pgno, key) == leaf_has_rowid(p2, pgno, key),
        leaf_takes_cell(p1, pgno, cell, key) ==> leaf_takes_cell(p2, pgno, cell, key),
{
    assert(page_bytes(p2, pgno) == page_bytes(p1, pgno));
    assert(page_loadable(p1, pgno) ==> page_loadable(p2, pgno));
}

/// A path that holds of one pager holds of another with the same pages,
/// all of them as readable.
pub proof fn lemma_key_path_kept<F: VfsFile>(
    p1: &Pager<F>,
    p2: &Pager<F>,
    pgno: PageNo,
    key: i64,
    leaf: PageNo,
    fuel: nat,
)
    requires
        key_path(p1, pgno, key, leaf, fuel),
        forall|p: PageNo| #[trigger] page_bytes(p2, p) == page_bytes(p1, p),
        loadable_kept(p1, p2),
    ensures
        key_path(p2, pgno, key, leaf, fuel),
    decreases fuel,
{
    let d = page_bytes(p1, pgno);
    let ho = page_header_offset_of(pgno);
    assert(page_bytes(p2, pgno) == d);
    assert(page_loadable(p2, pgno));
    if d[ho] == PAGE_TYPE_INTERIOR_TABLE {
        let c = choose|c: int|
            #[trigger] is_child_for_key(d, ho, key, c) && key_path(p1, c as PageNo, key, leaf, (fuel - 1) as nat);
        lemma_key_path_kept(p1, p2, c as PageNo, key, leaf, (fuel - 1) as nat);
        assert(is_child_for_key(page_bytes(p2, pgno), ho, key, c));
    }
}

/// Page `pgno` is a readable table leaf whose header, cell pointers and
/// rowids all lie within it.
pub open spec fn readable_table_leaf<F: VfsFile>(pager: &Pager<F>, pgno: PageNo) -> bool {
    let d = page_bytes(pager, pgno);
    let ho = page_header_offset_of(pgno);
    &&& page_loadable(pager, pgno)
    &&& leaf_header_fits(d, ho)
    &&& d[ho] == PAGE_TYPE_LEAF_TABLE
    &&& !some_rowid_unreadable(d, ho, page_cell_count(d, ho))
}

/// Some cell of the leaf page `pgno` has rowid `key`.
pub open spec fn leaf_has_rowid<F: VfsFile>(pager: &Pager<F>, pgno: PageNo, key: i64) -> bool {
    let d = page_bytes(pager, pgno);
    let ho = page_header_offset_of(pgno);
    exists|i: int| 0 <= i < page_cell_count(d, ho) && #[trigger] leaf_rowid(d, ho, i) == Some(key)
}

/// The table leaf `pgno` takes `cell` under rowid `key`: it is readable, no
/// cell of it has that rowid and it has room for the cell and its pointer.
pub open spec fn leaf_takes_cell<F: VfsFile>(pager: &Pager<F>, pgno: PageNo, cell: Seq<u8>, key: i64) -> bool {
    let d = page_bytes(pager, pgno);
    let ho = page_header_offset_of(pgno);
    &&& readable_table_leaf(pager, pgno)
    &&& !leaf_has_rowid(pager, pgno, key)
    &&& !no_room(d, ho, ho + 8, cell.len() as int)
    &&& !pager.spec_read_only()
}

/// `after` holds page `pgno` of `before` with `cell` placed at the slot of
/// rowid `key`, and every other page as it was.
pub open spec fn cell_placed<F: VfsFile>(
    before: &Pager<F>,
    after: &Pager<F>,
    pgno: PageNo,
    cell: Seq<u8>,
    key: i64,
) -> bool {
    let d = page_bytes(before, pgno);
    let ho = page_header_offset_of(pgno);
    &&& exists|idx: int|
        leaf_insert_slot(d, ho, key, idx) && #[trigger] placed(
            d,
            page_bytes(after, pgno),
            ho,
            ho + 8,
            idx,
            cell,
        )
    &&& forall|p: PageNo| p != pgno ==> #[trigger] page_bytes(after, p) == page_bytes(before, p)
}

/// Some cell payload of leaf page `d`, among its first `n`, cannot be read.
pub open spec fn some_payload_unreadable(d: Seq<u8>, ho: int, n: int) -> bool {
    exists|i: int| 0 <= i < n && #[trigger] leaf_index_payload(d, ho, i) is None
}

/// Page `pgno` is a readable index leaf whose header, cell pointers and
/// payloads all lie within it.
pub open spec fn readable_index_leaf<F: VfsFile>(pager: &Pager<F>, pgno: PageNo) -> bool {
    let d = page_bytes(pager, pgno);
    let ho = page_header_offset_of(pgno);
    &&& page_loadable(pager, pgno)
    &&& leaf_header_fits(d, ho)
    &&& d[ho] == PAGE_TYPE_LEAF_INDEX
    &&& !some_payload_unreadable(d, ho, page_cell_count(d, ho))
}

/// Some cell of the leaf page `pgno` has the payload `payload`.
pub open spec fn leaf_has_payload<F: VfsFile>(pager: &Pager<F>, pgno: PageNo, payload: Seq<u8>) -> bool {
    let d = page_bytes(pager, pgno);
    let ho = page_header_offset_of(pgno);
    exists|i: int|
        0 <= i < page_cell_count(d, ho) && #[trigger] leaf_index_payload(d, ho, i) == Some(payload)
}

/// The index leaf `pgno` takes `cell`, of payload `payload`: it is
/// readable, holds no cell of that payload and has room for the cell and
/// its pointer.
pub open spec fn index_leaf_takes_cell<F: VfsFile>(
    pager: &Pager<F>,
    pgno: PageNo,
    cell: Seq<u8>,
    payload: Seq<u8>,
) -> bool {
    let d = page_bytes(pager, pgno);
    let ho = page_header_offset_of(pgno);
    &&& readable_index_leaf(pager, pgno)
    &&& !leaf_has_payload(pager, pgno, payload)
    &&& !no_room(d, ho, ho + 8, cell.len() as int)
    &&& !pager.spec_read_only()
}

/// `after` holds page `pgno` of `before` with `cell` placed at the slot of
/// payload `payload`, and every other page as it was.
pub open spec fn index_cell_placed<F: VfsFile>(
    before: &Pager<F>,
    after: &Pager<F>,
    pgno: PageNo,
    cell: Seq<u8>,
    payload: Seq<u8>,
) -> bool {
    let d = page_bytes(before, pgno);
    let ho = page_header_offset_of(pgno);
    &&& exists|idx: int|
        leaf_index_insert_slot(d, ho, payload, idx) && #[trigger] placed(
            d,
            page_bytes(after, pgno),
            ho,
            ho + 8,
            idx,
            cell,
        )
    &&& forall|p: PageNo| p != pgno ==> #[trigger] page_bytes(after, p) == page_bytes(before, p)
}

/// The payload of the index entry of key record `key` for `rowid`: the
/// record followed by the rowid varint.
pub open spec fn index_entry(key: Seq<u8>, rowid: i64) -> Seq<u8> {
    key + crate::varint::varint_bytes(rowid as nat)
}

/// What a b-tree operation keeps of the pager: its invariant and its
/// settings; pages may be added.
pub open spec fn pager_kept<F: VfsFile>(before: &Pager<F>, after: &Pager<F>) -> bool {
    &&& after.wf()
    &&& after.spec_page_size() == before.spec_page_size()
    &&& after.spec_header() == before.spec_header()
    &&& after.spec_in_transaction() == before.spec_in_transaction()
    &&& after.spec_read_only() == before.spec_read_only()
    &&& after.spec_journal_mode() == before.spec_journal_mode()
    &&& after.spec_page_count() >= before.spec_page_count()
    &&& after.file_never_fails() == before.file_never_fails()
}

/// The pager a b-tree works on: well formed, with a page size the file
/// format accepts.
pub open spec fn pager_ready<F: VfsFile>(pager: &Pager<F>) -> bool {
    pager.wf() && valid_page_size(pager.spec_page_size() as int)
}

/// A freshly initialised b-tree page of type `t`: zeros, but for the type
/// and the content start, which is the page size (stored as 0 for 65536).
pub open spec fn fresh_btree_page(ps: int, ho: int, t: u8) -> Seq<u8> {
    Seq::new(
        ps as nat,
        |i: int|
            if i == ho {
                t
            } else if i == ho + 5 {
                ((ps % 65536) / 256) as u8
            } else if i == ho + 6 {
                (ps % 256) as u8
            } else {
                0u8
            },
    )
}

/// Reads page `pgno` through the pager. A page whose place lies past the
/// address space fails like one past the end of the file.
fn load_page<F: VfsFile>(pager: &mut Pager<F>, pgno: PageNo) -> (r: Result<Page, SqlliteError>)
    requires
        pager_ready(old(pager)),
    ensures
        pager_ready(final(pager)),
        pager_kept(old(pager), final(pager)),
        final(pager).spec_page_count() == old(pager).spec_page_count(),
        final(pager).db() == old(pager).db(),
        r matches Ok(page) ==> {
            &&& page.pgno == pgno
            &&& pgno >= 1
            &&& pgno * old(pager).spec_page_size() <= usize::MAX
            &&& page.data@.len() == old(pager).spec_page_size()
            &&& page.data@ == page_bytes(old(pager), pgno)
            &&& final(pager).cached() == old(pager).cached().insert(pgno, (page.data@, page.dirty))
        },
        r is Err ==> final(pager).cached() == old(pager).cached(),
        forall|p: PageNo| #[trigger] page_bytes(final(pager), p) == page_bytes(old(pager), p),
        loadable_kept(old(pager), final(pager)),
        old(pager).cached().contains_key(pgno) ==> r is Ok,
        !old(pager).cached().contains_key(pgno) && 0 < pgno <= old(pager).spec_page_count() && old(
            pager,
        ).file_never_fails() && pgno * old(pager).spec_page_size() <= old(pager).db().len() && pgno
            * old(pager).spec_page_size() <= usize::MAX ==> r is Ok,
{
    let ps = pager.page_size();
    proof {
        lemma_cached_pages(old(pager));
        assert(pgno as u64 * ps as u64 <= 0xffff_ffff * 65536) by (nonlinear_arith)
            requires
                ps <= 65536,
        ;
    }
    if pgno as u64 * ps as u64 > usize::MAX as u64 {
        return Err(SqlliteError::sql(ResultCode::Corrupt, "invalid page number"));
    }
    let r = pager.get_page(pgno);
    proof {
        if r is Ok {
            let page = r->Ok_0;
            lemma_cached_pages(old(pager));
            if old(pager).cached().contains_key(pgno) {
                assert(pager.cached() =~= old(pager).cached().insert(pgno, (page.data@, page.dirty)));
            }
            assert(page.data@.len() == ps);
        }
    }
    r
}

/// A page can be appended: a page number and an address are left for it.
pub open spec fn room_for_page<F: VfsFile>(pager: &Pager<F>) -> bool {
    pager.spec_page_count() < u32::MAX && (pager.spec_page_count() + 1) * pager.spec_page_size()
        <= usize::MAX
}

/// A new b-tree page can be made: there is room for it, the database can be
/// written and its file never fails.
pub open spec fn can_add_page<F: VfsFile>(pager: &Pager<F>) -> bool {
    room_for_page(pager) && !pager.spec_read_only() && pager.file_never_fails()
}

/// Appends a page to the database; fails with `Full` when no page number or
/// address is left for it.
fn new_page<F: VfsFile>(pager: &mut Pager<F>) -> (r: Result<PageNo, SqlliteError>)
    requires
        pager_ready(old(pager)),
    ensures
        pager_ready(final(pager)),
        pager_kept(old(pager), final(pager)),
        final(pager).db() == old(pager).db(),
        r matches Ok(p) ==> {
            &&& p == old(pager).spec_page_count() + 1
            &&& final(pager).spec_page_count() == p
            &&& p * old(pager).spec_page_size() <= usize::MAX
            &&& final(pager).cached() == old(pager).cached().insert(
                p,
                (Seq::new(old(pager).spec_page_size() as nat, |i: int| 0u8), true),
            )
        },
        r matches Err(e) ==> final(pager).cached() == old(pager).cached()
            && final(pager).spec_page_count() == old(pager).spec_page_count() && is_sql_error(
            e,
            ResultCode::Full,
            "database or disk is full"@,
        ),
        room_for_page(old(pager)) ==> r is Ok,
{
    let count = pager.page_count();
    let ps = pager.page_size();
    proof {
        assert((count as u64 + 1) * ps as u64 <= 0x1_0000_0000 * 65536) by (nonlinear_arith)
            requires
                ps <= 65536,
        ;
    }
    if count == u32::MAX || (count as u64 + 1) * ps as u64 > usize::MAX as u64 {
        return Err(SqlliteError::sql(ResultCode::Full, "database or disk is full"));
    }
    pager.allocate_page()
}

/// Writes a fresh, empty b-tree page of type `page_type` as page `pgno`:
/// into the cache, dirty, and straight into the file.
fn init_page<F: VfsFile>(pager: &mut Pager<F>, pgno: PageNo, page_type: u8) -> (r: Result<
    (),
    SqlliteError,
>)
    requires
        pager_ready(old(pager)),
        pgno >= 1,
        pgno * old(pager).spec_page_size() <= usize::MAX,
    ensures
        pager_ready(final(pager)),
        pager_kept(old(pager), final(pager)),
        final(pager).spec_page_count() == old(pager).spec_page_count(),
        !old(pager).spec_read_only() && old(pager).file_never_fails() ==> r is Ok,
        r is Ok ==> {
            let ps = old(pager).spec_page_size() as int;
            let fresh = fresh_btree_page(ps, page_header_offset_of(pgno), page_type);
            &&& final(pager).cached() == old(pager).cached().insert(pgno, (fresh, true))
            &&& final(pager).db() == overwrite(old(pager).db(), page_offset(pgno as int, ps), fresh)
        },
{
    let page_size = pager.page_size() as usize;
    let mut data: Vec<u8> = vec![0u8; page_size];
    let header_offset = page_header_offset(pgno);
    data.set(header_offset, page_type);
    let content_start = page_size as u16;
    data.set(header_offset + 5, (content_start >> 8) as u8);
    data.set(header_offset + 6, content_start as u8);
    proof {
        assert(content_start == page_size % 65536) by (bit_vector)
            requires
                content_start == page_size as u16,
        ;
        assert((content_start >> 8) as u8 == (content_start / 256) as u8) by (bit_vector);
        assert(content_start as u8 == (content_start % 256) as u8) by (bit_vector);
        assert((page_size % 65536) % 256 == page_size % 256) by (nonlinear_arith);
        assert(data@ =~= fresh_btree_page(page_size as int, page_header_offset_of(pgno), page_type));
    }
    let mut page = Page { pgno, data, dirty: true };
    match pager.write_page(&mut page) {
        Ok(()) => {},
        Err(e) => return Err(e),
    }
    proof {
        assert(page_offset(pgno as int, page_size as int) + page_size == pgno * page_size)
            by (nonlinear_arith);
    }
    pager.write_page_direct(pgno, page.data.as_slice())
}

/// Where the b-tree header of page `p` starts.
pub open spec fn page_header_offset_of(p: PageNo) -> int {
    if p == ROOT_PAGE {
        DATABASE_HEADER_SIZE as int
    } else {
        0
    }
}

/// Writes a fresh leaf page of type `page_type` as page `pgno`.
fn init_leaf_page<F: VfsFile>(pager: &mut Pager<F>, pgno: PageNo, page_type: u8) -> (r: Result<
    (),
    SqlliteError,
>)
    requires
        pager_ready(old(pager)),
        pgno >= 1,
        pgno * old(pager).spec_page_size() <= usize::MAX,
    ensures
        pager_ready(final(pager)),
        pager_kept(old(pager), final(pager)),
        final(pager).spec_page_count() == old(pager).spec_page_count(),
        !old(pager).spec_read_only() && old(pager).file_never_fails() ==> r is Ok,
        r is Ok ==> {
            let ps = old(pager).spec_page_size() as int;
            let fresh = fresh_btree_page(ps, page_header_offset_of(pgno), page_type);
            &&& final(pager).cached() == old(pager).cached().insert(pgno, (fresh, true))
            &&& final(pager).db() == overwrite(old(pager).db(), page_offset(pgno as int, ps), fresh)
        },
{
    init_page(pager, pgno, page_type)
}

/// Writes a fresh interior page of type `page_type` as page `pgno`.
fn init_interior_page<F: VfsFile>(pager: &mut Pager<F>, pgno: PageNo, page_type: u8) -> (r:
    Result<(), SqlliteError>)
    requires
        pager_ready(old(pager)),
        pgno >= 1,
        pgno * old(pager).spec_page_size() <= usize::MAX,
    ensures
        pager_ready(final(pager)),
        pager_kept(old(pager), final(pager)),
        final(pager).spec_page_count() == old(pager).spec_page_count(),
        !old(pager).spec_read_only() && old(pager).file_never_fails() ==> r is Ok,
        r is Ok ==> {
            let ps = old(pager).spec_page_size() as int;
            let fresh = fresh_btree_page(ps, page_header_offset_of(pgno), page_type);
            &&& final(pager).cached() == old(pager).cached().insert(pgno, (fresh, true))
            &&& final(pager).db() == overwrite(old(pager).db(), page_offset(pgno as int, ps), fresh)
        },
{
    init_page(pager, pgno, page_type)
}

/// Whether the leaf header, its cell pointers and the content start lie within the page.
fn leaf_page_fits(data: &[u8], ho: usize) -> (b: bool)
    ensures
        b == (leaf_ptrs_fit(data@, ho as int) && page_content_start(data@, ho as int) <= data@.len()),
{
    if data.len() < 8 || ho > data.len() - 8 {
        return false;
    }
    let n = read_u16_be(data, ho + 3) as usize;
    let cs = read_u16_be(data, ho + 5) as usize;
    2 * n <= data.len() - 8 - ho && cs <= data.len()
}

/// Whether the interior header, its cell pointers, the first four bytes of
/// every cell and the content start lie within the page.
fn interior_page_fits(data: &[u8], ho: usize) -> (b: bool)
    ensures
        b == (interior_ptrs_fit(data@, ho as int) && page_content_start(data@, ho as int)
            <= data@.len()),
{
    if data.len() < 12 || ho > data.len() - 12 {
        return false;
    }
    let n = read_u16_be(data, ho + 3) as usize;
    let cs = read_u16_be(data, ho + 5) as usize;
    if 2 * n > data.len() - 12 - ho || cs > data.len() {
        return false;
    }
    let mut i: usize = 0;
    while i < n
        invariant
            i <= n,
            n == page_cell_count(data@, ho as int),
            ho + 12 + 2 * n <= data@.len(),
            data@.len() <= usize::MAX,
            cs <= data@.len(),
            cs == page_content_start(data@, ho as int),
            forall|j: int| 0 <= j < i ==> #[trigger] interior_ptr(data@, ho as int, j) + 4 <= data@.len(),
        decreases n - i,
    {
        let p = read_u16_be(data, ho + 12 + 2 * i) as usize;
        assert(p == interior_ptr(data@, ho as int, i as int));
        if p + 4 > data.len() {
            return false;
        }
        i = i + 1;
    }
    true
}

/// The bytes of leaf table cell `i` (rowid, payload length, payload) and its
/// rowid, when they can be read within the page.
pub open spec fn leaf_table_cell(d: Seq<u8>, ho: int, i: int) -> Option<(i64, Seq<u8>)> {
    let p = leaf_ptr(d, ho, i);
    match varint_at(d, p) {
        Some((v, n1)) => match varint_at(d, p + n1) {
            Some((len, n2)) => if p + n1 + n2 + len <= d.len() {
                Some((v as i64, d.subrange(p, p + n1 + n2 + len)))
            } else {
                None
            },
            None => None,
        },
        None => None,
    }
}

/// The cells of a leaf table page, when every one of them can be read.
pub open spec fn leaf_table_cells(d: Seq<u8>, ho: int) -> Option<Seq<(i64, Seq<u8>)>> {
    if forall|i: int| 0 <= i < page_cell_count(d, ho) ==> #[trigger] leaf_table_cell(d, ho, i) is Some {
        Some(Seq::new(page_cell_count(d, ho) as nat, |i: int| leaf_table_cell(d, ho, i)->Some_0))
    } else {
        None
    }
}

/// The two halves a full leaf page splits into: `all`, the cells of the page
/// with the new one, in key order; the first half of them stays on the left
/// page, the rest go to the right page.
pub open spec fn leaf_split_cells(d: Seq<u8>, ho: int, new_key: i64, new_cell: Seq<u8>, all: Seq<(i64, Seq<u8>)>) -> bool {
    &&& leaf_table_cells(d, ho) is Some
    &&& keys_sorted(all)
    &&& all.to_multiset() == leaf_table_cells(d, ho)->Some_0.push((new_key, new_cell)).to_multiset()
    &&& all.len() >= 2
}

/// The halves of `all` fit: the first half, with its pointers, on a page of
/// `ps` bytes whose header, of `hs` bytes, is at `ho`; the rest on one of
/// `rps` bytes whose header is at `rho`.
pub open spec fn halves_fit(all: Seq<(i64, Seq<u8>)>, hs: int, ps: int, ho: int, rps: int, rho: int) -> bool {
    let mid = all.len() / 2;
    let rest = all.len() - mid;
    &&& ho + hs + 2 * mid <= ps
    &&& tail_len(pair_cells(all.take(mid as int)), 0) <= ps - (ho + hs + 2 * mid)
    &&& rho + hs + 2 * rest <= rps
    &&& tail_len(pair_cells(all.skip(mid as int)), 0) <= rps - (rho + hs + 2 * rest)
}

/// `d2` is `d` but for, at most, the right-most child pointer of the page
/// whose header is at `ho`.
pub open spec fn same_but_right_child(d: Seq<u8>, d2: Seq<u8>, ho: int) -> bool {
    &&& d2.len() == d.len()
    &&& forall|i: int| 0 <= i < d.len() && !(ho + 8 <= i < ho + 12) ==> #[trigger] d2[i] == d[i]
}

/// Some key of interior index page `d`, among its first `n` cells, cannot
/// be read.
pub open spec fn some_index_key_unreadable(d: Seq<u8>, ho: int, n: int) -> bool {
    exists|i: int| 0 <= i < n && #[trigger] interior_index_key(d, ho, i) is None
}

/// The interior index page `d` takes a cell of `len` bytes: its header,
/// pointers and keys can be read, and the cell and one more pointer fit.
pub open spec fn interior_index_takes_cell(d: Seq<u8>, ho: int, len: int) -> bool {
    &&& interior_ptrs_fit(d, ho)
    &&& page_content_start(d, ho) <= d.len()
    &&& !some_index_key_unreadable(d, ho, page_cell_count(d, ho))
    &&& !no_room(d, ho, ho + 12, len)
}

/// The interior page `d` takes a cell of `len` bytes: its header, pointers
/// and keys can be read, and the cell and one more pointer fit.
pub open spec fn interior_takes_cell(d: Seq<u8>, ho: int, len: int) -> bool {
    &&& interior_ptrs_fit(d, ho)
    &&& page_content_start(d, ho) <= d.len()
    &&& !some_interior_key_unreadable(d, ho, page_cell_count(d, ho))
    &&& !no_room(d, ho, ho + 12, len)
}

/// The bytes of interior table cell `i` (left child and key), when its key
/// can be read.
pub open spec fn interior_table_cell(d: Seq<u8>, ho: int, i: int) -> Option<Seq<u8>> {
    let p = interior_ptr(d, ho, i);
    match varint_at(d, p + 4) {
        Some((v, n)) => Some(d.subrange(p, p + 4 + n)),
        None => None,
    }
}

/// The cells of an interior table page, when every key can be read.
pub open spec fn interior_table_cells(d: Seq<u8>, ho: int) -> Option<Seq<Seq<u8>>> {
    if forall|i: int| 0 <= i < page_cell_count(d, ho) ==> #[trigger] interior_table_cell(d, ho, i) is Some {
        Some(Seq::new(page_cell_count(d, ho) as nat, |i: int| interior_table_cell(d, ho, i)->Some_0))
    } else {
        None
    }
}

/// The key an interior table cell is sorted by: the one it holds, or 0 when
/// it cannot be read.
pub open spec fn sort_key(c: Seq<u8>) -> i64 {
    match varint_at(c, 4) {
        Some((v, _)) => v as i64,
        None => 0,
    }
}

/// Interior cells with the keys they are sorted by.
pub open spec fn keyed(cells: Seq<Seq<u8>>) -> Seq<(i64, Seq<u8>)> {
    cells.map_values(|c: Seq<u8>| (sort_key(c), c))
}

/// The cells of a full interior page with the new one, in key order.
pub open spec fn interior_split_cells(d: Seq<u8>, ho: int, new_cell: Seq<u8>, all: Seq<(i64, Seq<u8>)>) -> bool {
    &&& interior_table_cells(d, ho) is Some
    &&& keys_sorted(all)
    &&& all.to_multiset() == keyed(interior_table_cells(d, ho)->Some_0.push(new_cell)).to_multiset()
    &&& all.len() >= 2
}

/// Where a leaf page splits: the pages and the largest key of the left one.
struct LeafSplit {
    left_pgno: PageNo,
    divider_key: i64,
    divider_blob: Option<Vec<u8>>,
    right_pgno: PageNo,
}

/// Whether the cells take at most `room` bytes in all.
fn pairs_fit(cells: &[(i64, Vec<u8>)], room: usize) -> (b: bool)
    ensures
        b == (tail_len(pair_cells(pair_views(cells@)), 0) <= room),
{
    let ghost cv = pair_cells(pair_views(cells@));
    let mut total: usize = 0;
    let mut i = cells.len();
    proof {
        lemma_tail_len_nonneg(cv, cells@.len() as int);
    }
    while i > 0
        invariant
            i <= cells@.len(),
            cv == pair_cells(pair_views(cells@)),
            total == tail_len(cv, i as int),
            total <= room,
        decreases i,
    {
        i = i - 1;
        proof {
            lemma_tail_len_step(cv, i as int);
        }
        let len = cells[i].1.len();
        assert(len == cv[i as int].len());
        if len > room - total {
            proof {
                lemma_tail_len_mono(cv, 0, i as int);
            }
            return false;
        }
        total = total + len;
    }
    true
}

/// Whether the cells take at most `room` bytes in all.
fn cells_fit(cells: &[Vec<u8>], room: usize) -> (b: bool)
    ensures
        b == (tail_len(cell_views(cells@), 0) <= room),
{
    let ghost cv = cell_views(cells@);
    let mut total: usize = 0;
    let mut i = cells.len();
    proof {
        lemma_tail_len_nonneg(cv, cells@.len() as int);
    }
    while i > 0
        invariant
            i <= cells@.len(),
            cv == cell_views(cells@),
            total == tail_len(cv, i as int),
            total <= room,
        decreases i,
    {
        i = i - 1;
        proof {
            lemma_tail_len_step(cv, i as int);
        }
        let len = cells[i].len();
        assert(len == cv[i as int].len());
        if len > room - total {
            proof {
                lemma_tail_len_mono(cv, 0, i as int);
            }
            return false;
        }
        total = total + len;
    }
    true
}

/// The first `k` bytes of `p` are exactly one record.
pub open spec fn record_exact(p: Seq<u8>, k: int) -> bool {
    record_length(p.subrange(0, k)) == Some(k as nat)
}

/// The payload splits after `k` bytes into a record and a rowid varint that
/// ends the payload.
pub open spec fn index_split_at(p: Seq<u8>, k: int) -> bool {
    &&& 1 <= k < p.len()
    &&& record_exact(p, k)
    &&& varint_at(p, k) matches Some((_, n)) && k + n == p.len()
}

/// Scanning down from the end, `k` is passed over: its prefix is not a
/// record, or the varint after it does not end the payload.
pub open spec fn passed_over(p: Seq<u8>, k: int) -> bool {
    !record_exact(p, k) || (varint_at(p, k) matches Some((_, n)) && k + n != p.len())
}

/// `k` is where an index payload splits: the largest split point, every
/// larger prefix being passed over.
pub open spec fn payload_split(p: Seq<u8>, k: int) -> bool {
    &&& index_split_at(p, k)
    &&& forall|j: int| k < j < p.len() ==> #[trigger] passed_over(p, j)
}

/// Splits an index payload into its key record and its rowid, trying the
/// longest key first. Fails with `Corrupt` when no split is found.
pub fn split_index_payload(payload: &[u8]) -> (r: Result<(Vec<u8>, i64), SqlliteError>)
    ensures
        match r {
            Ok((key, rowid)) => exists|k: int|
                #[trigger] payload_split(payload@, k) && key@ == payload@.subrange(0, k)
                    && (varint_at(payload@, k) matches Some((v, _)) && rowid == v as i64),
            Err(e) => (forall|k: int| !#[trigger] payload_split(payload@, k)) && (is_sql_error(
                e,
                ResultCode::Corrupt,
                "truncated varint"@,
            ) || is_sql_error(e, ResultCode::Corrupt, "invalid index payload"@)),
        },
{
    let len = payload.len();
    let mut key_len = len;
    while key_len > 1
        invariant
            key_len <= len,
            len == payload@.len(),
            forall|j: int| key_len <= j < len ==> #[trigger] passed_over(payload@, j),
        decreases key_len,
    {
        key_len = key_len - 1;
        let prefix = slice_subrange(payload, 0, key_len);
        if record_byte_length(prefix).is_ok() {
            assert(record_exact(payload@, key_len as int));
            let (rowid, n) = match read_varint(payload, key_len) {
                Ok(p) => p,
                Err(e) => {
                    proof {
                        assert forall|k: int| !#[trigger] payload_split(payload@, k) by {
                            if payload_split(payload@, k) {
                                if k < key_len {
                                    assert(passed_over(payload@, key_len as int));
                                } else if k > key_len {
                                    assert(passed_over(payload@, k));
                                }
                            }
                        }
                    }
                    return Err(e);
                },
            };
            proof {
                lemma_varint_at_bound(payload@, key_len as int);
            }
            if key_len + n == len {
                proof {
                    assert(payload_split(payload@, key_len as int));
                }
                return Ok((slice_to_vec(prefix), rowid as i64));
            }
            assert(passed_over(payload@, key_len as int));
        } else {
            assert(passed_over(payload@, key_len as int));
        }
    }
    proof {
        assert forall|k: int| !#[trigger] payload_split(payload@, k) by {
            if payload_split(payload@, k) {
                assert(passed_over(payload@, k));
            }
        }
    }
    Err(SqlliteError::sql(ResultCode::Corrupt, "invalid index payload"))
}

/// `a` sorts before `b` byte by byte, a proper prefix first.
pub open spec fn lex_lt(a: Seq<u8>, b: Seq<u8>) -> bool
    decreases a.len(),
{
    if a.len() == 0 {
        b.len() > 0
    } else if b.len() == 0 {
        false
    } else if a[0] != b[0] {
        a[0] < b[0]
    } else {
        lex_lt(a.drop_first(), b.drop_first())
    }
}

proof fn lemma_lex_asym(a: Seq<u8>, b: Seq<u8>)
    ensures
        !(lex_lt(a, b) && lex_lt(b, a)),
        !lex_lt(a, a),
    decreases a.len(),
{
    if a.len() > 0 && b.len() > 0 && a[0] == b[0] {
        lemma_lex_asym(a.drop_first(), b.drop_first());
    }
    if a.len() > 0 {
        lemma_lex_asym(a.drop_first(), a.drop_first());
    }
}

proof fn lemma_lex_total(a: Seq<u8>, b: Seq<u8>)
    ensures
        a == b || lex_lt(a, b) || lex_lt(b, a),
    decreases a.len(),
{
    if a.len() > 0 && b.len() > 0 && a[0] == b[0] {
        lemma_lex_total(a.drop_first(), b.drop_first());
        if a.drop_first() == b.drop_first() {
            assert(a =~= seq![a[0]] + a.drop_first());
            assert(b =~= seq![b[0]] + b.drop_first());
        }
    } else if a.len() == 0 && b.len() == 0 {
        assert(a =~= b);
    }
}

proof fn lemma_lex_trans(a: Seq<u8>, b: Seq<u8>, c: Seq<u8>)
    requires
        lex_lt(a, b),
        lex_lt(b, c),
    ensures
        lex_lt(a, c),
    decreases a.len(),
{
    if a.len() > 0 && b.len() > 0 && c.len() > 0 && a[0] == b[0] && b[0] == c[0] {
        lemma_lex_trans(a.drop_first(), b.drop_first(), c.drop_first());
    }
}

/// The pairs are in byte order of their keys.
pub open spec fn bytes_sorted(s: Seq<(Seq<u8>, Seq<u8>)>) -> bool {
    forall|a: int, b: int| 0 <= a < b < s.len() ==> !lex_lt(#[trigger] s[b].0, #[trigger] s[a].0)
}

/// The views of (key, cell) pairs with byte keys.
pub open spec fn blob_pair_views(s: Seq<(Vec<u8>, Vec<u8>)>) -> Seq<(Seq<u8>, Seq<u8>)> {
    s.map_values(|p: (Vec<u8>, Vec<u8>)| (p.0@, p.1@))
}

/// The (payload, cell) pairs of the cells of leaf index page `d`.
pub open spec fn leaf_index_entries(d: Seq<u8>, ho: int) -> Seq<(Seq<u8>, Seq<u8>)> {
    Seq::new(
        page_cell_count(d, ho) as nat,
        |i: int|
            (
                leaf_index_payload(d, ho, i)->Some_0,
                crate::btree::index_cell(leaf_index_payload(d, ho, i)->Some_0),
            ),
    )
}

/// The bytes of interior index cell `i`: left child, key length and key.
pub open spec fn interior_index_cell_bytes(d: Seq<u8>, ho: int, i: int) -> Seq<u8> {
    let p = interior_ptr(d, ho, i);
    match varint_at(d, p + 4) {
        Some((len, n)) => d.subrange(p, p + 4 + n + len),
        None => Seq::empty(),
    }
}

/// The (key, cell) pairs of the cells of interior index page `d`.
pub open spec fn interior_index_entries(d: Seq<u8>, ho: int) -> Seq<(Seq<u8>, Seq<u8>)> {
    Seq::new(
        page_cell_count(d, ho) as nat,
        |i: int| (interior_index_key(d, ho, i)->Some_0, interior_index_cell_bytes(d, ho, i)),
    )
}

/// The cells of (key, cell) pairs with byte keys.
pub open spec fn blob_cells(s: Seq<(Seq<u8>, Seq<u8>)>) -> Seq<Seq<u8>> {
    s.map_values(|p: (Seq<u8>, Seq<u8>)| p.1)
}

/// The halves of `all` fit, as `halves_fit` says, for pairs with byte keys.
pub open spec fn blob_halves_fit(all: Seq<(Seq<u8>, Seq<u8>)>, hs: int, ps: int, ho: int, rps: int, rho: int) -> bool {
    let mid = all.len() / 2;
    let rest = all.len() - mid;
    &&& ho + hs + 2 * mid <= ps
    &&& tail_len(blob_cells(all.take(mid as int)), 0) <= ps - (ho + hs + 2 * mid)
    &&& rho + hs + 2 * rest <= rps
    &&& tail_len(blob_cells(all.skip(mid as int)), 0) <= rps - (rho + hs + 2 * rest)
}

/// Whether `a` sorts before `b` byte by byte, a proper prefix first.
pub(crate) fn bytes_lt(a: &[u8], b: &[u8]) -> (r: bool)
    ensures
        r == lex_lt(a@, b@),
{
    let mut i: usize = 0;
    assert(a@.skip(0) =~= a@ && b@.skip(0) =~= b@);
    while i < a.len() && i < b.len()
        invariant
            i <= a@.len(),
            i <= b@.len(),
            lex_lt(a@, b@) == lex_lt(a@.skip(i as int), b@.skip(i as int)),
        decreases a@.len() - i,
    {
        if a[i] != b[i] {
            return a[i] < b[i];
        }
        proof {
            assert(a@.skip(i as int).drop_first() =~= a@.skip(i + 1));
            assert(b@.skip(i as int).drop_first() =~= b@.skip(i + 1));
        }
        i = i + 1;
    }
    i == a.len() && i < b.len()
}

/// Whether the bytes of `a` and `b` are the same.
fn bytes_eq(a: &[u8], b: &[u8]) -> (r: bool)
    ensures
        r == (a@ == b@),
{
    if a.len() != b.len() {
        return false;
    }
    let mut i: usize = 0;
    while i < a.len()
        invariant
            i <= a@.len(),
            a@.len() == b@.len(),
            forall|j: int| 0 <= j < i ==> a@[j] == b@[j],
        decreases a@.len() - i,
    {
        if a[i] != b[i] {
            return false;
        }
        i = i + 1;
    }
    assert(a@ =~= b@);
    true
}

/// Whether an interior index cell at `ptr` keeps its key within the page.
fn index_cell_fits(data: &[u8], ptr: usize) -> (b: bool)
    ensures
        b == (varint_at(data@, ptr + 4) matches Some((len, n)) ==> ptr + 4 + n + len <= data@.len()),
{
    if ptr > data.len() || data.len() - ptr < 4 {
        return true;
    }
    match read_varint(data, ptr + 4) {
        Ok((len, n)) => {
            proof {
                lemma_varint_at_bound(data@, ptr + 4);
            }
            len <= (data.len() - (ptr + 4 + n)) as u64
        },
        Err(_) => true,
    }
}

/// The payload of leaf table cell `i`, when it can be read within the page.
pub open spec fn leaf_table_payload(d: Seq<u8>, ho: int, i: int) -> Option<Seq<u8>> {
    let p = leaf_ptr(d, ho, i);
    match varint_at(d, p) {
        Some((v, n1)) => match varint_at(d, p + n1) {
            Some((len, n2)) => if p + n1 + n2 + len <= d.len() {
                Some(d.subrange(p + n1 + n2, p + n1 + n2 + len))
            } else {
                None
            },
            None => None,
        },
        None => None,
    }
}

/// The payload of leaf index cell `i`, when it can be read within the page.
pub open spec fn leaf_index_payload(d: Seq<u8>, ho: int, i: int) -> Option<Seq<u8>> {
    let p = leaf_ptr(d, ho, i);
    match varint_at(d, p) {
        Some((len, n)) => if p + n + len <= d.len() {
            Some(d.subrange(p + n, p + n + len))
        } else {
            None
        },
        None => None,
    }
}

/// Reads the payload of the leaf index cell at `ptr`.
fn index_payload_at(data: &[u8], ptr: usize) -> (r: Result<Vec<u8>, SqlliteError>)
    ensures
        r matches Ok(p) ==> (varint_at(data@, ptr as int) matches Some((len, n)) && ptr + n + len
            <= data@.len() && p@ == data@.subrange(ptr + n, ptr + n + len)),
        r is Err ==> !(varint_at(data@, ptr as int) matches Some((len, n)) && ptr + n + len
            <= data@.len()),
        r matches Err(e) ==> (e is Sql && e->code == ResultCode::Corrupt),
{
    match read_varint(data, ptr) {
        Ok((len, n)) => {
            proof {
                lemma_varint_at_bound(data@, ptr as int);
            }
            if len > (data.len() - (ptr + n)) as u64 {
                return Err(SqlliteError::sql(ResultCode::Corrupt, "truncated index cell"));
            }
        },
        Err(e) => return Err(e),
    }
    read_index_payload(data, ptr)
}

/// A step of a cursor's descent: the interior page and the child slot taken.
#[derive(Clone)]
struct CursorFrame {
    pgno: PageNo,
    child_slot: usize,
}

/// The key of interior index cell `i`, when it can be read within the page.
pub open spec fn interior_index_key(d: Seq<u8>, ho: int, i: int) -> Option<Seq<u8>> {
    let p = interior_ptr(d, ho, i);
    match varint_at(d, p + 4) {
        Some((len, n)) => if p + 4 + n + len <= d.len() {
            Some(d.subrange(p + 4 + n, p + 4 + n + len))
        } else {
            None
        },
        None => None,
    }
}

/// The payload of leaf index cell `j` can be read and is not above `key`.
pub open spec fn payload_not_above(d: Seq<u8>, ho: int, j: int, key: Seq<u8>) -> bool {
    match leaf_index_payload(d, ho, j) {
        Some(p) => !lex_lt(key, p),
        None => false,
    }
}

/// The payload of leaf index cell `j` can be read and differs from `key`.
pub open spec fn payload_differs(d: Seq<u8>, ho: int, j: int, key: Seq<u8>) -> bool {
    match leaf_index_payload(d, ho, j) {
        Some(p) => p != key,
        None => false,
    }
}

/// The key of interior index cell `j` can be read and is below `key`.
pub open spec fn index_key_below(d: Seq<u8>, ho: int, j: int, key: Seq<u8>) -> bool {
    match interior_index_key(d, ho, j) {
        Some(k) => lex_lt(k, key),
        None => false,
    }
}

/// Slot `idx` is where a leaf index cell of payload `key` goes: after every
/// cell whose payload is not above `key`, before the first one above it.
pub open spec fn leaf_index_insert_slot(d: Seq<u8>, ho: int, key: Seq<u8>, idx: int) -> bool {
    &&& 0 <= idx <= page_cell_count(d, ho)
    &&& forall|j: int| 0 <= j < idx ==> #[trigger] payload_not_above(d, ho, j, key)
    &&& idx < page_cell_count(d, ho) ==> (leaf_index_payload(d, ho, idx) matches Some(p) && lex_lt(key, p))
}

/// Slot `idx` is the first interior index cell whose key is at least `key`
/// (the cell count when there is none).
pub open spec fn index_child_slot(d: Seq<u8>, ho: int, key: Seq<u8>, idx: int) -> bool {
    &&& 0 <= idx <= page_cell_count(d, ho)
    &&& forall|j: int| 0 <= j < idx ==> #[trigger] index_key_below(d, ho, j, key)
    &&& idx < page_cell_count(d, ho) ==> (interior_index_key(d, ho, idx) matches Some(k) && !lex_lt(k, key))
}

/// Sorts (key, cell) pairs by the bytes of their keys; pairs of equal keys
/// keep their order.
fn sort_cells_by_bytes(cells: Vec<(Vec<u8>, Vec<u8>)>) -> (out: Vec<(Vec<u8>, Vec<u8>)>)
    ensures
        bytes_sorted(blob_pair_views(out@)),
        blob_pair_views(out@).to_multiset() == blob_pair_views(cells@).to_multiset(),
        out@.len() == cells@.len(),
{
    broadcast use vstd::seq_lib::group_to_multiset_ensures;

    let mut rest = cells;
    let mut out: Vec<(Vec<u8>, Vec<u8>)> = Vec::new();
    while rest.len() > 0
        invariant
            bytes_sorted(blob_pair_views(out@)),
            blob_pair_views(out@).to_multiset().add(blob_pair_views(rest@).to_multiset())
                == blob_pair_views(cells@).to_multiset(),
        decreases rest@.len(),
    {
        let ghost r0 = rest@;
        let item = rest.pop().unwrap();
        assert(blob_pair_views(r0) =~= blob_pair_views(rest@).push((item.0@, item.1@)));
        let mut pos: usize = 0;
        while pos < out.len() && bytes_lt(out[pos].0.as_slice(), item.0.as_slice())
            invariant
                pos <= out@.len(),
                forall|a: int| 0 <= a < pos ==> lex_lt(#[trigger] out@[a].0@, item.0@),
            decreases out@.len() - pos,
        {
            pos = pos + 1;
        }
        let ghost o0 = out@;
        let ghost v = (item.0@, item.1@);
        out.insert(pos, item);
        proof {
            assert(blob_pair_views(out@) =~= blob_pair_views(o0).insert(pos as int, v));
            let pv = blob_pair_views(out@);
            let po = blob_pair_views(o0);
            assert forall|a: int, b: int| 0 <= a < b < pv.len() implies !lex_lt(
                #[trigger] pv[b].0,
                #[trigger] pv[a].0,
            ) by {
                if b < pos {
                    assert(pv[a] == po[a] && pv[b] == po[b]);
                } else if b == pos {
                    assert(pv[a].0 == o0[a].0@);
                    lemma_lex_asym(pv[a].0, v.0);
                } else if a == pos {
                    assert(pv[b] == po[b - 1]);
                    if pos < o0.len() {
                        assert(!lex_lt(po[pos as int].0, v.0));
                        if b - 1 > pos {
                            assert(!lex_lt(po[b - 1].0, po[pos as int].0));
                        }
                        lemma_lex_total(po[pos as int].0, v.0);
                        lemma_lex_total(po[b - 1].0, po[pos as int].0);
                        if lex_lt(po[b - 1].0, v.0) {
                            if po[b - 1].0 == po[pos as int].0 {
                            } else if lex_lt(po[pos as int].0, po[b - 1].0) {
                                lemma_lex_trans(po[pos as int].0, po[b - 1].0, v.0);
                            }
                        }
                    }
                } else if a < pos {
                    assert(pv[a] == po[a] && pv[b] == po[b - 1]);
                } else {
                    assert(pv[a] == po[a - 1] && pv[b] == po[b - 1]);
                }
            }
            vstd::seq_lib::to_multiset_insert(blob_pair_views(o0), pos as int, v);
            vstd::seq_lib::to_multiset_build(blob_pair_views(rest@), v);
            assert(blob_pair_views(out@).to_multiset().add(blob_pair_views(rest@).to_multiset())
                =~= blob_pair_views(o0).to_multiset().add(blob_pair_views(r0).to_multiset()));
        }
    }
    proof {
        assert(blob_pair_views(rest@) =~= Seq::<(Seq<u8>, Seq<u8>)>::empty());
        assert(blob_pair_views(rest@).to_multiset() =~= Multiset::empty());
        assert(blob_pair_views(out@).to_multiset().add(Multiset::empty()) =~= blob_pair_views(
            out@,
        ).to_multiset());
        vstd::seq_lib::to_multiset_len(blob_pair_views(out@));
        vstd::seq_lib::to_multiset_len(blob_pair_views(cells@));
    }
    out
}

/// A b-tree: its root page and whether its keys are rowids or payloads.
pub struct Btree {
    root_page: PageNo,
    flags: BtreeFlags,
}

impl Btree {
    pub closed spec fn spec_root_page(&self) -> PageNo {
        self.root_page
    }

    pub closed spec fn spec_flags(&self) -> BtreeFlags {
        self.flags
    }

    pub fn new(root_page: PageNo, flags: BtreeFlags) -> (b: Self)
        ensures
            b.spec_root_page() == root_page,
            b.spec_flags() == flags,
    {
        Btree { root_page, flags }
    }

    pub fn root_page(&self) -> (p: PageNo)
        ensures
            p == self.spec_root_page(),
    {
        self.root_page
    }

    /// Looks for the leaf cell whose rowid is `key`; fails with `Corrupt`
    /// when a rowid before it cannot be read.
    fn find_cell_in_page_table(&self, page: &Page, header_offset: usize, key: i64) -> (r: Result<
        Option<i64>,
        SqlliteError,
    >)
        requires
            leaf_ptrs_fit(page.data@, header_offset as int),
        ensures
            ({
                let d = page.data@;
                let ho = header_offset as int;
                let n = page_cell_count(d, ho);
                match r {
                    Ok(Some(k)) => k == key && exists|i: int|
                        0 <= i < n && #[trigger] leaf_rowid(d, ho, i) == Some(key),
                    Ok(None) => forall|i: int|
                        0 <= i < n ==> #[trigger] rowid_differs(d, ho, i, key),
                    Err(e) => some_rowid_unreadable(d, ho, n) && is_sql_error(
                        e,
                        ResultCode::Corrupt,
                        "truncated varint"@,
                    ),
                }
            }),
    {
        let ghost d = page.data@;
        let ghost ho = header_offset as int;
        let _ = page.data.len();
        let cell_count = read_u16_be(page.data.as_slice(), header_offset + 3) as usize;
        let mut i: usize = 0;
        while i < cell_count
            invariant
                d == page.data@,
                d.len() <= usize::MAX,
                ho == header_offset,
                i <= cell_count,
                cell_count == page_cell_count(d, ho),
                leaf_ptrs_fit(d, ho),
                forall|j: int| 0 <= j < i ==> #[trigger] rowid_differs(d, ho, j, key),
            decreases cell_count - i,
        {
            let ptr = read_u16_be(page.data.as_slice(), leaf_cell_ptr_offset(header_offset, i)) as usize;
            assert(ptr == leaf_ptr(d, ho, i as int));
            let (rowid, _) = match read_cell_rowid(page.data.as_slice(), ptr) {
                Ok(p) => p,
                Err(e) => {
                    assert(leaf_rowid(d, ho, i as int) is None);
                    return Err(e);
                },
            };
            if rowid == key {
                assert(leaf_rowid(d, ho, i as int) == Some(key));
                return Ok(Some(rowid));
            }
            i = i + 1;
        }
        Ok(None)
    }

    /// The child page to follow for `key` on an interior table page.
    fn find_child_page_table(&self, page: &Page, header_offset: usize, key: i64) -> (r: Result<
        PageNo,
        SqlliteError,
    >)
        requires
            interior_ptrs_fit(page.data@, header_offset as int),
        ensures
            ({
                let d = page.data@;
                let ho = header_offset as int;
                let n = page_cell_count(d, ho);
                &&& r matches Ok(c) ==> is_child_for_key(d, ho, key, c as int)
                &&& r matches Err(e) ==> some_interior_key_unreadable(d, ho, n) && is_sql_error(
                    e,
                    ResultCode::Corrupt,
                    "truncated varint"@,
                )
                &&& !some_interior_key_unreadable(d, ho, n) ==> r is Ok
            }),
    {
        let ghost d = page.data@;
        let ghost ho = header_offset as int;
        let _ = page.data.len();
        let cell_count = read_u16_be(page.data.as_slice(), header_offset + 3) as usize;
        let mut i: usize = 0;
        while i < cell_count
            invariant
                d == page.data@,
                d.len() <= usize::MAX,
                ho == header_offset,
                i <= cell_count,
                cell_count == page_cell_count(d, ho),
                interior_ptrs_fit(d, ho),
                keys_below(d, ho, i as int, key),
            decreases cell_count - i,
        {
            let ptr = read_u16_be(page.data.as_slice(), interior_cell_ptr_offset(header_offset, i))
                as usize;
            assert(ptr == interior_ptr(d, ho, i as int));
            assert(interior_ptr(d, ho, i as int) + 4 <= d.len());
            let (child, cell_key) = match read_interior_table_cell(page.data.as_slice(), ptr) {
                Ok(p) => p,
                Err(e) => {
                    assert(interior_key(d, ho, i as int) is None);
                    return Err(e);
                },
            };
            if key <= cell_key {
                assert(interior_key(d, ho, i as int) == Some(cell_key));
                return Ok(child);
            }
            assert(keys_below(d, ho, i + 1, key)) by {
                assert(interior_key(d, ho, i as int) == Some(cell_key));
                assert(key_below(d, ho, i as int, key));
            }
            i = i + 1;
        }
        proof {
            assert forall|j: int| 0 <= j < cell_count implies #[trigger] interior_key(d, ho, j) is Some by {
                assert(key_below(d, ho, j, key));
            }
        }
        Ok(read_u32_be(page.data.as_slice(), header_offset + 8))
    }

    /// The child page at `slot` of an interior page: the left child of cell
    /// `slot`, or the right-most child when `slot` is the cell count.
    fn child_page_at_slot(&self, page: &Page, header_offset: usize, slot: usize) -> (r: Result<
        PageNo,
        SqlliteError,
    >)
        requires
            interior_ptrs_fit(page.data@, header_offset as int),
            slot < page_cell_count(page.data@, header_offset as int) && page.data@[header_offset as int]
                != PAGE_TYPE_INTERIOR_TABLE ==> (varint_at(
                page.data@,
                interior_ptr(page.data@, header_offset as int, slot as int) + 4,
            ) matches Some((len, n)) ==> interior_ptr(page.data@, header_offset as int, slot as int)
                + 4 + n + len <= page.data@.len()),
        ensures
            ({
                let d = page.data@;
                let ho = header_offset as int;
                let n = page_cell_count(d, ho);
                &&& slot > n ==> (r matches Err(e) && is_sql_error(
                    e,
                    ResultCode::Corrupt,
                    "invalid child slot"@,
                ))
                &&& slot == n ==> r == Ok::<PageNo, SqlliteError>(page_right_child(d, ho) as PageNo)
                &&& slot < n ==> match r {
                    Ok(c) => c == interior_child(d, ho, slot as int),
                    Err(e) => varint_at(d, interior_ptr(d, ho, slot as int) + 4) is None
                        && is_sql_error(e, ResultCode::Corrupt, "truncated varint"@),
                }
            }),
    {
        let _ = page.data.len();
        let cell_count = read_u16_be(page.data.as_slice(), header_offset + 3) as usize;
        if slot < cell_count {
            let ptr = read_u16_be(page.data.as_slice(), interior_cell_ptr_offset(header_offset, slot))
                as usize;
            assert(interior_ptr(page.data@, header_offset as int, slot as int) + 4 <= page.data@.len());
            if page.data[header_offset] == PAGE_TYPE_INTERIOR_TABLE {
                match read_interior_table_cell(page.data.as_slice(), ptr) {
                    Ok((child, _)) => Ok(child),
                    Err(e) => Err(e),
                }
            } else {
                match read_interior_index_cell(page.data.as_slice(), ptr) {
                    Ok((child, _)) => Ok(child),
                    Err(e) => Err(e),
                }
            }
        } else if slot == cell_count {
            Ok(read_u32_be(page.data.as_slice(), header_offset + 8))
        } else {
            Err(SqlliteError::sql(ResultCode::Corrupt, "invalid child slot"))
        }
    }

    /// Inserts `cell`, the leaf table cell of rowid `key`, into the page:
    /// after every cell whose rowid is at most `key`, if the cell and one more
    /// pointer fit below the content area; returns whether it did. Fails with
    /// `Corrupt` when a rowid before the insertion point cannot be read.
    fn try_insert_leaf_cell(
        &self,
        page: &mut Page,
        header_offset: usize,
        cell: &[u8],
        key: i64,
        _index: bool,
    ) -> (r: Result<bool, SqlliteError>)
        requires
            leaf_ptrs_fit(old(page).data@, header_offset as int),
            page_content_start(old(page).data@, header_offset as int) <= old(page).data@.len(),
            old(page).data@.len() <= isize::MAX,
        ensures
            final(page).pgno == old(page).pgno,
            final(page).dirty == old(page).dirty,
            ({
                let d = old(page).data@;
                let ho = header_offset as int;
                let n = page_cell_count(d, ho);
                &&& r matches Ok(true) ==> !no_room(d, ho, ho + 8, cell@.len() as int) && exists|
                    idx: int,
                | leaf_insert_slot(d, ho, key, idx) && placed(
                    d,
                    final(page).data@,
                    ho,
                    ho + 8,
                    idx,
                    cell@,
                )
                &&& r matches Ok(false) ==> no_room(d, ho, ho + 8, cell@.len() as int)
                    && final(page).data@ == d
                &&& r matches Err(e) ==> some_rowid_unreadable(d, ho, n) && final(page).data@ == d
                    && is_sql_error(e, ResultCode::Corrupt, "truncated varint"@)
                &&& !some_rowid_unreadable(d, ho, n) ==> r is Ok
            }),
    {
        let ghost d = page.data@;
        let ghost ho = header_offset as int;
        let _ = page.data.len();
        let cell_count = read_u16_be(page.data.as_slice(), header_offset + 3) as usize;
        let mut insert_idx = cell_count;
        let mut i: usize = 0;
        while i < cell_count
            invariant_except_break
                d == page.data@,
                d.len() <= isize::MAX,
                ho == header_offset,
                i <= cell_count,
                cell_count == page_cell_count(d, ho),
                leaf_ptrs_fit(d, ho),
                insert_idx == cell_count,
                forall|j: int| 0 <= j < i ==> #[trigger] rowid_at_most(d, ho, j, key),
            ensures
                d == page.data@,
                d.len() <= isize::MAX,
                ho == header_offset,
                cell_count == page_cell_count(d, ho),
                leaf_ptrs_fit(d, ho),
                leaf_insert_slot(d, ho, key, insert_idx as int),
            decreases cell_count - i,
        {
            let ptr = read_u16_be(page.data.as_slice(), leaf_cell_ptr_offset(header_offset, i)) as usize;
            assert(ptr == leaf_ptr(d, ho, i as int));
            let (rowid, _) = match read_cell_rowid(page.data.as_slice(), ptr) {
                Ok(p) => p,
                Err(e) => {
                    assert(leaf_rowid(d, ho, i as int) is None);
                    return Err(e);
                },
            };
            assert(leaf_rowid(d, ho, i as int) == Some(rowid));
            if key < rowid {
                insert_idx = i;
                assert(rowid_above(d, ho, i as int, key));
                break;
            }
            assert(rowid_at_most(d, ho, i as int, key));
            i = i + 1;
        }
        proof {
            assert forall|j: int| 0 <= j < insert_idx implies #[trigger] leaf_rowid(d, ho, j) is Some by {
                assert(rowid_at_most(d, ho, j, key));
            }
            if insert_idx < cell_count {
                assert(rowid_above(d, ho, insert_idx as int, key));
            }
        }
        let min_ptr = leaf_cell_ptr_offset(header_offset, cell_count + 1) + 1;
        let content_start = read_u16_be(page.data.as_slice(), header_offset + 5) as usize;
        let new_content_start = content_start.saturating_sub(cell.len());
        if new_content_start < min_ptr {
            return Ok(false);
        }
        place_cell(
            &mut page.data,
            header_offset,
            header_offset + 8,
            cell_count,
            insert_idx,
            new_content_start,
            cell,
        );
        Ok(true)
    }

    /// Inserts `cell`, the interior table cell of divider `key`, into the
    /// page: before the first cell whose key is at least `key`, if the cell
    /// and one more pointer fit below the content area; returns whether it
    /// did. Fails with `Corrupt` when a key before the insertion point cannot
    /// be read.
    fn try_insert_interior_cell_table(
        &self,
        page: &mut Page,
        header_offset: usize,
        cell: &[u8],
        key: i64,
    ) -> (r: Result<bool, SqlliteError>)
        requires
            interior_ptrs_fit(old(page).data@, header_offset as int),
            page_content_start(old(page).data@, header_offset as int) <= old(page).data@.len(),
            old(page).data@.len() <= isize::MAX,
        ensures
            final(page).pgno == old(page).pgno,
            final(page).dirty == old(page).dirty,
            ({
                let d = old(page).data@;
                let ho = header_offset as int;
                let n = page_cell_count(d, ho);
                &&& r matches Ok(true) ==> !no_room(d, ho, ho + 12, cell@.len() as int) && exists|
                    idx: int,
                | interior_insert_slot(d, ho, key, idx) && placed(
                    d,
                    final(page).data@,
                    ho,
                    ho + 12,
                    idx,
                    cell@,
                )
                &&& r matches Ok(false) ==> no_room(d, ho, ho + 12, cell@.len() as int)
                    && final(page).data@ == d
                &&& r matches Err(e) ==> some_interior_key_unreadable(d, ho, n) && final(page).data@
                    == d && is_sql_error(e, ResultCode::Corrupt, "truncated varint"@)
                &&& !some_interior_key_unreadable(d, ho, n) ==> r is Ok
            }),
    {
        let ghost d = page.data@;
        let ghost ho = header_offset as int;
        let _ = page.data.len();
        let cell_count = read_u16_be(page.data.as_slice(), header_offset + 3) as usize;
        let mut insert_idx = cell_count;
        let mut i: usize = 0;
        while i < cell_count
            invariant_except_break
                d == page.data@,
                d.len() <= isize::MAX,
                ho == header_offset,
                i <= cell_count,
                cell_count == page_cell_count(d, ho),
                interior_ptrs_fit(d, ho),
                insert_idx == cell_count,
                keys_below(d, ho, i as int, key),
            ensures
                d == page.data@,
                d.len() <= isize::MAX,
                ho == header_offset,
                cell_count == page_cell_count(d, ho),
                interior_ptrs_fit(d, ho),
                interior_insert_slot(d, ho, key, insert_idx as int),
            decreases cell_count - i,
        {
            let ptr = read_u16_be(page.data.as_slice(), interior_cell_ptr_offset(header_offset, i))
                as usize;
            assert(ptr == interior_ptr(d, ho, i as int));
            assert(interior_ptr(d, ho, i as int) + 4 <= d.len());
            let (_, cell_key) = match read_interior_table_cell(page.data.as_slice(), ptr) {
                Ok(p) => p,
                Err(e) => {
                    assert(interior_key(d, ho, i as int) is None);
                    return Err(e);
                },
            };
            assert(interior_key(d, ho, i as int) == Some(cell_key));
            if key <= cell_key {
                insert_idx = i;
                assert(key_at_least(d, ho, i as int, key));
                break;
            }
            assert(key_below(d, ho, i as int, key));
            i = i + 1;
        }
        proof {
            assert forall|j: int| 0 <= j < insert_idx implies #[trigger] interior_key(d, ho, j) is Some by {
                assert(key_below(d, ho, j, key));
            }
            if insert_idx < cell_count {
                assert(key_at_least(d, ho, insert_idx as int, key));
            }
        }
        let min_ptr = interior_cell_ptr_offset(header_offset, cell_count + 1) + 1;
        let content_start = read_u16_be(page.data.as_slice(), header_offset + 5) as usize;
        let new_content_start = content_start.saturating_sub(cell.len());
        if new_content_start < min_ptr {
            return Ok(false);
        }
        place_cell(
            &mut page.data,
            header_offset,
            header_offset + 12,
            cell_count,
            insert_idx,
            new_content_start,
            cell,
        );
        Ok(true)
    }

    /// Replaces the cells of a leaf table page by the cells of `cells`,
    /// packed at the end of the page in order.
    fn rebuild_leaf_table_page(
        &self,
        page: &mut Page,
        header_offset: usize,
        cells: &[(i64, Vec<u8>)],
    ) -> (r: Result<(), SqlliteError>)
        requires
            header_offset + 8 + 2 * cells@.len() + tail_len(pair_cells(pair_views(cells@)), 0)
                <= old(page).data@.len(),
        ensures
            r is Ok,
            final(page).pgno == old(page).pgno,
            final(page).dirty == old(page).dirty,
            laid_out(
                old(page).data@,
                final(page).data@,
                header_offset as int,
                header_offset + 8,
                pair_cells(pair_views(cells@)),
            ),
    {
        let mut bytes: Vec<Vec<u8>> = Vec::new();
        let mut i: usize = 0;
        while i < cells.len()
            invariant
                i <= cells@.len(),
                cell_views(bytes@) == pair_cells(pair_views(cells@)).take(i as int),
            decreases cells@.len() - i,
        {
            let ghost b0 = bytes@;
            let c = vstd::slice::slice_to_vec(cells[i].1.as_slice());
            bytes.push(c);
            proof {
                assert(cell_views(bytes@) =~= cell_views(b0).push(c@));
                assert(pair_cells(pair_views(cells@)).take(i + 1) =~= pair_cells(
                    pair_views(cells@),
                ).take(i as int).push(c@));
            }
            i = i + 1;
        }
        assert(pair_cells(pair_views(cells@)).take(i as int) =~= pair_cells(pair_views(cells@)));
        proof {
            lemma_tail_len_nonneg(cell_views(bytes@), 0);
        }
        let _ = page.data.len();
        lay_out_cells(&mut page.data, header_offset, header_offset + 8, bytes.as_slice());
        Ok(())
    }

    /// Replaces the cells of a leaf index page by `cells`, packed at the end
    /// of the page in order.
    fn rebuild_leaf_index_page(&self, page: &mut Page, header_offset: usize, cells: &[Vec<u8>]) -> (r:
        Result<(), SqlliteError>)
        requires
            header_offset + 8 + 2 * cells@.len() + tail_len(cell_views(cells@), 0)
                <= old(page).data@.len(),
        ensures
            r is Ok,
            final(page).pgno == old(page).pgno,
            final(page).dirty == old(page).dirty,
            laid_out(
                old(page).data@,
                final(page).data@,
                header_offset as int,
                header_offset + 8,
                cell_views(cells@),
            ),
    {
        proof {
            lemma_tail_len_nonneg(cell_views(cells@), 0);
        }
        let _ = page.data.len();
        lay_out_cells(&mut page.data, header_offset, header_offset + 8, cells);
        Ok(())
    }

    /// Replaces the cells of an interior table page by `cells`, packed at the
    /// end of the page in order, and sets its right-most child.
    fn rebuild_interior_table_page(
        &self,
        page: &mut Page,
        header_offset: usize,
        cells: &[Vec<u8>],
        rightmost: PageNo,
    ) -> (r: Result<(), SqlliteError>)
        requires
            header_offset + 12 + 2 * cells@.len() + tail_len(cell_views(cells@), 0)
                <= old(page).data@.len(),
        ensures
            r is Ok,
            final(page).pgno == old(page).pgno,
            final(page).dirty == old(page).dirty,
            page_right_child(final(page).data@, header_offset as int) == rightmost,
            laid_out(
                old(page).data@,
                final(page).data@,
                header_offset as int,
                header_offset + 12,
                cell_views(cells@),
            ),
    {
        proof {
            lemma_tail_len_nonneg(cell_views(cells@), 0);
        }
        let _ = page.data.len();
        let ghost d0 = page.data@;
        write_u32_be(page.data.as_mut_slice(), header_offset + 8, rightmost);
        let ghost d1 = page.data@;
        lay_out_cells(&mut page.data, header_offset, header_offset + 12, cells);
        proof {
            let d2 = page.data@;
            let cv = cell_views(cells@);
            let ho = header_offset as int;
            assert(d2[ho + 8] == d1[ho + 8] && d2[ho + 9] == d1[ho + 9] && d2[ho + 10] == d1[ho + 10]
                && d2[ho + 11] == d1[ho + 11]);
            assert forall|k: int|
                0 <= k < d0.len() && !(ho + 1 <= k < ho + 12 + 2 * cv.len()) && !(d0.len()
                    - tail_len(cv, 0) <= k < d0.len()) implies #[trigger] d2[k] == d0[k] by {
                assert(d2[k] == d1[k]);
            }
        }
        Ok(())
    }

    /// Replaces the cells of an interior index page by `cells`, packed at the
    /// end of the page in order, and sets its right-most child.
    fn rebuild_interior_index_page(
        &self,
        page: &mut Page,
        header_offset: usize,
        cells: &[Vec<u8>],
        rightmost: PageNo,
    ) -> (r: Result<(), SqlliteError>)
        requires
            header_offset + 12 + 2 * cells@.len() + tail_len(cell_views(cells@), 0)
                <= old(page).data@.len(),
        ensures
            r is Ok,
            final(page).pgno == old(page).pgno,
            final(page).dirty == old(page).dirty,
            page_right_child(final(page).data@, header_offset as int) == rightmost,
            laid_out(
                old(page).data@,
                final(page).data@,
                header_offset as int,
                header_offset + 12,
                cell_views(cells@),
            ),
    {
        self.rebuild_interior_table_page(page, header_offset, cells, rightmost)
    }

    /// Splits a full leaf table page: its cells and `new_cell` (of rowid
    /// `new_key`), in key order, are divided into a first half that stays on
    /// this page and a second half that goes to page `right_pgno`. Fails with
    /// `Corrupt` when a cell cannot be read, and with `TooBig` when there is
    /// no first half or a half does not fit on its page.
    fn split_leaf_table<F: VfsFile>(
        &self,
        pager: &mut Pager<F>,
        page: &mut Page,
        header_offset: usize,
        left_pgno: PageNo,
        right_pgno: PageNo,
        new_cell: &[u8],
        new_key: i64,
    ) -> (r: Result<LeafSplit, SqlliteError>)
        requires
            pager_ready(old(pager)),
            leaf_ptrs_fit(old(page).data@, header_offset as int),
        ensures
            pager_ready(final(pager)),
            pager_kept(old(pager), final(pager)),
            final(pager).spec_page_count() == old(pager).spec_page_count(),
            final(pager).db() == old(pager).db(),
            final(page).pgno == old(page).pgno,
            final(page).dirty == old(page).dirty,
            final(page).data@.len() == old(page).data@.len(),
            r matches Ok(split) ==> {
                &&& split.left_pgno == left_pgno
                &&& split.right_pgno == right_pgno
                &&& split.divider_blob is None
                &&& exists|all: Seq<(i64, Seq<u8>)>|
                    #[trigger] leaf_split_cells(
                        old(page).data@,
                        header_offset as int,
                        new_key,
                        new_cell@,
                        all,
                    ) && {
                        let mid = all.len() / 2;
                        let rho = page_header_offset_of(right_pgno);
                        &&& split.divider_key == all[mid - 1].0
                        &&& laid_out(
                            old(page).data@,
                            final(page).data@,
                            header_offset as int,
                            header_offset + 8,
                            pair_cells(all.take(mid as int)),
                        )
                        &&& final(pager).cached().contains_key(right_pgno)
                        &&& laid_out(
                            page_bytes(old(pager), right_pgno),
                            final(pager).cached()[right_pgno].0,
                            rho,
                            rho + 8,
                            pair_cells(all.skip(mid as int)),
                        )
                    }
            },
            ({
                let d = old(page).data@;
                let ho = header_offset as int;
                leaf_table_cells(d, ho) is Some && page_cell_count(d, ho) >= 1 && page_loadable(
                    old(pager),
                    right_pgno,
                ) && !old(pager).spec_read_only() && (forall|all: Seq<(i64, Seq<u8>)>|
                    #[trigger] leaf_split_cells(d, ho, new_key, new_cell@, all) ==> halves_fit(
                        all,
                        8,
                        d.len() as int,
                        ho,
                        old(pager).spec_page_size() as int,
                        page_header_offset_of(right_pgno),
                    )) ==> r is Ok
            }),
    {
        let ghost d = page.data@;
        let ghost ho = header_offset as int;
        let _ = page.data.len();
        let cell_count = read_u16_be(page.data.as_slice(), header_offset + 3) as usize;
        let mut cells: Vec<(i64, Vec<u8>)> = Vec::new();
        let mut i: usize = 0;
        while i < cell_count
            invariant
                d == page.data@,
                d == old(page).data@,
                page.pgno == old(page).pgno,
                page.dirty == old(page).dirty,
                pager_ready(pager),
                pager_kept(old(pager), pager),
                pager.spec_page_count() == old(pager).spec_page_count(),
                pager.db() == old(pager).db(),
                pager.cached() == old(pager).cached(),
                d.len() <= usize::MAX,
                ho == header_offset,
                i <= cell_count,
                cell_count == page_cell_count(d, ho),
                leaf_ptrs_fit(d, ho),
                cells@.len() == i,
                forall|j: int|
                    0 <= j < i ==> leaf_table_cell(d, ho, j) == Some(#[trigger] pair_views(cells@)[j]),
                leaf_table_cells(d, ho) is Some ==> forall|j: int|
                    0 <= j < cell_count ==> #[trigger] leaf_table_cell(d, ho, j) is Some,
            decreases cell_count - i,
        {
            let ptr = read_u16_be(page.data.as_slice(), leaf_cell_ptr_offset(header_offset, i)) as usize;
            assert(ptr == leaf_ptr(d, ho, i as int));
            let (rowid, payload_off) = match read_cell_rowid(page.data.as_slice(), ptr) {
                Ok(p) => p,
                Err(e) => return Err(e),
            };
            let (payload_len, n) = match read_varint(page.data.as_slice(), payload_off) {
                Ok(p) => p,
                Err(e) => return Err(e),
            };
            proof {
                lemma_varint_at_bound(d, ptr as int);
                lemma_varint_at_bound(d, payload_off as int);
            }
            let start = payload_off + n;
            if payload_len > (page.data.len() - start) as u64 {
                return Err(SqlliteError::sql(ResultCode::Corrupt, "truncated cell"));
            }
            let end = start + payload_len as usize;
            let cell = slice_to_vec(slice_subrange(page.data.as_slice(), ptr, end));
            let ghost c0 = cells@;
            cells.push((rowid, cell));
            proof {
                assert(pair_views(cells@) =~= pair_views(c0).push((rowid, cell@)));
                assert(leaf_table_cell(d, ho, i as int) == Some((rowid, cell@)));
                assert forall|j: int| 0 <= j <= i implies leaf_table_cell(d, ho, j) == Some(
                    #[trigger] pair_views(cells@)[j],
                ) by {
                    if j < i {
                        assert(pair_views(cells@)[j] == pair_views(c0)[j]);
                    }
                }
            }
            i = i + 1;
        }
        let ghost olds = pair_views(cells@);
        proof {
            assert forall|j: int| 0 <= j < cell_count implies #[trigger] leaf_table_cell(d, ho, j) is Some by {
                assert(leaf_table_cell(d, ho, j) == Some(pair_views(cells@)[j]));
            }
            assert(leaf_table_cells(d, ho) == Some(olds)) by {
                assert(Seq::new(cell_count as nat, |j: int| leaf_table_cell(d, ho, j)->Some_0) =~= olds) by {
                    assert forall|j: int| 0 <= j < cell_count implies leaf_table_cell(d, ho, j)->Some_0
                        == olds[j] by {
                        assert(leaf_table_cell(d, ho, j) == Some(pair_views(cells@)[j]));
                    }
                }
            }
        }
        let copy = slice_to_vec(new_cell);
        cells.push((new_key, copy));
        assert(pair_views(cells@) =~= olds.push((new_key, new_cell@)));
        let ghost unsorted = pair_views(cells@);
        let cells = sort_cells_by_key(cells);
        let mid = cells.len() / 2;
        if mid == 0 {
            return Err(SqlliteError::sql(ResultCode::TooBig, "string or blob too big"));
        }
        let divider_key = cells[mid - 1].0;
        let mut right_page = match load_page(pager, right_pgno) {
            Ok(p) => p,
            Err(e) => return Err(e),
        };
        let right_ho = page_header_offset(right_pgno);
        let left = slice_subrange(cells.as_slice(), 0, mid);
        let right = slice_subrange(cells.as_slice(), mid, cells.len());
        let ps = page.data.len();
        let rps = right_page.data.len();
        proof {
            let all = pair_views(cells@);
            assert(pair_views(left@) =~= all.take(mid as int));
            assert(pair_views(right@) =~= all.skip(mid as int));
            assert(all.to_multiset() == unsorted.to_multiset());
            assert(leaf_split_cells(d, ho, new_key, new_cell@, all));
        }
        if header_offset + 8 + 2 * mid > ps || !pairs_fit(left, ps - (header_offset + 8 + 2 * mid))
            || right_ho + 8 + 2 * (cells.len() - mid) > rps || !pairs_fit(
            right,
            rps - (right_ho + 8 + 2 * (cells.len() - mid)),
        ) {
            return Err(SqlliteError::sql(ResultCode::TooBig, "string or blob too big"));
        }
        let ghost dr = right_page.data@;
        let _ = self.rebuild_leaf_table_page(page, header_offset, left);
        let _ = self.rebuild_leaf_table_page(&mut right_page, right_ho, right);
        let ghost right_bytes = right_page.data@;
        match pager.write_page(&mut right_page) {
            Ok(()) => {},
            Err(e) => return Err(e),
        }
        proof {
            let all = pair_views(cells@);
            assert(pair_views(left@) =~= all.take(mid as int));
            assert(pair_views(right@) =~= all.skip(mid as int));
            assert(pager.cached()[right_pgno].0 == right_bytes);
            assert(leaf_split_cells(d, ho, new_key, new_cell@, all));
        }
        Ok(LeafSplit { left_pgno, divider_key, divider_blob: None, right_pgno })
    }

    /// Splits a full interior table page: its cells and `new_cell`, in key
    /// order, are divided into a first half that stays on this page and a
    /// second half that goes to page `right_pgno`; both keep the page's
    /// right-most child. Fails with `Corrupt` when a key cannot be read, and
    /// with `TooBig` when there is no first half or a half does not fit.
    fn split_interior_table<F: VfsFile>(
        &self,
        pager: &mut Pager<F>,
        page: &mut Page,
        header_offset: usize,
        left_pgno: PageNo,
        right_pgno: PageNo,
        new_cell: &[u8],
        new_key: i64,
    ) -> (r: Result<LeafSplit, SqlliteError>)
        requires
            pager_ready(old(pager)),
            interior_ptrs_fit(old(page).data@, header_offset as int),
            new_cell@.len() >= 4,
        ensures
            pager_ready(final(pager)),
            pager_kept(old(pager), final(pager)),
            final(pager).spec_page_count() == old(pager).spec_page_count(),
            final(pager).db() == old(pager).db(),
            final(page).pgno == old(page).pgno,
            final(page).dirty == old(page).dirty,
            final(page).data@.len() == old(page).data@.len(),
            r matches Ok(split) ==> {
                &&& split.left_pgno == left_pgno
                &&& split.right_pgno == right_pgno
                &&& split.divider_blob is None
                &&& exists|all: Seq<(i64, Seq<u8>)>|
                    #[trigger] interior_split_cells(
                        old(page).data@,
                        header_offset as int,
                        new_cell@,
                        all,
                    ) && {
                        let mid = all.len() / 2;
                        let rho = page_header_offset_of(right_pgno);
                        let rightmost = page_right_child(old(page).data@, header_offset as int);
                        &&& split.divider_key == all[mid - 1].0
                        &&& page_right_child(final(page).data@, header_offset as int) == rightmost
                        &&& laid_out(
                            old(page).data@,
                            final(page).data@,
                            header_offset as int,
                            header_offset + 12,
                            pair_cells(all.take(mid as int)),
                        )
                        &&& final(pager).cached().contains_key(right_pgno)
                        &&& page_right_child(final(pager).cached()[right_pgno].0, rho) == rightmost
                        &&& laid_out(
                            page_bytes(old(pager), right_pgno),
                            final(pager).cached()[right_pgno].0,
                            rho,
                            rho + 12,
                            pair_cells(all.skip(mid as int)),
                        )
                    }
            },
            ({
                let d = old(page).data@;
                let ho = header_offset as int;
                interior_table_cells(d, ho) is Some && page_cell_count(d, ho) >= 1 && page_loadable(
                    old(pager),
                    right_pgno,
                ) && !old(pager).spec_read_only() && (forall|all: Seq<(i64, Seq<u8>)>|
                    #[trigger] interior_split_cells(d, ho, new_cell@, all) ==> halves_fit(
                        all,
                        12,
                        d.len() as int,
                        ho,
                        old(pager).spec_page_size() as int,
                        page_header_offset_of(right_pgno),
                    )) ==> r is Ok
            }),
    {
        let ghost d = page.data@;
        let ghost ho = header_offset as int;
        let _ = page.data.len();
        let cell_count = read_u16_be(page.data.as_slice(), header_offset + 3) as usize;
        let rightmost = read_u32_be(page.data.as_slice(), header_offset + 8);
        let mut cells: Vec<(i64, Vec<u8>)> = Vec::new();
        let ghost mut raw: Seq<Seq<u8>> = Seq::empty();
        let mut i: usize = 0;
        while i < cell_count
            invariant
                d == page.data@,
                d == old(page).data@,
                page.pgno == old(page).pgno,
                page.dirty == old(page).dirty,
                pager_ready(pager),
                pager_kept(old(pager), pager),
                pager.spec_page_count() == old(pager).spec_page_count(),
                pager.db() == old(pager).db(),
                pager.cached() == old(pager).cached(),
                d.len() <= usize::MAX,
                ho == header_offset,
                i <= cell_count,
                cell_count == page_cell_count(d, ho),
                interior_ptrs_fit(d, ho),
                raw.len() == i,
                pair_views(cells@) == keyed(raw),
                forall|j: int| 0 <= j < i ==> interior_table_cell(d, ho, j) == Some(#[trigger] raw[j]),
                interior_table_cells(d, ho) is Some ==> forall|j: int|
                    0 <= j < cell_count ==> #[trigger] interior_table_cell(d, ho, j) is Some,
            decreases cell_count - i,
        {
            let ptr = read_u16_be(page.data.as_slice(), interior_cell_ptr_offset(header_offset, i))
                as usize;
            assert(ptr == interior_ptr(d, ho, i as int));
            assert(interior_ptr(d, ho, i as int) + 4 <= d.len());
            let (_, n) = match read_varint(page.data.as_slice(), ptr + 4) {
                Ok(p) => p,
                Err(e) => {
                    assert(interior_table_cell(d, ho, i as int) is None);
                    return Err(e);
                },
            };
            proof {
                lemma_varint_at_bound(d, ptr + 4);
            }
            let end = ptr + 4 + n;
            let cell = slice_to_vec(slice_subrange(page.data.as_slice(), ptr, end));
            let key = match read_interior_table_cell(cell.as_slice(), 0) {
                Ok((_, k)) => k,
                Err(_) => 0,
            };
            let ghost c0 = cells@;
            let ghost r0 = raw;
            cells.push((key, cell));
            proof {
                raw = raw.push(cell@);
                assert(key == sort_key(cell@));
                assert(pair_views(cells@) =~= keyed(raw)) by {
                    assert(pair_views(cells@) =~= pair_views(c0).push((key, cell@)));
                    assert(keyed(raw) =~= keyed(r0).push((sort_key(cell@), cell@)));
                }
                assert forall|j: int| 0 <= j <= i implies interior_table_cell(d, ho, j) == Some(
                    #[trigger] raw[j],
                ) by {
                    if j < i {
                        assert(raw[j] == r0[j]);
                    }
                }
            }
            i = i + 1;
        }
        proof {
            assert forall|j: int| 0 <= j < cell_count implies #[trigger] interior_table_cell(d, ho, j) is Some by {
                assert(interior_table_cell(d, ho, j) == Some(raw[j]));
            }
            assert(interior_table_cells(d, ho) == Some(raw)) by {
                assert(Seq::new(cell_count as nat, |j: int| interior_table_cell(d, ho, j)->Some_0) =~= raw)
                    by {
                    assert forall|j: int| 0 <= j < cell_count implies interior_table_cell(d, ho, j)->Some_0
                        == raw[j] by {
                        assert(interior_table_cell(d, ho, j) == Some(raw[j]));
                    }
                }
            }
        }
        let copy = slice_to_vec(new_cell);
        let new_sort_key = match read_interior_table_cell(new_cell, 0) {
            Ok((_, k)) => k,
            Err(_) => 0,
        };
        let ghost r1 = raw.push(new_cell@);
        let ghost c1 = cells@;
        cells.push((new_sort_key, copy));
        proof {
            assert(new_sort_key == sort_key(new_cell@));
            assert(pair_views(cells@) =~= pair_views(c1).push((new_sort_key, new_cell@)));
            assert(keyed(r1) =~= keyed(raw).push((sort_key(new_cell@), new_cell@)));
        }
        let cells = sort_cells_by_key(cells);
        let mid = cells.len() / 2;
        if mid == 0 {
            return Err(SqlliteError::sql(ResultCode::TooBig, "string or blob too big"));
        }
        let divider_key = cells[mid - 1].0;
        let mut left: Vec<Vec<u8>> = Vec::new();
        let mut right: Vec<Vec<u8>> = Vec::new();
        let mut k: usize = 0;
        while k < cells.len()
            invariant
                k <= cells@.len(),
                mid <= cells@.len(),
                k <= mid ==> cell_views(left@) == pair_cells(pair_views(cells@)).take(k as int)
                    && right@.len() == 0,
                k > mid ==> cell_views(left@) == pair_cells(pair_views(cells@)).take(mid as int)
                    && cell_views(right@) == pair_cells(pair_views(cells@)).subrange(mid as int, k as int),
            decreases cells@.len() - k,
        {
            let c = slice_to_vec(cells[k].1.as_slice());
            let ghost l0 = left@;
            let ghost g0 = right@;
            if k < mid {
                left.push(c);
                assert(cell_views(left@) =~= cell_views(l0).push(c@));
            } else {
                right.push(c);
                assert(cell_views(right@) =~= cell_views(g0).push(c@));
            }
            proof {
                let pc = pair_cells(pair_views(cells@));
                assert(pc[k as int] == c@);
                assert(pc.take(k + 1) =~= pc.take(k as int).push(c@));
                if k >= mid {
                    assert(pc.subrange(mid as int, k + 1) =~= pc.subrange(mid as int, k as int).push(c@));
                }
                if k == mid {
                    assert(cell_views(g0) =~= pc.subrange(mid as int, k as int));
                }
            }
            k = k + 1;
        }
        let mut right_page = match load_page(pager, right_pgno) {
            Ok(p) => p,
            Err(e) => return Err(e),
        };
        let right_ho = page_header_offset(right_pgno);
        let ps = page.data.len();
        let rps = right_page.data.len();
        proof {
            let all = pair_views(cells@);
            assert(pair_cells(all).take(mid as int) =~= pair_cells(all.take(mid as int)));
            assert(pair_cells(all).subrange(mid as int, cells@.len() as int) =~= pair_cells(
                all.skip(mid as int),
            ));
            assert(cell_views(left@).len() == mid);
            assert(interior_split_cells(d, ho, new_cell@, all));
        }
        if header_offset + 12 + 2 * left.len() > ps || !cells_fit(
            left.as_slice(),
            ps - (header_offset + 12 + 2 * left.len()),
        ) || right_ho + 12 + 2 * right.len() > rps || !cells_fit(
            right.as_slice(),
            rps - (right_ho + 12 + 2 * right.len()),
        ) {
            return Err(SqlliteError::sql(ResultCode::TooBig, "string or blob too big"));
        }
        let _ = self.rebuild_interior_table_page(page, header_offset, left.as_slice(), rightmost);
        let new_rightmost = read_u32_be(page.data.as_slice(), header_offset + 8);
        let _ = self.rebuild_interior_table_page(
            &mut right_page,
            right_ho,
            right.as_slice(),
            new_rightmost,
        );
        let ghost right_bytes = right_page.data@;
        match pager.write_page(&mut right_page) {
            Ok(()) => {},
            Err(e) => return Err(e),
        }
        proof {
            let all = pair_views(cells@);
            assert(pair_cells(all).take(mid as int) =~= pair_cells(all.take(mid as int)));
            assert(pair_cells(all).subrange(mid as int, cells@.len() as int) =~= pair_cells(
                all.skip(mid as int),
            ));
            assert(pager.cached()[right_pgno].0 == right_bytes);
            assert(interior_split_cells(d, ho, new_cell@, all));
        }
        Ok(LeafSplit { left_pgno, divider_key, divider_blob: None, right_pgno })
    }

    /// Makes a b-tree on a new page: an empty leaf page of type `page_type`.
    fn create_btree<F: VfsFile>(pager: &mut Pager<F>, page_type: u8, flags: BtreeFlags) -> (r:
        Result<(Self, PageNo), SqlliteError>)
        requires
            pager_ready(old(pager)),
        ensures
            pager_ready(final(pager)),
            pager_kept(old(pager), final(pager)),
            can_add_page(old(pager)) ==> r is Ok,
            r matches Ok((b, p)) ==> {
                let ps = old(pager).spec_page_size() as int;
                &&& p == old(pager).spec_page_count() + 1
                &&& b.spec_root_page() == p
                &&& b.spec_flags() == flags
                &&& final(pager).spec_page_count() == p
                &&& final(pager).cached() == old(pager).cached().insert(
                    p,
                    (fresh_btree_page(ps, page_header_offset_of(p), page_type), true),
                )
            },
    {
        let pgno = match new_page(pager) {
            Ok(p) => p,
            Err(e) => return Err(e),
        };
        let ghost mid = pager.cached();
        match init_leaf_page(pager, pgno, page_type) {
            Ok(()) => {},
            Err(e) => return Err(e),
        }
        proof {
            let ps = old(pager).spec_page_size() as int;
            assert(pager.cached() =~= old(pager).cached().insert(
                pgno,
                (fresh_btree_page(ps, page_header_offset_of(pgno), page_type), true),
            ));
        }
        Ok((Self::new(pgno, flags), pgno))
    }

    /// Makes a table b-tree (rowid keys) on a new, empty leaf page.
    pub fn create_table<F: VfsFile>(pager: &mut Pager<F>) -> (r: Result<(Self, PageNo), SqlliteError>)
        requires
            pager_ready(old(pager)),
        ensures
            pager_ready(final(pager)),
            pager_kept(old(pager), final(pager)),
            can_add_page(old(pager)) ==> r is Ok,
            r matches Ok((b, p)) ==> {
                let ps = old(pager).spec_page_size() as int;
                &&& p == old(pager).spec_page_count() + 1
                &&& b.spec_root_page() == p
                &&& b.spec_flags() == (BtreeFlags { intkey: true, blobkey: false })
                &&& final(pager).spec_page_count() == p
                &&& final(pager).cached() == old(pager).cached().insert(
                    p,
                    (fresh_btree_page(ps, page_header_offset_of(p), PAGE_TYPE_LEAF_TABLE), true),
                )
            },
    {
        Self::create_btree(pager, PAGE_TYPE_LEAF_TABLE, BtreeFlags { intkey: true, blobkey: false })
    }

    /// Makes an index b-tree (payload keys) on a new, empty leaf page.
    pub fn create_index<F: VfsFile>(pager: &mut Pager<F>) -> (r: Result<(Self, PageNo), SqlliteError>)
        requires
            pager_ready(old(pager)),
        ensures
            pager_ready(final(pager)),
            pager_kept(old(pager), final(pager)),
            can_add_page(old(pager)) ==> r is Ok,
            r matches Ok((b, p)) ==> {
                let ps = old(pager).spec_page_size() as int;
                &&& p == old(pager).spec_page_count() + 1
                &&& b.spec_root_page() == p
                &&& b.spec_flags() == (BtreeFlags { intkey: false, blobkey: true })
                &&& final(pager).spec_page_count() == p
                &&& final(pager).cached() == old(pager).cached().insert(
                    p,
                    (fresh_btree_page(ps, page_header_offset_of(p), PAGE_TYPE_LEAF_INDEX), true),
                )
            },
    {
        Self::create_btree(pager, PAGE_TYPE_LEAF_INDEX, BtreeFlags { intkey: false, blobkey: true })
    }

    /// Makes a new root above the old one after it split: an interior page
    /// whose one cell points to the old root, the divider as its key, and
    /// whose right-most child is the new right page.
    fn promote_root_split<F: VfsFile>(&mut self, pager: &mut Pager<F>, split: LeafSplit) -> (r:
        Result<(), SqlliteError>)
        requires
            pager_ready(old(pager)),
        ensures
            pager_ready(final(pager)),
            pager_kept(old(pager), final(pager)),
            final(self).spec_flags() == old(self).spec_flags(),
            r is Ok ==> final(self).spec_root_page() == old(pager).spec_page_count() + 1
                && final(pager).cached().contains_key(final(self).spec_root_page()),
            r is Err ==> final(self).spec_root_page() == old(self).spec_root_page(),
            ({
                let divider_fits = if old(self).spec_flags().blobkey {
                    split.divider_blob matches Some(d) && 13 + d@.len() <= old(pager).spec_page_size()
                } else {
                    split.divider_key >= 0
                };
                room_for_page(old(pager)) && !old(pager).spec_read_only() && old(
                    pager,
                ).spec_page_size() < 65536 && divider_fits ==> r is Ok
            }),
    {
        let old_root = self.root_page;
        let new_root = match new_page(pager) {
            Ok(p) => p,
            Err(e) => return Err(e),
        };
        let page_size = pager.page_size() as usize;
        let mut data: Vec<u8> = vec![0u8; page_size];
        let header_offset = page_header_offset(new_root);
        let page_type = if self.flags.blobkey {
            PAGE_TYPE_INTERIOR_INDEX
        } else {
            PAGE_TYPE_INTERIOR_TABLE
        };
        data.set(header_offset, page_type);
        let content_start = page_size as u16;
        write_u16_be(data.as_mut_slice(), header_offset + 5, content_start);
        write_u32_be(data.as_mut_slice(), header_offset + 8, split.right_pgno);
        let cell = if self.flags.blobkey {
            let divider = match &split.divider_blob {
                Some(d) => d,
                None => return Err(SqlliteError::sql(ResultCode::Corrupt, "missing index divider")),
            };
            if divider.len() as u64 >= 0x8000_0000_0000_0000 {
                return Err(SqlliteError::sql(ResultCode::TooBig, "string or blob too big"));
            }
            proof {
                crate::varint::lemma_groups_below(divider@.len() as nat);
            }
            build_interior_index_cell(old_root, divider.as_slice())
        } else {
            if split.divider_key < 0 {
                return Err(SqlliteError::sql(ResultCode::Corrupt, "invalid divider key"));
            }
            proof {
                crate::varint::lemma_groups_below(split.divider_key as nat);
            }
            build_interior_table_cell(old_root, split.divider_key)
        };
        if cell.len() > content_start as usize {
            return Err(SqlliteError::sql(ResultCode::TooBig, "string or blob too big"));
        }
        let cell_start = content_start as usize - cell.len();
        copy_bytes(&mut data, cell_start, cell.as_slice());
        write_u16_be(data.as_mut_slice(), header_offset + 3, 1);
        write_u16_be(data.as_mut_slice(), header_offset + 12, cell_start as u16);
        let mut page = Page { pgno: new_root, data, dirty: true };
        match pager.write_page(&mut page) {
            Ok(()) => {},
            Err(e) => return Err(e),
        }
        self.root_page = new_root;
        Ok(())
    }

    /// Inserts a table cell into leaf page `pgno`, splitting the page when it
    /// is full; returns the split. Fails with `Constraint` "UNIQUE constraint
    /// failed" when the page holds the rowid already.
    fn insert_into_leaf_table<F: VfsFile>(
        &mut self,
        pager: &mut Pager<F>,
        pgno: PageNo,
        cell: &[u8],
        key: i64,
    ) -> (r: Result<Option<LeafSplit>, SqlliteError>)
        requires
            pager_ready(old(pager)),
        ensures
            pager_ready(final(pager)),
            pager_kept(old(pager), final(pager)),
            *final(self) == *old(self),
            r matches Ok(Some(split)) ==> split.left_pgno == pgno && split.divider_blob is None,
            readable_table_leaf(old(pager), pgno) && leaf_has_rowid(old(pager), pgno, key) ==> (r matches Err(
                e,
            ) && is_sql_error(e, ResultCode::Constraint, "UNIQUE constraint failed"@)),
            leaf_takes_cell(old(pager), pgno, cell@, key) ==> r matches Ok(None),
            r matches Ok(None) ==> cell_placed(old(pager), final(pager), pgno, cell@, key),
    {
        let mut page = match load_page(pager, pgno) {
            Ok(p) => p,
            Err(e) => return Err(e),
        };
        let header_offset = page_header_offset(pgno);
        if !leaf_page_fits(page.data.as_slice(), header_offset) {
            return Err(SqlliteError::sql(ResultCode::Corrupt, "malformed b-tree page"));
        }
        if page.data[header_offset] != PAGE_TYPE_LEAF_TABLE {
            return Err(SqlliteError::sql(ResultCode::Corrupt, "expected leaf table page"));
        }
        let ghost d = page.data@;
        let ghost ho = header_offset as int;
        match self.find_cell_in_page_table(&page, header_offset, key) {
            Ok(Some(existing)) => {
                if existing == key {
                    return Err(SqlliteError::sql(ResultCode::Constraint, "UNIQUE constraint failed"));
                }
            },
            Ok(None) => {
                proof {
                    if leaf_has_rowid(old(pager), pgno, key) {
                        let i = choose|i: int|
                            0 <= i < page_cell_count(d, ho) && #[trigger] leaf_rowid(d, ho, i) == Some(
                                key,
                            );
                        assert(rowid_differs(d, ho, i, key));
                    }
                }
            },
            Err(e) => return Err(e),
        }
        let inserted = match self.try_insert_leaf_cell(&mut page, header_offset, cell, key, false) {
            Ok(b) => b,
            Err(e) => return Err(e),
        };
        if inserted {
            let ghost pre = *pager;
            let ghost placed_data = page.data@;
            match pager.write_page(&mut page) {
                Ok(()) => {},
                Err(e) => return Err(e),
            }
            proof {
                assert forall|p: PageNo| p != pgno implies #[trigger] page_bytes(pager, p)
                    == page_bytes(old(pager), p) by {
                    assert(pager.cached().contains_key(p) == pre.cached().contains_key(p));
                    assert(page_bytes(&pre, p) == page_bytes(old(pager), p));
                    if pre.cached().contains_key(p) {
                        assert(pager.cached()[p] == pre.cached()[p]);
                    }
                }
                assert(page_bytes(pager, pgno) == placed_data);
                assert(d == page_bytes(old(pager), pgno));
                assert(ho == page_header_offset_of(pgno));
                let idx = choose|idx: int|
                    leaf_insert_slot(d, ho, key, idx) && placed(d, placed_data, ho, ho + 8, idx, cell@);
                assert(placed(d, page_bytes(pager, pgno), ho, ho + 8, idx, cell@));
            }
            return Ok(None);
        }
        let right_pgno = match new_page(pager) {
            Ok(p) => p,
            Err(e) => return Err(e),
        };
        match init_leaf_page(pager, right_pgno, PAGE_TYPE_LEAF_TABLE) {
            Ok(()) => {},
            Err(e) => return Err(e),
        }
        let split = match self.split_leaf_table(
            pager,
            &mut page,
            header_offset,
            pgno,
            right_pgno,
            cell,
            key,
        ) {
            Ok(s) => s,
            Err(e) => return Err(e),
        };
        match pager.write_page(&mut page) {
            Ok(()) => {},
            Err(e) => return Err(e),
        }
        Ok(Some(split))
    }

    /// Adds the divider of a split child to interior page `pgno`, splitting
    /// the page in turn when it is full: the root gets a new root above it,
    /// any other page is returned as split.
    fn insert_into_interior_table<F: VfsFile>(
        &mut self,
        pager: &mut Pager<F>,
        pgno: PageNo,
        split: LeafSplit,
    ) -> (r: Result<Option<LeafSplit>, SqlliteError>)
        requires
            pager_ready(old(pager)),
        ensures
            pager_ready(final(pager)),
            pager_kept(old(pager), final(pager)),
            final(self).spec_flags() == old(self).spec_flags(),
            r matches Ok(Some(s)) ==> s.left_pgno == pgno && s.divider_blob is None,
            ({
                let d = page_bytes(old(pager), pgno);
                let ho = page_header_offset_of(pgno);
                let len = 4 + crate::varint::groups(split.divider_key as nat) as int;
                page_loadable(old(pager), pgno) && split.divider_key >= 0 && !old(
                    pager,
                ).spec_read_only() && (forall|d2: Seq<u8>|
                    #[trigger] same_but_right_child(d, d2, ho) ==> interior_takes_cell(d2, ho, len))
                    ==> r matches Ok(None)
            }),
    {
        let mut page = match load_page(pager, pgno) {
            Ok(p) => p,
            Err(e) => return Err(e),
        };
        let header_offset = page_header_offset(pgno);
        let ghost d = page.data@;
        let rightmost = read_u32_be(page.data.as_slice(), header_offset + 8);
        if rightmost == split.left_pgno {
            write_u32_be(page.data.as_mut_slice(), header_offset + 8, split.right_pgno);
        }
        proof {
            assert(d == page_bytes(old(pager), pgno));
            assert(header_offset as int == page_header_offset_of(pgno));
            assert(same_but_right_child(d, page.data@, header_offset as int));
        }
        if !interior_page_fits(page.data.as_slice(), header_offset) {
            return Err(SqlliteError::sql(ResultCode::Corrupt, "malformed b-tree page"));
        }
        if split.divider_key < 0 {
            return Err(SqlliteError::sql(ResultCode::Corrupt, "invalid divider key"));
        }
        let cell = build_interior_table_cell(split.left_pgno, split.divider_key);
        assert(cell@.len() == 4 + crate::varint::groups(split.divider_key as nat));
        let inserted = match self.try_insert_interior_cell_table(
            &mut page,
            header_offset,
            cell.as_slice(),
            split.divider_key,
        ) {
            Ok(b) => b,
            Err(e) => return Err(e),
        };
        if inserted {
            match pager.write_page(&mut page) {
                Ok(()) => {},
                Err(e) => return Err(e),
            }
            return Ok(None);
        }
        let right_pgno = match new_page(pager) {
            Ok(p) => p,
            Err(e) => return Err(e),
        };
        let page_type = page.data[header_offset];
        match init_interior_page(pager, right_pgno, page_type) {
            Ok(()) => {},
            Err(e) => return Err(e),
        }
        let interior_split = match self.split_interior_table(
            pager,
            &mut page,
            header_offset,
            pgno,
            right_pgno,
            cell.as_slice(),
            split.divider_key,
        ) {
            Ok(s) => s,
            Err(e) => return Err(e),
        };
        match pager.write_page(&mut page) {
            Ok(()) => {},
            Err(e) => return Err(e),
        }
        if pgno == self.root_page {
            match self.promote_root_split(pager, interior_split) {
                Ok(()) => {},
                Err(e) => return Err(e),
            }
            Ok(None)
        } else {
            Ok(Some(interior_split))
        }
    }

    /// Inserts a table cell into the subtree at page `pgno`; returns the
    /// split of `pgno` when it had to split. At most `depth` pages are
    /// descended through: a deeper tree is taken as a cycle of pages and
    /// fails with `Corrupt`.
    fn insert_into_tree<F: VfsFile>(
        &mut self,
        pager: &mut Pager<F>,
        pgno: PageNo,
        cell: &[u8],
        key: i64,
        depth: u32,
    ) -> (r: Result<Option<LeafSplit>, SqlliteError>)
        requires
            pager_ready(old(pager)),
        ensures
            pager_ready(final(pager)),
            pager_kept(old(pager), final(pager)),
            final(self).spec_flags() == old(self).spec_flags(),
            r matches Ok(Some(s)) ==> s.left_pgno == pgno && s.divider_blob is None,
            depth > 0 && readable_table_leaf(old(pager), pgno) && leaf_has_rowid(old(pager), pgno, key)
                ==> (r matches Err(e) && is_sql_error(
                e,
                ResultCode::Constraint,
                "UNIQUE constraint failed"@,
            )),
            depth > 0 && leaf_takes_cell(old(pager), pgno, cell@, key) ==> (r matches Ok(None)
                && cell_placed(old(pager), final(pager), pgno, cell@, key)),
            forall|leaf: PageNo|
                #[trigger] key_path(old(pager), pgno, key, leaf, depth as nat) && leaf_takes_cell(
                    old(pager),
                    leaf,
                    cell@,
                    key,
                ) ==> (r matches Ok(None) && cell_placed(old(pager), final(pager), leaf, cell@, key)),
            forall|leaf: PageNo|
                #[trigger] key_path(old(pager), pgno, key, leaf, depth as nat) && readable_table_leaf(
                    old(pager),
                    leaf,
                ) && leaf_has_rowid(old(pager), leaf, key) ==> (r matches Err(e) && is_sql_error(
                    e,
                    ResultCode::Constraint,
                    "UNIQUE constraint failed"@,
                )),
        decreases depth,
    {
        if depth == 0 {
            return Err(SqlliteError::sql(ResultCode::Corrupt, "b-tree deeper than its pages"));
        }
        let page = match load_page(pager, pgno) {
            Ok(p) => p,
            Err(e) => return Err(e),
        };
        let header_offset = page_header_offset(pgno);
        let page_type = page.data[header_offset];
        if page_type == PAGE_TYPE_LEAF_TABLE {
            self.insert_into_leaf_table(pager, pgno, cell, key)
        } else if page_type == PAGE_TYPE_INTERIOR_TABLE {
            if !interior_page_fits(page.data.as_slice(), header_offset) {
                return Err(SqlliteError::sql(ResultCode::Corrupt, "malformed b-tree page"));
            }
            let child = match self.find_child_page_table(&page, header_offset, key) {
                Ok(c) => c,
                Err(e) => return Err(e),
            };
            proof {
                let d = page.data@;
                let ho = header_offset as int;
                assert forall|leaf: PageNo| #[trigger] key_path(old(pager), pgno, key, leaf, depth as nat)
                    implies key_path(pager, child, key, leaf, (depth - 1) as nat) && (leaf_takes_cell(
                    old(pager),
                    leaf,
                    cell@,
                    key,
                ) ==> leaf_takes_cell(pager, leaf, cell@, key)) && (readable_table_leaf(old(pager), leaf)
                    ==> readable_table_leaf(pager, leaf)) && leaf_has_rowid(old(pager), leaf, key)
                    == leaf_has_rowid(pager, leaf, key) by {
                    let c = choose|c: int|
                        #[trigger] is_child_for_key(d, ho, key, c) && key_path(
                            old(pager),
                            c as PageNo,
                            key,
                            leaf,
                            (depth - 1) as nat,
                        );
                    lemma_child_for_key_unique(d, ho, key, c, child as int);
                    lemma_key_path_kept(old(pager), pager, child, key, leaf, (depth - 1) as nat);
                    lemma_leaf_facts_kept(old(pager), pager, leaf, cell@, key);
                }
            }
            let ghost mid = *pager;
            match self.insert_into_tree(pager, child, cell, key, depth - 1) {
                Ok(Some(split)) => self.insert_into_interior_table(pager, pgno, split),
                Ok(None) => Ok(None),
                Err(e) => Err(e),
            }
        } else {
            Err(SqlliteError::sql(ResultCode::Corrupt, "unexpected page type in table btree"))
        }
    }

    /// Inserts the row `record` under rowid `key` into a table b-tree.
    fn insert_table_row<F: VfsFile>(&mut self, pager: &mut Pager<F>, key: i64, record: &[u8]) -> (r:
        Result<(), SqlliteError>)
        requires
            pager_ready(old(pager)),
            key >= 0,
            record@.len() < 0x8000000000000000,
        ensures
            pager_ready(final(pager)),
            pager_kept(old(pager), final(pager)),
            final(self).spec_flags() == old(self).spec_flags(),
            old(pager).spec_page_count() > 0 && readable_table_leaf(old(pager), old(self).spec_root_page())
                && leaf_has_rowid(old(pager), old(self).spec_root_page(), key) ==> (r matches Err(e)
                && is_sql_error(e, ResultCode::Constraint, "UNIQUE constraint failed"@)),
            old(pager).spec_page_count() > 0 && leaf_takes_cell(
                old(pager),
                old(self).spec_root_page(),
                crate::btree::table_cell(key as nat, record@),
                key,
            ) ==> (r is Ok && cell_placed(
                old(pager),
                final(pager),
                old(self).spec_root_page(),
                crate::btree::table_cell(key as nat, record@),
                key,
            )),
            forall|leaf: PageNo|
                #[trigger] key_path(
                    old(pager),
                    old(self).spec_root_page(),
                    key,
                    leaf,
                    old(pager).spec_page_count() as nat,
                ) && leaf_takes_cell(
                    old(pager),
                    leaf,
                    crate::btree::table_cell(key as nat, record@),
                    key,
                ) ==> (r is Ok && cell_placed(
                    old(pager),
                    final(pager),
                    leaf,
                    crate::btree::table_cell(key as nat, record@),
                    key,
                )),
            forall|leaf: PageNo|
                #[trigger] key_path(
                    old(pager),
                    old(self).spec_root_page(),
                    key,
                    leaf,
                    old(pager).spec_page_count() as nat,
                ) && readable_table_leaf(old(pager), leaf) && leaf_has_rowid(old(pager), leaf, key)
                    ==> (r matches Err(e) && is_sql_error(e, ResultCode::Constraint, "UNIQUE constraint failed"@)),
    {
        let cell = build_table_cell(key, record);
        let root = self.root_page;
        let depth = pager.page_count();
        match self.insert_into_tree(pager, root, cell.as_slice(), key, depth) {
            Ok(Some(split)) => {
                if split.left_pgno == self.root_page {
                    self.promote_root_split(pager, split)
                } else {
                    let root = self.root_page;
                    match self.insert_into_interior_table(pager, root, split) {
                        Ok(_) => Ok(()),
                        Err(e) => Err(e),
                    }
                }
            },
            Ok(None) => Ok(()),
            Err(e) => Err(e),
        }
    }

    /// Inserts the row `record` under rowid `key`. Fails with `Internal` on
    /// an index b-tree, with `Constraint` when the rowid is taken.
    pub fn insert<F: VfsFile>(&mut self, pager: &mut Pager<F>, key: i64, record: &[u8]) -> (r:
        Result<(), SqlliteError>)
        requires
            pager_ready(old(pager)),
            key >= 0,
            record@.len() < 0x8000000000000000,
        ensures
            pager_ready(final(pager)),
            pager_kept(old(pager), final(pager)),
            final(self).spec_flags() == old(self).spec_flags(),
            old(self).spec_flags().blobkey ==> *final(self) == *old(self) && *final(pager)
                == *old(pager) && (r matches Err(e) && is_sql_error(
                e,
                ResultCode::Internal,
                "use insert_index for index btrees"@,
            )),
            !old(self).spec_flags().blobkey && old(pager).spec_page_count() > 0 && readable_table_leaf(
                old(pager),
                old(self).spec_root_page(),
            ) && leaf_has_rowid(old(pager), old(self).spec_root_page(), key) ==> (r matches Err(e)
                && is_sql_error(e, ResultCode::Constraint, "UNIQUE constraint failed"@)),
            !old(self).spec_flags().blobkey && old(pager).spec_page_count() > 0 && leaf_takes_cell(
                old(pager),
                old(self).spec_root_page(),
                crate::btree::table_cell(key as nat, record@),
                key,
            ) ==> (r is Ok && cell_placed(
                old(pager),
                final(pager),
                old(self).spec_root_page(),
                crate::btree::table_cell(key as nat, record@),
                key,
            )),
            !old(self).spec_flags().blobkey ==> forall|leaf: PageNo|
                #[trigger] key_path(
                    old(pager),
                    old(self).spec_root_page(),
                    key,
                    leaf,
                    old(pager).spec_page_count() as nat,
                ) && leaf_takes_cell(
                    old(pager),
                    leaf,
                    crate::btree::table_cell(key as nat, record@),
                    key,
                ) ==> (r is Ok && cell_placed(
                    old(pager),
                    final(pager),
                    leaf,
                    crate::btree::table_cell(key as nat, record@),
                    key,
                )),
            !old(self).spec_flags().blobkey ==> forall|leaf: PageNo|
                #[trigger] key_path(
                    old(pager),
                    old(self).spec_root_page(),
                    key,
                    leaf,
                    old(pager).spec_page_count() as nat,
                ) && readable_table_leaf(old(pager), leaf) && leaf_has_rowid(old(pager), leaf, key)
                    ==> (r matches Err(e) && is_sql_error(e, ResultCode::Constraint, "UNIQUE constraint failed"@)),
    {
        if self.flags.blobkey {
            return Err(SqlliteError::sql(ResultCode::Internal, "use insert_index for index btrees"));
        }
        self.insert_table_row(pager, key, record)
    }

    /// The leaf page of the subtree at `pgno` where rowid `key` belongs. At
    /// most `depth` pages are descended through: a deeper tree is taken as a
    /// cycle of pages and fails with `Corrupt`.
    fn find_leaf_for_key<F: VfsFile>(&self, pager: &mut Pager<F>, pgno: PageNo, key: i64, depth: u32) -> (r:
        Result<PageNo, SqlliteError>)
        requires
            pager_ready(old(pager)),
        ensures
            pager_ready(final(pager)),
            pager_kept(old(pager), final(pager)),
            final(pager).spec_page_count() == old(pager).spec_page_count(),
            final(pager).db() == old(pager).db(),
            forall|p: PageNo| #[trigger] page_bytes(final(pager), p) == page_bytes(old(pager), p),
            loadable_kept(old(pager), final(pager)),
            r matches Ok(leaf) ==> page_bytes(old(pager), leaf)[page_header_offset_of(leaf)]
                == PAGE_TYPE_LEAF_TABLE,
            depth > 0 && page_loadable(old(pager), pgno) && page_bytes(old(pager), pgno)[page_header_offset_of(
                pgno,
            )] == PAGE_TYPE_LEAF_TABLE ==> r == Ok::<PageNo, SqlliteError>(pgno),
            forall|leaf: PageNo| #[trigger] key_path(old(pager), pgno, key, leaf, depth as nat) ==> r
                == Ok::<PageNo, SqlliteError>(leaf),
        decreases depth,
    {
        if depth == 0 {
            return Err(SqlliteError::sql(ResultCode::Corrupt, "b-tree deeper than its pages"));
        }
        let page = match load_page(pager, pgno) {
            Ok(p) => p,
            Err(e) => return Err(e),
        };
        let header_offset = page_header_offset(pgno);
        let page_type = page.data[header_offset];
        if page_type == PAGE_TYPE_LEAF_TABLE {
            Ok(pgno)
        } else if page_type == PAGE_TYPE_INTERIOR_TABLE {
            if !interior_page_fits(page.data.as_slice(), header_offset) {
                return Err(SqlliteError::sql(ResultCode::Corrupt, "malformed b-tree page"));
            }
            let child = match self.find_child_page_table(&page, header_offset, key) {
                Ok(c) => c,
                Err(e) => return Err(e),
            };
            proof {
                let d = page.data@;
                let ho = header_offset as int;
                assert forall|leaf: PageNo| #[trigger] key_path(old(pager), pgno, key, leaf, depth as nat)
                    implies key_path(pager, child, key, leaf, (depth - 1) as nat) by {
                    let c = choose|c: int|
                        #[trigger] is_child_for_key(d, ho, key, c) && key_path(
                            old(pager),
                            c as PageNo,
                            key,
                            leaf,
                            (depth - 1) as nat,
                        );
                    lemma_child_for_key_unique(d, ho, key, c, child as int);
                    lemma_key_path_kept(old(pager), pager, child, key, leaf, (depth - 1) as nat);
                }
            }
            self.find_leaf_for_key(pager, child, key, depth - 1)
        } else {
            Err(SqlliteError::sql(ResultCode::Corrupt, "invalid page in find_leaf"))
        }
    }

    /// Overwrites in place the record of rowid `key` with `record` when the
    /// two have the same length; returns whether it did.
    fn update_table_row<F: VfsFile>(&self, pager: &mut Pager<F>, key: i64, record: &[u8]) -> (r:
        Result<bool, SqlliteError>)
        requires
            pager_ready(old(pager)),
        ensures
            pager_ready(final(pager)),
            pager_kept(old(pager), final(pager)),
            final(pager).spec_page_count() == old(pager).spec_page_count(),
            final(pager).db() == old(pager).db(),
            r matches Ok(false) ==> forall|p: PageNo| #[trigger] page_bytes(final(pager), p)
                == page_bytes(old(pager), p),
            r matches Ok(false) ==> loadable_kept(old(pager), final(pager)),
            r matches Ok(true) ==> exists|leaf: PageNo, i: int, off: int|
                #![trigger leaf_rowid(page_bytes(old(pager), leaf), page_header_offset_of(leaf), i), overwrite(page_bytes(old(pager), leaf), off, record@)]
                {
                    let d = page_bytes(old(pager), leaf);
                    let ho = page_header_offset_of(leaf);
                    &&& d[ho] == PAGE_TYPE_LEAF_TABLE
                    &&& 0 <= i < page_cell_count(d, ho)
                    &&& leaf_rowid(d, ho, i) == Some(key)
                    &&& page_bytes(final(pager), leaf) == overwrite(d, off, record@)
                    &&& final(pager).cached()[leaf].1
                    &&& forall|p: PageNo|
                        p != leaf ==> #[trigger] page_bytes(final(pager), p) == page_bytes(
                            old(pager),
                            p,
                        )
                },
            old(pager).spec_page_count() > 0 && readable_table_leaf(old(pager), self.spec_root_page())
                && !leaf_has_rowid(old(pager), self.spec_root_page(), key) ==> r == Ok::<
                bool,
                SqlliteError,
            >(false),
    {
        let root = self.root_page;
        let depth = pager.page_count();
        let leaf = match self.find_leaf_for_key(pager, root, key, depth) {
            Ok(p) => p,
            Err(e) => return Err(e),
        };
        assert(old(pager).spec_page_count() > 0 && readable_table_leaf(old(pager), root) ==> leaf == root
            && page_loadable(pager, leaf));
        let mut page = match load_page(pager, leaf) {
            Ok(p) => p,
            Err(e) => return Err(e),
        };
        let header_offset = page_header_offset(leaf);
        if !leaf_page_fits(page.data.as_slice(), header_offset) {
            return Err(SqlliteError::sql(ResultCode::Corrupt, "malformed b-tree page"));
        }
        let cell_count = read_u16_be(page.data.as_slice(), header_offset + 3) as usize;
        let mut i: usize = 0;
        while i < cell_count
            invariant
                i <= cell_count,
                cell_count == page_cell_count(page.data@, header_offset as int),
                leaf_ptrs_fit(page.data@, header_offset as int),
                page.data@.len() <= usize::MAX,
                page.pgno == leaf,
                page.data@.len() == pager.spec_page_size(),
                leaf >= 1,
                leaf * pager.spec_page_size() <= usize::MAX,
                pager_ready(pager),
                pager_kept(old(pager), pager),
                pager.spec_page_count() == old(pager).spec_page_count(),
                pager.db() == old(pager).db(),
                forall|p: PageNo| #[trigger] page_bytes(pager, p) == page_bytes(old(pager), p),
                loadable_kept(old(pager), pager),
                page.data@ == page_bytes(old(pager), leaf),
                header_offset == page_header_offset_of(leaf),
                page_bytes(old(pager), leaf)[page_header_offset_of(leaf)] == PAGE_TYPE_LEAF_TABLE,
                old(pager).spec_page_count() > 0 && readable_table_leaf(old(pager), self.spec_root_page())
                    ==> leaf == self.spec_root_page(),
            decreases cell_count - i,
        {
            let ptr = read_u16_be(page.data.as_slice(), leaf_cell_ptr_offset(header_offset, i)) as usize;
            assert(ptr == leaf_ptr(page.data@, header_offset as int, i as int));
            let (rowid, payload_offset) = match read_cell_rowid(page.data.as_slice(), ptr) {
                Ok(p) => p,
                Err(e) => {
                    assert(leaf_rowid(page.data@, header_offset as int, i as int) is None);
                    return Err(e);
                },
            };
            if rowid != key {
                i = i + 1;
                continue;
            }
            assert(leaf_rowid(page.data@, header_offset as int, i as int) == Some(key));
            let (old_len, n) = match read_varint(page.data.as_slice(), payload_offset) {
                Ok(p) => p,
                Err(e) => return Err(e),
            };
            proof {
                lemma_varint_at_bound(page.data@, ptr as int);
                lemma_varint_at_bound(page.data@, payload_offset as int);
            }
            let old_start = payload_offset + n;
            if record.len() as u64 != old_len {
                return Ok(false);
            }
            if record.len() > page.data.len() - old_start {
                return Err(SqlliteError::sql(ResultCode::Corrupt, "truncated cell"));
            }
            let ghost d = page.data@;
            assert(leaf_rowid(d, header_offset as int, i as int) == Some(key));
            copy_bytes(&mut page.data, old_start, record);
            assert(page.data@ =~= overwrite(d, old_start as int, record@));
            let ghost pre = *pager;
            match pager.write_page(&mut page) {
                Ok(()) => {},
                Err(e) => return Err(e),
            }
            proof {
                let off = old_start as int;
                assert(page_bytes(pager, leaf) == overwrite(d, off, record@));
                assert forall|p: PageNo| p != leaf implies #[trigger] page_bytes(pager, p)
                    == page_bytes(old(pager), p) by {
                    assert(pager.cached().contains_key(p) == pre.cached().contains_key(p));
                    assert(page_bytes(&pre, p) == page_bytes(old(pager), p));
                    if pre.cached().contains_key(p) {
                        assert(pager.cached()[p] == pre.cached()[p]);
                    }
                }
            }
            return Ok(true);
        }
        Ok(false)
    }

    /// Removes the cell of rowid `key` from its leaf page; returns whether
    /// there was one. Fails with `Internal` on an index b-tree.
    pub fn delete<F: VfsFile>(&self, pager: &mut Pager<F>, key: i64) -> (r: Result<bool, SqlliteError>)
        requires
            pager_ready(old(pager)),
        ensures
            pager_ready(final(pager)),
            pager_kept(old(pager), final(pager)),
            final(pager).spec_page_count() == old(pager).spec_page_count(),
            final(pager).db() == old(pager).db(),
            self.spec_flags().blobkey ==> *final(pager) == *old(pager) && (r matches Err(e)
                && is_sql_error(e, ResultCode::Internal, "delete by rowid not supported on index btrees"@)),
            r matches Ok(false) ==> forall|p: PageNo| #[trigger] page_bytes(final(pager), p)
                == page_bytes(old(pager), p),
            r matches Ok(false) ==> loadable_kept(old(pager), final(pager)),
            !self.spec_flags().blobkey && old(pager).spec_page_count() > 0 && readable_table_leaf(
                old(pager),
                self.spec_root_page(),
            ) ==> {
                &&& !leaf_has_rowid(old(pager), self.spec_root_page(), key) ==> r == Ok::<
                    bool,
                    SqlliteError,
                >(false)
                &&& leaf_has_rowid(old(pager), self.spec_root_page(), key)
                    && !old(pager).spec_read_only() ==> r == Ok::<bool, SqlliteError>(true)
                &&& (r matches Ok(true)) ==> {
                    let root = self.spec_root_page();
                    let d = page_bytes(old(pager), root);
                    let ho = page_header_offset_of(root);
                    &&& exists|idx: int|
                        0 <= idx < page_cell_count(d, ho) && #[trigger] leaf_rowid(d, ho, idx) == Some(
                            key,
                        ) && unplaced(d, page_bytes(final(pager), root), ho, ho + 8, idx)
                    &&& forall|p: PageNo| p != root ==> #[trigger] page_bytes(final(pager), p)
                        == page_bytes(old(pager), p)
                }
            },
            !self.spec_flags().blobkey ==> forall|leaf: PageNo|
                #[trigger] key_path(
                    old(pager),
                    self.spec_root_page(),
                    key,
                    leaf,
                    old(pager).spec_page_count() as nat,
                ) && readable_table_leaf(old(pager), leaf) ==> {
                    let d = page_bytes(old(pager), leaf);
                    let ho = page_header_offset_of(leaf);
                    &&& !leaf_has_rowid(old(pager), leaf, key) ==> r == Ok::<bool, SqlliteError>(false)
                    &&& leaf_has_rowid(old(pager), leaf, key) && !old(pager).spec_read_only() ==> r
                        == Ok::<bool, SqlliteError>(true)
                    &&& (r matches Ok(true)) ==> {
                        &&& exists|idx: int|
                            0 <= idx < page_cell_count(d, ho) && #[trigger] leaf_rowid(d, ho, idx)
                                == Some(key) && unplaced(d, page_bytes(final(pager), leaf), ho, ho + 8, idx)
                        &&& forall|p: PageNo| p != leaf ==> #[trigger] page_bytes(final(pager), p)
                            == page_bytes(old(pager), p)
                    }
                },
    {
        if self.flags.blobkey {
            return Err(
                SqlliteError::sql(ResultCode::Internal, "delete by rowid not supported on index btrees"),
            );
        }
        let root = self.root_page;
        let depth = pager.page_count();
        let leaf = match self.find_leaf_for_key(pager, root, key, depth) {
            Ok(p) => p,
            Err(e) => return Err(e),
        };
        assert(old(pager).spec_page_count() > 0 && readable_table_leaf(old(pager), root) ==> leaf == root
            && page_loadable(pager, leaf));
        assert forall|l: PageNo|
            #[trigger] key_path(old(pager), root, key, l, old(pager).spec_page_count() as nat)
                && readable_table_leaf(old(pager), l) implies l == leaf && page_loadable(pager, leaf) by {}
        let mut page = match load_page(pager, leaf) {
            Ok(p) => p,
            Err(e) => return Err(e),
        };
        let header_offset = page_header_offset(leaf);
        if !leaf_page_fits(page.data.as_slice(), header_offset) {
            return Err(SqlliteError::sql(ResultCode::Corrupt, "malformed b-tree page"));
        }
        let cell_count = read_u16_be(page.data.as_slice(), header_offset + 3) as usize;
        let mut i: usize = 0;
        while i < cell_count
            invariant
                !self.spec_flags().blobkey,
                i <= cell_count,
                cell_count == page_cell_count(page.data@, header_offset as int),
                leaf_ptrs_fit(page.data@, header_offset as int),
                page.data@.len() <= usize::MAX,
                page.pgno == leaf,
                page.data@.len() == pager.spec_page_size(),
                leaf >= 1,
                leaf * pager.spec_page_size() <= usize::MAX,
                pager_ready(pager),
                pager_kept(old(pager), pager),
                pager.spec_page_count() == old(pager).spec_page_count(),
                pager.db() == old(pager).db(),
                forall|p: PageNo| #[trigger] page_bytes(pager, p) == page_bytes(old(pager), p),
                loadable_kept(old(pager), pager),
                pager.spec_read_only() == old(pager).spec_read_only(),
                page.data@ == page_bytes(old(pager), leaf),
                header_offset == page_header_offset_of(leaf),
                forall|j: int| 0 <= j < i ==> #[trigger] leaf_rowid(page.data@, header_offset as int, j)
                    != Some(key),
                old(pager).spec_page_count() > 0 && readable_table_leaf(old(pager), self.spec_root_page())
                    ==> leaf == self.spec_root_page(),
                forall|l: PageNo|
                    #[trigger] key_path(old(pager), self.spec_root_page(), key, l, old(pager).spec_page_count() as nat)
                        && readable_table_leaf(old(pager), l) ==> l == leaf,
            decreases cell_count - i,
        {
            let ptr = read_u16_be(page.data.as_slice(), leaf_cell_ptr_offset(header_offset, i)) as usize;
            assert(ptr == leaf_ptr(page.data@, header_offset as int, i as int));
            let (rowid, _) = match read_cell_rowid(page.data.as_slice(), ptr) {
                Ok(p) => p,
                Err(e) => {
                    assert(leaf_rowid(page.data@, header_offset as int, i as int) is None);
                    return Err(e);
                },
            };
            if rowid == key {
                assert(leaf_rowid(page_bytes(old(pager), leaf), page_header_offset_of(leaf), i as int)
                    == Some(key));
                let ghost d0 = page.data@;
                let ghost base = header_offset + 8;
                let mut j = i;
                while j + 1 < cell_count
                    invariant
                        i <= j < cell_count,
                        header_offset + 8 + 2 * cell_count <= page.data@.len(),
                        page.data@.len() == pager.spec_page_size(),
                        page.data@.len() == d0.len(),
                        page.pgno == leaf,
                        base == header_offset + 8,
                        forall|t: int| 0 <= t < i ==> #[trigger] ptr_at(page.data@, base, t) == ptr_at(d0, base, t),
                        forall|t: int| i <= t < j ==> #[trigger] ptr_at(page.data@, base, t) == ptr_at(d0, base, t + 1),
                        forall|t: int| j <= t < cell_count ==> #[trigger] ptr_at(page.data@, base, t) == ptr_at(d0, base, t),
                        forall|k: int| 0 <= k < d0.len() && !(base <= k < base + 2 * j) ==> #[trigger] page.data@[k] == d0[k],
                    decreases cell_count - j,
                {
                    let next_ptr = read_u16_be(
                        page.data.as_slice(),
                        leaf_cell_ptr_offset(header_offset, j + 1),
                    );
                    let ghost before = page.data@;
                    write_u16_be(
                        page.data.as_mut_slice(),
                        leaf_cell_ptr_offset(header_offset, j),
                        next_ptr,
                    );
                    proof {
                        assert forall|t: int| 0 <= t < cell_count && t != j implies #[trigger] ptr_at(
                            page.data@,
                            base,
                            t,
                        ) == ptr_at(before, base, t) by {
                            assert(page.data@[base + 2 * t] == before[base + 2 * t]);
                            assert(page.data@[base + 2 * t + 1] == before[base + 2 * t + 1]);
                        }
                    }
                    j = j + 1;
                }
                let ghost d1 = page.data@;
                write_u16_be(page.data.as_mut_slice(), header_offset + 3, (cell_count - 1) as u16);
                proof {
                    assert forall|t: int| 0 <= t < cell_count implies #[trigger] ptr_at(
                        page.data@,
                        base,
                        t,
                    ) == ptr_at(d1, base, t) by {
                        assert(page.data@[base + 2 * t] == d1[base + 2 * t]);
                        assert(page.data@[base + 2 * t + 1] == d1[base + 2 * t + 1]);
                    }
                    assert(unplaced(d0, page.data@, header_offset as int, base, i as int));
                }
                let ghost pb = *pager;
                match pager.write_page(&mut page) {
                    Ok(()) => {},
                    Err(e) => return Err(e),
                }
                proof {
                    assert(page_bytes(pager, leaf) == page.data@);
                    assert forall|p: PageNo| p != leaf implies #[trigger] page_bytes(pager, p)
                        == page_bytes(old(pager), p) by {
                        assert(page_bytes(&pb, p) == page_bytes(old(pager), p));
                    }
                }
                return Ok(true);
            }
            i = i + 1;
        }
        Ok(false)
    }

    /// Stores `record` under rowid `key`: in place when a record of the same
    /// length is there, else by removing the old one and inserting. Fails
    /// with `Internal` on an index b-tree.
    pub fn replace<F: VfsFile>(&mut self, pager: &mut Pager<F>, key: i64, record: &[u8]) -> (r:
        Result<(), SqlliteError>)
        requires
            pager_ready(old(pager)),
            key >= 0,
            record@.len() < 0x8000000000000000,
        ensures
            pager_ready(final(pager)),
            pager_kept(old(pager), final(pager)),
            final(self).spec_flags() == old(self).spec_flags(),
            old(self).spec_flags().blobkey ==> *final(self) == *old(self) && *final(pager)
                == *old(pager) && (r matches Err(e) && is_sql_error(
                e,
                ResultCode::Internal,
                "replace not supported on index btrees"@,
            )),
            !old(self).spec_flags().blobkey && old(pager).spec_page_count() > 0 && readable_table_leaf(
                old(pager),
                old(self).spec_root_page(),
            ) && leaf_takes_cell(
                old(pager),
                old(self).spec_root_page(),
                crate::btree::table_cell(key as nat, record@),
                key,
            ) ==> (r is Ok && cell_placed(
                old(pager),
                final(pager),
                old(self).spec_root_page(),
                crate::btree::table_cell(key as nat, record@),
                key,
            )),
    {
        if self.flags.blobkey {
            return Err(SqlliteError::sql(ResultCode::Internal, "replace not supported on index btrees"));
        }
        match self.update_table_row(pager, key, record) {
            Ok(true) => return Ok(()),
            Ok(false) => {},
            Err(e) => return Err(e),
        }
        match self.delete(pager, key) {
            Ok(_) => {},
            Err(e) => return Err(e),
        }
        self.insert_table_row(pager, key, record)
    }

    /// A cursor over this b-tree, not yet positioned.
    pub fn cursor(&self) -> (c: BtreeCursor)
        ensures
            c.wf(),
            c.spec_root_page() == self.spec_root_page(),
            c.spec_flags() == self.spec_flags(),
            c.spec_key() is None,
            c.spec_record() is None,
            !c.spec_eof(),
    {
        BtreeCursor {
            btree: Btree { root_page: self.root_page, flags: self.flags },
            stack: Vec::new(),
            leaf_pgno: self.root_page,
            cell_index: 0,
            end_of_table: false,
            current_key: None,
            current_record: None,
        }
    }
}

/// A position in a b-tree: a cell of a leaf page, and the interior pages
/// and child slots of the path down to it.
pub struct BtreeCursor {
    btree: Btree,
    stack: Vec<CursorFrame>,
    leaf_pgno: PageNo,
    cell_index: usize,
    end_of_table: bool,
    current_key: Option<i64>,
    current_record: Option<Vec<u8>>,
}

impl BtreeCursor {
    /// The child slots on the path are those of a page's cells.
    pub closed spec fn wf(&self) -> bool {
        &&& forall|i: int| 0 <= i < self.stack@.len() ==> #[trigger] self.stack@[i].child_slot < 65536
        &&& self.end_of_table ==> self.current_key is None && self.current_record is None
    }

    pub closed spec fn spec_root_page(&self) -> PageNo {
        self.btree.root_page
    }

    pub closed spec fn spec_flags(&self) -> BtreeFlags {
        self.btree.flags
    }

    /// The leaf page and the cell the cursor is at.
    /// The number of interior pages on the recorded path.
    pub closed spec fn spec_depth(&self) -> nat {
        self.stack@.len()
    }

    pub closed spec fn spec_leaf(&self) -> PageNo {
        self.leaf_pgno
    }

    pub closed spec fn spec_cell_index(&self) -> usize {
        self.cell_index
    }

    /// The key of the cell last read: its rowid.
    pub closed spec fn spec_key(&self) -> Option<i64> {
        self.current_key
    }

    /// The record of the cell last read: the row of a table, the key record
    /// of an index.
    pub closed spec fn spec_record(&self) -> Option<Seq<u8>> {
        match self.current_record {
            Some(r) => Some(r@),
            None => None,
        }
    }

    pub closed spec fn spec_eof(&self) -> bool {
        self.end_of_table
    }

    /// Reads the cell the cursor is at; returns false, changing nothing,
    /// when the leaf has no cell there.
    fn read_current<F: VfsFile>(&mut self, pager: &mut Pager<F>) -> (r: Result<bool, SqlliteError>)
        requires
            pager_ready(old(pager)),
            old(self).wf(),
            !old(self).spec_eof(),
        ensures
            pager_ready(final(pager)),
            pager_kept(old(pager), final(pager)),
            final(pager).spec_page_count() == old(pager).spec_page_count(),
            final(pager).db() == old(pager).db(),
            final(self).wf(),
            final(self).spec_root_page() == old(self).spec_root_page(),
            final(self).spec_flags() == old(self).spec_flags(),
            final(self).spec_leaf() == old(self).spec_leaf(),
            final(self).spec_cell_index() == old(self).spec_cell_index(),
            final(self).spec_eof() == old(self).spec_eof(),
            forall|p: PageNo| #[trigger] page_bytes(final(pager), p) == page_bytes(old(pager), p),
            loadable_kept(old(pager), final(pager)),
            r matches Ok(false) ==> *final(self) == *old(self) && old(self).spec_cell_index()
                >= page_cell_count(
                page_bytes(old(pager), old(self).spec_leaf()),
                page_header_offset_of(old(self).spec_leaf()),
            ),
            r matches Ok(true) ==> final(self).spec_key() is Some && final(self).spec_record() is Some,
            page_loadable(old(pager), old(self).spec_leaf()) && leaf_header_fits(
                page_bytes(old(pager), old(self).spec_leaf()),
                page_header_offset_of(old(self).spec_leaf()),
            ) && old(self).spec_cell_index() >= page_cell_count(
                page_bytes(old(pager), old(self).spec_leaf()),
                page_header_offset_of(old(self).spec_leaf()),
            ) ==> (r matches Ok(found) && !found),
            page_loadable(old(pager), old(self).spec_leaf()) && leaf_header_fits(
                page_bytes(old(pager), old(self).spec_leaf()),
                page_header_offset_of(old(self).spec_leaf()),
            ) && old(self).spec_cell_index() < page_cell_count(
                page_bytes(old(pager), old(self).spec_leaf()),
                page_header_offset_of(old(self).spec_leaf()),
            ) && !old(self).spec_flags().blobkey && leaf_table_cell(
                page_bytes(old(pager), old(self).spec_leaf()),
                page_header_offset_of(old(self).spec_leaf()),
                old(self).spec_cell_index() as int,
            ) is Some ==> (r matches Ok(found) && found),
            r matches Ok(true) && !old(self).spec_flags().blobkey ==> {
                let d = page_bytes(old(pager), old(self).spec_leaf());
                let ho = page_header_offset_of(old(self).spec_leaf());
                &&& old(self).spec_cell_index() < page_cell_count(d, ho)
                &&& final(self).spec_key() == leaf_rowid(d, ho, old(self).spec_cell_index() as int)
                &&& final(self).spec_record() == leaf_table_payload(
                    d,
                    ho,
                    old(self).spec_cell_index() as int,
                )
            },
    {
        let leaf = self.leaf_pgno;
        let page = match load_page(pager, leaf) {
            Ok(p) => p,
            Err(e) => return Err(e),
        };
        let header_offset = page_header_offset(leaf);
        if !leaf_page_fits(page.data.as_slice(), header_offset) {
            return Err(SqlliteError::sql(ResultCode::Corrupt, "malformed b-tree page"));
        }
        let ghost d = page.data@;
        let ghost ho = header_offset as int;
        let _ = page.data.len();
        let cell_count = read_u16_be(page.data.as_slice(), header_offset + 3) as usize;
        if self.cell_index >= cell_count {
            return Ok(false);
        }
        let ptr = read_u16_be(page.data.as_slice(), leaf_cell_ptr_offset(header_offset, self.cell_index))
            as usize;
        assert(ptr == leaf_ptr(d, ho, self.cell_index as int));
        if self.btree.flags.blobkey {
            let payload = match index_payload_at(page.data.as_slice(), ptr) {
                Ok(p) => p,
                Err(e) => return Err(e),
            };
            let (key, rowid) = match split_index_payload(payload.as_slice()) {
                Ok(p) => p,
                Err(e) => return Err(e),
            };
            self.current_key = Some(rowid);
            self.current_record = Some(key);
        } else {
            let (rowid, payload_offset) = match read_cell_rowid(page.data.as_slice(), ptr) {
                Ok(p) => p,
                Err(e) => return Err(e),
            };
            let (payload_len, n) = match read_varint(page.data.as_slice(), payload_offset) {
                Ok(p) => p,
                Err(e) => return Err(e),
            };
            proof {
                lemma_varint_at_bound(d, ptr as int);
                lemma_varint_at_bound(d, payload_offset as int);
            }
            let payload_start = payload_offset + n;
            if payload_len > (page.data.len() - payload_start) as u64 {
                return Err(SqlliteError::sql(ResultCode::Corrupt, "truncated cell"));
            }
            let payload_end = payload_start + payload_len as usize;
            let record = slice_to_vec(slice_subrange(page.data.as_slice(), payload_start, payload_end));
            self.current_key = Some(rowid);
            self.current_record = Some(record);
        }
        Ok(true)
    }

    /// The rowid of the cell last read.
    pub fn key(&self) -> (k: Option<i64>)
        ensures
            k == self.spec_key(),
    {
        self.current_key
    }

    /// The record of the cell last read.
    pub fn record(&self) -> (r: Option<&[u8]>)
        ensures
            match r {
                Some(b) => self.spec_record() == Some(b@),
                None => self.spec_record() is None,
            },
    {
        match &self.current_record {
            Some(v) => Some(v.as_slice()),
            None => None,
        }
    }

    /// The values of the record last read; none when no record was read.
    pub fn values(&self) -> (r: Result<Vec<Value>, SqlliteError>)
        ensures
            match self.spec_record() {
                None => r matches Ok(vs) && vs@.len() == 0,
                Some(rec) => match r {
                    Ok(vs) => decoded_record(rec) == Ok::<Seq<ValueView>, Seq<char>>(views(vs@)),
                    Err(e) => decoded_record(rec) matches Err(m) && is_sql_error(
                        e,
                        ResultCode::Corrupt,
                        m,
                    ),
                },
            },
    {
        match &self.current_record {
            Some(r) => {
                let _ = r.len();
                if let Ok((h, n)) = read_varint(r.as_slice(), 0) {
                    proof {
                        lemma_varint_at_bound(r@, 0);
                    }
                    if h > u64::MAX - n as u64 {
                        assert(decoded_record(r@) == Err::<Seq<ValueView>, Seq<char>>(
                            "truncated record header"@,
                        ));
                        return Err(
                            SqlliteError::sql(ResultCode::Corrupt, "truncated record header"),
                        );
                    }
                }
                decode_record(r.as_slice())
            },
            None => Ok(Vec::new()),
        }
    }

    /// Whether the cursor has run past the last cell.
    pub fn is_eof(&self) -> (b: bool)
        ensures
            b == self.spec_eof(),
    {
        self.end_of_table
    }

    /// Goes down from page `start` through the first child of each interior
    /// page to a leaf, recording the path; returns the leaf. At most as many
    /// pages as the database has are descended through: more is taken as a
    /// cycle of pages and fails with `Corrupt`.
    fn descend_leftmost<F: VfsFile>(&mut self, pager: &mut Pager<F>, start: PageNo) -> (r: Result<
        PageNo,
        SqlliteError,
    >)
        requires
            pager_ready(old(pager)),
            old(self).wf(),
        ensures
            pager_ready(final(pager)),
            pager_kept(old(pager), final(pager)),
            final(pager).spec_page_count() == old(pager).spec_page_count(),
            final(pager).db() == old(pager).db(),
            final(self).wf(),
            final(self).spec_root_page() == old(self).spec_root_page(),
            final(self).spec_flags() == old(self).spec_flags(),
            final(self).spec_leaf() == old(self).spec_leaf(),
            final(self).spec_cell_index() == old(self).spec_cell_index(),
            final(self).spec_eof() == old(self).spec_eof(),
            final(self).spec_key() == old(self).spec_key(),
            forall|p: PageNo| #[trigger] page_bytes(final(pager), p) == page_bytes(old(pager), p),
            r matches Ok(leaf) ==> is_leaf_page(old(pager), leaf),
            final(self).spec_record() == old(self).spec_record(),
            loadable_kept(old(pager), final(pager)),
            old(pager).spec_page_count() > 0 && page_loadable(old(pager), start) && is_leaf_page(
                old(pager),
                start,
            ) ==> (r matches Ok(leaf) && leaf == start),
            forall|leaf: PageNo|
                #[trigger] leftmost_path(old(pager), start, leaf, old(pager).spec_page_count() as nat)
                    ==> r == Ok::<PageNo, SqlliteError>(leaf),
    {
        let mut pgno = start;
        let mut depth = pager.page_count();
        loop
            invariant
                loadable_kept(old(pager), pager),
                old(pager).spec_page_count() > 0 && page_loadable(old(pager), start) && is_leaf_page(
                    old(pager),
                    start,
                ) ==> depth == old(pager).spec_page_count() && pgno == start && *pager == *old(pager),
                pager_ready(pager),
                pager_kept(old(pager), pager),
                pager.spec_page_count() == old(pager).spec_page_count(),
                pager.db() == old(pager).db(),
                self.wf(),
                self.spec_root_page() == old(self).spec_root_page(),
                self.spec_flags() == old(self).spec_flags(),
                self.spec_leaf() == old(self).spec_leaf(),
                self.spec_cell_index() == old(self).spec_cell_index(),
                self.spec_eof() == old(self).spec_eof(),
                self.spec_key() == old(self).spec_key(),
                forall|p: PageNo| #[trigger] page_bytes(pager, p) == page_bytes(old(pager), p),
                self.spec_record() == old(self).spec_record(),
                forall|leaf: PageNo|
                    #[trigger] leftmost_path(old(pager), start, leaf, old(pager).spec_page_count() as nat)
                        ==> leftmost_path(old(pager), pgno, leaf, depth as nat),
            decreases depth,
        {
            if depth == 0 {
                return Err(SqlliteError::sql(ResultCode::Corrupt, "b-tree deeper than its pages"));
            }
            depth = depth - 1;
            assert forall|l: PageNo|
                #[trigger] leftmost_path(old(pager), start, l, old(pager).spec_page_count() as nat)
                    implies page_loadable(pager, pgno) by {
                assert(leftmost_path(old(pager), pgno, l, (depth + 1) as nat));
            }
            let page = match load_page(pager, pgno) {
                Ok(p) => p,
                Err(e) => return Err(e),
            };
            let header_offset = page_header_offset(pgno);
            let page_type = page.data[header_offset];
            if page_type == PAGE_TYPE_LEAF_TABLE || page_type == PAGE_TYPE_LEAF_INDEX {
                return Ok(pgno);
            }
            if page_type != PAGE_TYPE_INTERIOR_TABLE && page_type != PAGE_TYPE_INTERIOR_INDEX {
                return Err(SqlliteError::sql(ResultCode::Corrupt, "bad page type"));
            }
            if !interior_page_fits(page.data.as_slice(), header_offset) {
                return Err(SqlliteError::sql(ResultCode::Corrupt, "malformed b-tree page"));
            }
            let cell_count = read_u16_be(page.data.as_slice(), header_offset + 3) as usize;
            let child = if cell_count == 0 {
                read_u32_be(page.data.as_slice(), header_offset + 8)
            } else {
                let ptr = read_u16_be(page.data.as_slice(), interior_cell_ptr_offset(header_offset, 0))
                    as usize;
                assert(ptr == interior_ptr(page.data@, header_offset as int, 0));
                if page_type == PAGE_TYPE_INTERIOR_TABLE {
                    match read_interior_table_cell(page.data.as_slice(), ptr) {
                        Ok((c, _)) => c,
                        Err(e) => {
                            assert(interior_key(page.data@, header_offset as int, 0) is None);
                            return Err(e);
                        },
                    }
                } else {
                    if !index_cell_fits(page.data.as_slice(), ptr) {
                        return Err(SqlliteError::sql(ResultCode::Corrupt, "malformed b-tree page"));
                    }
                    match read_interior_index_cell(page.data.as_slice(), ptr) {
                        Ok((c, _)) => c,
                        Err(e) => return Err(e),
                    }
                }
            };
            proof {
                assert(child as int == first_child(page.data@, header_offset as int));
                assert forall|l: PageNo|
                    #[trigger] leftmost_path(old(pager), start, l, old(pager).spec_page_count() as nat)
                        implies leftmost_path(old(pager), child, l, depth as nat) by {
                    assert(leftmost_path(old(pager), pgno, l, (depth + 1) as nat));
                }
            }
            self.stack.push(CursorFrame { pgno, child_slot: 0 });
            pgno = child;
        }
    }

    /// The same descent as `descend_leftmost`, from a page reached by
    /// moving right.
    fn descend_leftmost_from<F: VfsFile>(&mut self, pager: &mut Pager<F>, pgno: PageNo) -> (r:
        Result<PageNo, SqlliteError>)
        requires
            pager_ready(old(pager)),
            old(self).wf(),
        ensures
            pager_ready(final(pager)),
            pager_kept(old(pager), final(pager)),
            final(pager).spec_page_count() == old(pager).spec_page_count(),
            final(pager).db() == old(pager).db(),
            final(self).wf(),
            final(self).spec_root_page() == old(self).spec_root_page(),
            final(self).spec_flags() == old(self).spec_flags(),
            final(self).spec_leaf() == old(self).spec_leaf(),
            final(self).spec_cell_index() == old(self).spec_cell_index(),
            final(self).spec_eof() == old(self).spec_eof(),
            final(self).spec_key() == old(self).spec_key(),
            forall|p: PageNo| #[trigger] page_bytes(final(pager), p) == page_bytes(old(pager), p),
            r matches Ok(leaf) ==> is_leaf_page(old(pager), leaf),
            final(self).spec_record() == old(self).spec_record(),
    {
        self.descend_leftmost(pager, pgno)
    }

    /// Climbs the recorded path to the first interior page with a child
    /// right of the one taken, and descends from that child to its leftmost
    /// leaf; returns it, or none when the path is used up.
    fn advance_to_next_leaf<F: VfsFile>(&mut self, pager: &mut Pager<F>) -> (r: Result<
        Option<PageNo>,
        SqlliteError,
    >)
        requires
            pager_ready(old(pager)),
            old(self).wf(),
        ensures
            pager_ready(final(pager)),
            pager_kept(old(pager), final(pager)),
            final(pager).spec_page_count() == old(pager).spec_page_count(),
            final(pager).db() == old(pager).db(),
            final(self).wf(),
            final(self).spec_root_page() == old(self).spec_root_page(),
            final(self).spec_flags() == old(self).spec_flags(),
            final(self).spec_leaf() == old(self).spec_leaf(),
            final(self).spec_cell_index() == old(self).spec_cell_index(),
            final(self).spec_eof() == old(self).spec_eof(),
            final(self).spec_key() == old(self).spec_key(),
            forall|p: PageNo| #[trigger] page_bytes(final(pager), p) == page_bytes(old(pager), p),
            r matches Ok(Some(leaf)) ==> is_leaf_page(old(pager), leaf),
            r matches Ok(None) ==> final(self).spec_depth() == 0,
            final(self).spec_record() == old(self).spec_record(),
    {
        loop
            invariant
                pager_ready(pager),
                pager_kept(old(pager), pager),
                pager.spec_page_count() == old(pager).spec_page_count(),
                pager.db() == old(pager).db(),
                self.wf(),
                self.spec_root_page() == old(self).spec_root_page(),
                self.spec_flags() == old(self).spec_flags(),
                self.spec_leaf() == old(self).spec_leaf(),
                self.spec_cell_index() == old(self).spec_cell_index(),
                self.spec_eof() == old(self).spec_eof(),
                self.spec_key() == old(self).spec_key(),
                forall|p: PageNo| #[trigger] page_bytes(pager, p) == page_bytes(old(pager), p),
                self.spec_record() == old(self).spec_record(),
            decreases self.stack@.len(),
        {
            let frame = match self.stack.pop() {
                Some(f) => f,
                None => return Ok(None),
            };
            proof {
                assert(frame.child_slot < 65536);
            }
            let page = match load_page(pager, frame.pgno) {
                Ok(p) => p,
                Err(e) => return Err(e),
            };
            let header_offset = page_header_offset(frame.pgno);
            let cell_count = read_u16_be(page.data.as_slice(), header_offset + 3) as usize;
            let next_slot = frame.child_slot + 1;
            if next_slot <= cell_count {
                self.stack.push(CursorFrame { pgno: frame.pgno, child_slot: next_slot });
                if !interior_page_fits(page.data.as_slice(), header_offset) {
                    return Err(SqlliteError::sql(ResultCode::Corrupt, "malformed b-tree page"));
                }
                if next_slot < cell_count && page.data[header_offset] != PAGE_TYPE_INTERIOR_TABLE {
                    let ptr = read_u16_be(
                        page.data.as_slice(),
                        interior_cell_ptr_offset(header_offset, next_slot),
                    ) as usize;
                    assert(ptr == interior_ptr(page.data@, header_offset as int, next_slot as int));
                    if !index_cell_fits(page.data.as_slice(), ptr) {
                        return Err(SqlliteError::sql(ResultCode::Corrupt, "malformed b-tree page"));
                    }
                }
                let child = match self.btree.child_page_at_slot(&page, header_offset, next_slot) {
                    Ok(c) => c,
                    Err(e) => return Err(e),
                };
                return match self.descend_leftmost_from(pager, child) {
                    Ok(leaf) => Ok(Some(leaf)),
                    Err(e) => Err(e),
                };
            }
        }
    }

    /// Moves to the first cell of the b-tree; returns whether there is one.
    pub fn first<F: VfsFile>(&mut self, pager: &mut Pager<F>) -> (r: Result<bool, SqlliteError>)
        requires
            pager_ready(old(pager)),
            old(self).wf(),
        ensures
            pager_ready(final(pager)),
            pager_kept(old(pager), final(pager)),
            final(pager).spec_page_count() == old(pager).spec_page_count(),
            final(pager).db() == old(pager).db(),
            final(self).wf(),
            final(self).spec_root_page() == old(self).spec_root_page(),
            final(self).spec_flags() == old(self).spec_flags(),
            r is Ok ==> !final(self).spec_eof() && final(self).spec_cell_index() == 0,
            r matches Ok(true) ==> final(self).spec_key() is Some,
            empty_leaf_root(old(pager), old(self).spec_root_page()) ==> (r matches Ok(found) && !found),
            forall|p: PageNo| #[trigger] page_bytes(final(pager), p) == page_bytes(old(pager), p),
            loadable_kept(old(pager), final(pager)),
            old(pager).spec_page_count() > 0 && page_loadable(old(pager), old(self).spec_root_page())
                && is_leaf_page(old(pager), old(self).spec_root_page())
                && !old(self).spec_flags().blobkey ==> {
                let d = page_bytes(old(pager), old(self).spec_root_page());
                let ho = page_header_offset_of(old(self).spec_root_page());
                &&& leaf_header_fits(d, ho) && 0 < page_cell_count(d, ho) && leaf_table_cell(d, ho, 0)
                    is Some ==> (r matches Ok(true))
                &&& (r matches Ok(true)) ==> final(self).spec_leaf() == old(self).spec_root_page()
                    && final(self).spec_key() == leaf_rowid(d, ho, 0) && final(self).spec_record()
                    == leaf_table_payload(d, ho, 0)
            },
            !old(self).spec_flags().blobkey ==> forall|leaf: PageNo|
                #[trigger] leftmost_path(
                    old(pager),
                    old(self).spec_root_page(),
                    leaf,
                    old(pager).spec_page_count() as nat,
                ) && readable_table_leaf(old(pager), leaf) ==> {
                    let d = page_bytes(old(pager), leaf);
                    let ho = page_header_offset_of(leaf);
                    &&& page_cell_count(d, ho) == 0 ==> r == Ok::<bool, SqlliteError>(false)
                    &&& 0 < page_cell_count(d, ho) && leaf_table_cell(d, ho, 0) is Some ==> (r matches Ok(
                        true,
                    ))
                    &&& (r matches Ok(true)) ==> final(self).spec_leaf() == leaf && final(self).spec_key()
                        == leaf_rowid(d, ho, 0) && final(self).spec_record() == leaf_table_payload(d, ho, 0)
                },
    {
        self.stack.clear();
        let root = self.btree.root_page;
        let leaf = match self.descend_leftmost(pager, root) {
            Ok(p) => p,
            Err(e) => return Err(e),
        };
        assert forall|l: PageNo|
            #[trigger] leftmost_path(old(pager), root, l, old(pager).spec_page_count() as nat)
                && readable_table_leaf(old(pager), l) implies l == leaf && page_loadable(pager, leaf) by {}
        self.leaf_pgno = leaf;
        self.cell_index = 0;
        self.end_of_table = false;
        self.read_current(pager)
    }

    /// Moves to the next cell; returns whether there is one. Past the last
    /// cell the cursor is at the end, with no key or record.
    pub fn next<F: VfsFile>(&mut self, pager: &mut Pager<F>) -> (r: Result<bool, SqlliteError>)
        requires
            pager_ready(old(pager)),
            old(self).wf(),
        ensures
            pager_ready(final(pager)),
            pager_kept(old(pager), final(pager)),
            final(pager).spec_page_count() == old(pager).spec_page_count(),
            final(pager).db() == old(pager).db(),
            final(self).wf(),
            final(self).spec_root_page() == old(self).spec_root_page(),
            final(self).spec_flags() == old(self).spec_flags(),
            old(self).spec_eof() ==> r == Ok::<bool, SqlliteError>(false) && *final(self) == *old(self)
                && *final(pager) == *old(pager),
            r matches Ok(true) ==> final(self).spec_key() is Some && !final(self).spec_eof(),
            r matches Ok(false) ==> final(self).spec_eof() && final(self).spec_key() is None
                && final(self).spec_record() is None,
            !old(self).spec_eof() && page_loadable(old(pager), old(self).spec_leaf())
                && !old(self).spec_flags().blobkey ==> {
                let d = page_bytes(old(pager), old(self).spec_leaf());
                let ho = page_header_offset_of(old(self).spec_leaf());
                let i = old(self).spec_cell_index() + 1;
                leaf_header_fits(d, ho) && i < page_cell_count(d, ho) ==> {
                    &&& leaf_table_cell(d, ho, i) is Some ==> (r matches Ok(true))
                    &&& (r matches Ok(true)) ==> final(self).spec_leaf() == old(self).spec_leaf()
                        && final(self).spec_cell_index() == i && final(self).spec_key() == leaf_rowid(
                        d,
                        ho,
                        i,
                    ) && final(self).spec_record() == leaf_table_payload(d, ho, i)
                }
            },
    {
        if self.end_of_table {
            return Ok(false);
        }
        if self.cell_index < usize::MAX {
            self.cell_index = self.cell_index + 1;
        }
        match self.read_current(pager) {
            Ok(true) => return Ok(true),
            Ok(false) => {},
            Err(e) => return Err(e),
        }
        match self.advance_to_next_leaf(pager) {
            Ok(Some(leaf)) => {
                self.leaf_pgno = leaf;
                self.cell_index = 0;
                match self.read_current(pager) {
                    Ok(true) => return Ok(true),
                    Ok(false) => {},
                    Err(e) => return Err(e),
                }
            },
            Ok(None) => {},
            Err(e) => return Err(e),
        }
        self.end_of_table = true;
        self.current_key = None;
        self.current_record = None;
        Ok(false)
    }

    /// Goes down from page `start` to the leaf where rowid `key` belongs,
    /// recording the path: on a table page through the child of the first
    /// cell whose key is at least `key`, on an index page through that of the
    /// first cell whose key is at least the record of `key`; else through
    /// the right-most child. At most as many pages as the database has are
    /// descended through.
    #[verifier::rlimit(40)]
    #[verifier::spinoff_prover]
    fn descend_for_key<F: VfsFile>(&mut self, pager: &mut Pager<F>, start: PageNo, key: i64) -> (r:
        Result<PageNo, SqlliteError>)
        requires
            pager_ready(old(pager)),
            old(self).wf(),
        ensures
            pager_ready(final(pager)),
            pager_kept(old(pager), final(pager)),
            final(pager).spec_page_count() == old(pager).spec_page_count(),
            final(pager).db() == old(pager).db(),
            final(self).wf(),
            final(self).spec_root_page() == old(self).spec_root_page(),
            final(self).spec_flags() == old(self).spec_flags(),
            final(self).spec_leaf() == old(self).spec_leaf(),
            final(self).spec_cell_index() == old(self).spec_cell_index(),
            final(self).spec_eof() == old(self).spec_eof(),
            final(self).spec_key() == old(self).spec_key(),
            final(self).spec_record() == old(self).spec_record(),
            forall|p: PageNo| #[trigger] page_bytes(final(pager), p) == page_bytes(old(pager), p),
            loadable_kept(old(pager), final(pager)),
            r matches Ok(leaf) ==> is_leaf_page(old(pager), leaf),
            old(pager).spec_page_count() > 0 && page_loadable(old(pager), start) && is_leaf_page(
                old(pager),
                start,
            ) ==> (r matches Ok(leaf) && leaf == start),
            !old(self).spec_flags().blobkey ==> forall|leaf: PageNo|
                #[trigger] key_path(old(pager), start, key, leaf, old(pager).spec_page_count() as nat)
                    ==> r == Ok::<PageNo, SqlliteError>(leaf),
    {
        let mut pgno = start;
        let mut depth = pager.page_count();
        loop
            invariant
                forall|p: PageNo| #[trigger] page_bytes(pager, p) == page_bytes(old(pager), p),
                loadable_kept(old(pager), pager),
                old(pager).spec_page_count() > 0 && page_loadable(old(pager), start) && is_leaf_page(
                    old(pager),
                    start,
                ) ==> depth == old(pager).spec_page_count() && pgno == start && *pager == *old(pager),
                pager_ready(pager),
                pager_kept(old(pager), pager),
                pager.spec_page_count() == old(pager).spec_page_count(),
                pager.db() == old(pager).db(),
                self.wf(),
                self.spec_root_page() == old(self).spec_root_page(),
                self.spec_flags() == old(self).spec_flags(),
                self.spec_leaf() == old(self).spec_leaf(),
                self.spec_cell_index() == old(self).spec_cell_index(),
                self.spec_eof() == old(self).spec_eof(),
                self.spec_key() == old(self).spec_key(),
                self.spec_record() == old(self).spec_record(),
                !old(self).spec_flags().blobkey ==> forall|leaf: PageNo|
                    #[trigger] key_path(old(pager), start, key, leaf, old(pager).spec_page_count() as nat)
                        ==> key_path(old(pager), pgno, key, leaf, depth as nat),
            decreases depth,
        {
            if depth == 0 {
                return Err(SqlliteError::sql(ResultCode::Corrupt, "b-tree deeper than its pages"));
            }
            depth = depth - 1;
            assert forall|l: PageNo|
                !old(self).spec_flags().blobkey && #[trigger] key_path(
                    old(pager),
                    start,
                    key,
                    l,
                    old(pager).spec_page_count() as nat,
                ) implies page_loadable(pager, pgno) by {
                assert(key_path(old(pager), pgno, key, l, (depth + 1) as nat));
                assert(page_loadable(old(pager), pgno));
            }
            let page = match load_page(pager, pgno) {
                Ok(p) => p,
                Err(e) => return Err(e),
            };
            let header_offset = page_header_offset(pgno);
            let page_type = page.data[header_offset];
            if page_type == PAGE_TYPE_LEAF_TABLE || page_type == PAGE_TYPE_LEAF_INDEX {
                return Ok(pgno);
            }
            if page_type != PAGE_TYPE_INTERIOR_TABLE && page_type != PAGE_TYPE_INTERIOR_INDEX {
                return Err(SqlliteError::sql(ResultCode::Corrupt, "bad page type"));
            }
            if !interior_page_fits(page.data.as_slice(), header_offset) {
                return Err(SqlliteError::sql(ResultCode::Corrupt, "malformed b-tree page"));
            }
            let ghost d = page.data@;
            let cell_count = read_u16_be(page.data.as_slice(), header_offset + 3) as usize;
            let mut child_slot = cell_count;
            let mut child = read_u32_be(page.data.as_slice(), header_offset + 8);
            let probe = encode_record(&[Value::Integer(key)]);
            let mut i: usize = 0;
            let ghost ho = header_offset as int;
            let ghost on_path = !old(self).spec_flags().blobkey && exists|l: PageNo|
                #[trigger] key_path(old(pager), start, key, l, old(pager).spec_page_count() as nat);
            proof {
                if on_path {
                    let l = choose|l: PageNo|
                        #[trigger] key_path(old(pager), start, key, l, old(pager).spec_page_count() as nat);
                    assert(key_path(old(pager), pgno, key, l, (depth + 1) as nat));
                }
            }
            while i < cell_count
                invariant_except_break
                    child as int == page_right_child(d, ho),
                invariant
                    ho == header_offset,
                    ho == page_header_offset_of(pgno),
                    d == page_bytes(old(pager), pgno),
                    page_type == d[ho],
                    on_path ==> page_type == PAGE_TYPE_INTERIOR_TABLE && !some_interior_key_unreadable(
                        d,
                        ho,
                        cell_count as int,
                    ),
                    on_path == (!old(self).spec_flags().blobkey && exists|l: PageNo|
                        #[trigger] key_path(old(pager), start, key, l, old(pager).spec_page_count() as nat)),
                    page_type == PAGE_TYPE_INTERIOR_TABLE ==> keys_below(d, ho, i as int, key),
                    d == page.data@,
                    d.len() <= usize::MAX,
                    cell_count == page_cell_count(d, header_offset as int),
                    interior_ptrs_fit(d, header_offset as int),
                    i <= cell_count,
                    child_slot <= cell_count,
                    cell_count < 65536,
                    pager_ready(pager),
                    pager_kept(old(pager), pager),
                    pager.spec_page_count() == old(pager).spec_page_count(),
                    pager.db() == old(pager).db(),
                    self.wf(),
                    self.spec_root_page() == old(self).spec_root_page(),
                    self.spec_flags() == old(self).spec_flags(),
                    self.spec_leaf() == old(self).spec_leaf(),
                    self.spec_cell_index() == old(self).spec_cell_index(),
                    self.spec_eof() == old(self).spec_eof(),
                    self.spec_key() == old(self).spec_key(),
                    self.spec_record() == old(self).spec_record(),
                    forall|p: PageNo| #[trigger] page_bytes(pager, p) == page_bytes(old(pager), p),
                    loadable_kept(old(pager), pager),
                    !(old(pager).spec_page_count() > 0 && page_loadable(old(pager), start)
                        && is_leaf_page(old(pager), start)),
                ensures
                    page_type == PAGE_TYPE_INTERIOR_TABLE ==> is_child_for_key(d, ho, key, child as int),
                decreases cell_count - i,
            {
                let ptr = read_u16_be(page.data.as_slice(), interior_cell_ptr_offset(header_offset, i))
                    as usize;
                assert(ptr == interior_ptr(d, header_offset as int, i as int));
                if page_type == PAGE_TYPE_INTERIOR_TABLE {
                    let (c, cell_key) = match read_interior_table_cell(page.data.as_slice(), ptr) {
                        Ok(p) => p,
                        Err(e) => {
                            assert(interior_key(d, ho, i as int) is None);
                            return Err(e);
                        },
                    };
                    assert(interior_key(d, ho, i as int) == Some(cell_key));
                    if key <= cell_key {
                        child_slot = i;
                        child = c;
                        assert(is_child_for_key(d, ho, key, child as int));
                        break ;
                    }
                    assert(key_below(d, ho, i as int, key));
                } else {
                    if !index_cell_fits(page.data.as_slice(), ptr) {
                        return Err(SqlliteError::sql(ResultCode::Corrupt, "malformed b-tree page"));
                    }
                    let (c, cell_key) = match read_interior_index_cell(page.data.as_slice(), ptr) {
                        Ok(p) => p,
                        Err(e) => return Err(e),
                    };
                    if !bytes_lt(cell_key.as_slice(), probe.as_slice()) {
                        child_slot = i;
                        child = c;
                        break ;
                    }
                }
                i = i + 1;
            }
            proof {
                if !old(self).spec_flags().blobkey {
                    assert forall|leaf: PageNo|
                        #[trigger] key_path(old(pager), start, key, leaf, old(pager).spec_page_count() as nat)
                            implies key_path(old(pager), child, key, leaf, depth as nat) by {
                        assert(key_path(old(pager), pgno, key, leaf, (depth + 1) as nat));
                        let c = choose|c: int|
                            #[trigger] is_child_for_key(d, ho, key, c) && key_path(
                                old(pager),
                                c as PageNo,
                                key,
                                leaf,
                                depth as nat,
                            );
                        lemma_child_for_key_unique(d, ho, key, c, child as int);
                    }
                }
            }
            self.stack.push(CursorFrame { pgno, child_slot });
            pgno = child;
        }
    }

    /// Moves to the first cell whose rowid is at least `key` on the leaf
    /// where `key` belongs; returns whether there is one. When there is none
    /// the cursor is at the end, with no key or record.
    pub fn seek<F: VfsFile>(&mut self, pager: &mut Pager<F>, key: i64) -> (r: Result<bool, SqlliteError>)
        requires
            pager_ready(old(pager)),
            old(self).wf(),
        ensures
            pager_ready(final(pager)),
            pager_kept(old(pager), final(pager)),
            final(pager).spec_page_count() == old(pager).spec_page_count(),
            final(pager).db() == old(pager).db(),
            final(self).wf(),
            final(self).spec_root_page() == old(self).spec_root_page(),
            final(self).spec_flags() == old(self).spec_flags(),
            r matches Ok(true) ==> !final(self).spec_eof() && final(self).spec_key() is Some,
            r matches Ok(true) && !old(self).spec_flags().blobkey ==> (final(self).spec_key() matches Some(
                k,
            ) && k >= key),
            r matches Ok(false) ==> final(self).spec_eof() && final(self).spec_key() is None
                && final(self).spec_record() is None,
            empty_leaf_root(old(pager), old(self).spec_root_page()) ==> (r matches Ok(found) && !found),
            !old(self).spec_flags().blobkey && old(pager).spec_page_count() > 0 && readable_table_leaf(
                old(pager),
                old(self).spec_root_page(),
            ) ==> {
                let d = page_bytes(old(pager), old(self).spec_root_page());
                let ho = page_header_offset_of(old(self).spec_root_page());
                let n = page_cell_count(d, ho);
                &&& (r matches Ok(false)) ==> forall|j: int| 0 <= j < n ==> #[trigger] rowid_below(d, ho, j, key)
                &&& (r matches Ok(true)) ==> {
                    &&& final(self).spec_leaf() == old(self).spec_root_page()
                    &&& final(self).spec_cell_index() < n
                    &&& final(self).spec_key() == leaf_rowid(d, ho, final(self).spec_cell_index() as int)
                    &&& final(self).spec_record() == leaf_table_payload(d, ho, final(self).spec_cell_index() as int)
                    &&& forall|j: int| 0 <= j < final(self).spec_cell_index() ==> #[trigger] rowid_below(d, ho, j, key)
                }
                &&& (forall|j: int| 0 <= j < n ==> #[trigger] leaf_table_cell(d, ho, j) is Some) ==> r is Ok
            },
            !old(self).spec_flags().blobkey ==> forall|leaf: PageNo|
                #[trigger] key_path(
                    old(pager),
                    old(self).spec_root_page(),
                    key,
                    leaf,
                    old(pager).spec_page_count() as nat,
                ) && readable_table_leaf(old(pager), leaf) ==> {
                    let d = page_bytes(old(pager), leaf);
                    let ho = page_header_offset_of(leaf);
                    let n = page_cell_count(d, ho);
                    &&& (r matches Ok(false)) ==> forall|j: int| 0 <= j < n ==> #[trigger] rowid_below(d, ho, j, key)
                    &&& (r matches Ok(true)) ==> {
                        &&& final(self).spec_leaf() == leaf
                        &&& final(self).spec_cell_index() < n
                        &&& final(self).spec_key() == leaf_rowid(d, ho, final(self).spec_cell_index() as int)
                        &&& final(self).spec_record() == leaf_table_payload(d, ho, final(self).spec_cell_index() as int)
                        &&& forall|j: int| 0 <= j < final(self).spec_cell_index() ==> #[trigger] rowid_below(d, ho, j, key)
                    }
                    &&& (forall|j: int| 0 <= j < n ==> #[trigger] leaf_table_cell(d, ho, j) is Some) ==> r is Ok
                },
    {
        self.stack.clear();
        let root = self.btree.root_page;
        let leaf = match self.descend_for_key(pager, root, key) {
            Ok(p) => p,
            Err(e) => return Err(e),
        };
        self.leaf_pgno = leaf;
        assert(empty_leaf_root(old(pager), old(self).spec_root_page()) ==> page_loadable(pager, leaf));
        assert(old(pager).spec_page_count() > 0 && readable_table_leaf(old(pager), root)
            ==> page_loadable(pager, leaf));
        assert forall|l: PageNo|
            !old(self).spec_flags().blobkey && #[trigger] key_path(
                old(pager),
                root,
                key,
                l,
                old(pager).spec_page_count() as nat,
            ) && readable_table_leaf(old(pager), l) implies l == leaf && page_loadable(pager, leaf) by {}
        let page = match load_page(pager, leaf) {
            Ok(p) => p,
            Err(e) => return Err(e),
        };
        let header_offset = page_header_offset(leaf);
        if !leaf_page_fits(page.data.as_slice(), header_offset) {
            return Err(SqlliteError::sql(ResultCode::Corrupt, "malformed b-tree page"));
        }
        let ghost d = page.data@;
        let ghost ho = header_offset as int;
        let cell_count = read_u16_be(page.data.as_slice(), header_offset + 3) as usize;
        self.cell_index = 0;
        self.end_of_table = false;
        let ghost before_loop = *pager;
        let mut i: usize = 0;
        while i < cell_count
            invariant
                d == page.data@,
                d == page_bytes(&before_loop, leaf),
                d.len() <= usize::MAX,
                ho == header_offset,
                leaf == self.spec_leaf(),
                page_header_offset_of(leaf) == ho,
                cell_count == page_cell_count(d, ho),
                leaf_ptrs_fit(d, ho),
                i <= cell_count,
                *pager == before_loop,
                empty_leaf_root(old(pager), old(self).spec_root_page()) ==> cell_count == 0,
                !old(self).spec_flags().blobkey && old(pager).spec_page_count() > 0 && readable_table_leaf(
                    old(pager),
                    old(self).spec_root_page(),
                ) ==> leaf == old(self).spec_root_page() && d == page_bytes(old(pager), leaf)
                    && page_loadable(pager, leaf),
                forall|l: PageNo|
                    !old(self).spec_flags().blobkey && #[trigger] key_path(
                        old(pager),
                        old(self).spec_root_page(),
                        key,
                        l,
                        old(pager).spec_page_count() as nat,
                    ) && readable_table_leaf(old(pager), l) ==> l == leaf && d == page_bytes(old(pager), leaf)
                        && page_loadable(pager, leaf),
                !self.spec_flags().blobkey ==> forall|j: int| 0 <= j < i ==> #[trigger] rowid_below(d, ho, j, key),
                self.spec_cell_index() == 0,
                pager_ready(pager),
                pager_kept(old(pager), pager),
                pager.spec_page_count() == old(pager).spec_page_count(),
                pager.db() == old(pager).db(),
                self.wf(),
                !self.spec_eof(),
                self.spec_root_page() == old(self).spec_root_page(),
                self.spec_flags() == old(self).spec_flags(),
            decreases cell_count - i,
        {
            let ptr = read_u16_be(page.data.as_slice(), leaf_cell_ptr_offset(header_offset, i)) as usize;
            assert(ptr == leaf_ptr(d, ho, i as int));
            if self.btree.flags.blobkey {
                let payload = match index_payload_at(page.data.as_slice(), ptr) {
                    Ok(p) => p,
                    Err(e) => return Err(e),
                };
                let (_, rowid) = match split_index_payload(payload.as_slice()) {
                    Ok(p) => p,
                    Err(e) => return Err(e),
                };
                if rowid >= key {
                    self.cell_index = i;
                    return self.read_current(pager);
                }
            } else {
                let (rowid, _) = match read_cell_rowid(page.data.as_slice(), ptr) {
                    Ok(p) => p,
                    Err(e) => {
                        assert(leaf_rowid(d, ho, i as int) is None);
                        return Err(e);
                    },
                };
                if rowid >= key {
                    self.cell_index = i;
                    assert(leaf_rowid(d, ho, i as int) == Some(rowid));
                    return self.read_current(pager);
                }
            }
            i = i + 1;
        }
        self.end_of_table = true;
        self.current_key = None;
        self.current_record = None;
        Ok(false)
    }
}

impl Btree {
    /// Whether the leaf index page holds a cell whose payload is `divider`;
    /// fails with `Corrupt` when a payload before it cannot be read.
    fn find_cell_in_page_index(&self, page: &Page, header_offset: usize, divider: &[u8]) -> (r:
        Result<bool, SqlliteError>)
        requires
            leaf_ptrs_fit(page.data@, header_offset as int),
        ensures
            ({
                let d = page.data@;
                let ho = header_offset as int;
                let n = page_cell_count(d, ho);
                &&& r matches Ok(true) ==> exists|i: int|
                    0 <= i < n && #[trigger] leaf_index_payload(d, ho, i) == Some(divider@)
                &&& r matches Ok(false) ==> forall|i: int|
                    0 <= i < n ==> #[trigger] payload_differs(d, ho, i, divider@)
                &&& r matches Err(e) ==> (exists|i: int|
                    0 <= i < n && #[trigger] leaf_index_payload(d, ho, i) is None) && (e is Sql
                    && e->code == ResultCode::Corrupt)
            }),
    {
        let ghost d = page.data@;
        let ghost ho = header_offset as int;
        let _ = page.data.len();
        let cell_count = read_u16_be(page.data.as_slice(), header_offset + 3) as usize;
        let mut i: usize = 0;
        while i < cell_count
            invariant
                d == page.data@,
                d.len() <= usize::MAX,
                ho == header_offset,
                i <= cell_count,
                cell_count == page_cell_count(d, ho),
                leaf_ptrs_fit(d, ho),
                forall|j: int| 0 <= j < i ==> #[trigger] payload_differs(d, ho, j, divider@),
            decreases cell_count - i,
        {
            let ptr = read_u16_be(page.data.as_slice(), leaf_cell_ptr_offset(header_offset, i)) as usize;
            assert(ptr == leaf_ptr(d, ho, i as int));
            let existing = match index_payload_at(page.data.as_slice(), ptr) {
                Ok(p) => p,
                Err(e) => {
                    assert(leaf_index_payload(d, ho, i as int) is None);
                    return Err(e);
                },
            };
            assert(leaf_index_payload(d, ho, i as int) == Some(existing@));
            if bytes_eq(existing.as_slice(), divider) {
                return Ok(true);
            }
            assert(payload_differs(d, ho, i as int, divider@));
            i = i + 1;
        }
        Ok(false)
    }

    /// The child page to follow for `key` on an interior index page: that of
    /// the first cell whose key is at least `key`, else the right-most one.
    fn find_child_page_index(&self, page: &Page, header_offset: usize, key: &[u8]) -> (r: Result<
        PageNo,
        SqlliteError,
    >)
        requires
            interior_ptrs_fit(page.data@, header_offset as int),
        ensures
            r matches Ok(c) ==> ({
                let d = page.data@;
                let ho = header_offset as int;
                exists|idx: int|
                    #[trigger] index_child_slot(d, ho, key@, idx) && c == if idx < page_cell_count(
                        d,
                        ho,
                    ) {
                        interior_child(d, ho, idx)
                    } else {
                        page_right_child(d, ho)
                    }
            }),
            r matches Err(e) ==> (e is Sql && e->code == ResultCode::Corrupt),
    {
        let ghost d = page.data@;
        let ghost ho = header_offset as int;
        let _ = page.data.len();
        let cell_count = read_u16_be(page.data.as_slice(), header_offset + 3) as usize;
        let mut i: usize = 0;
        while i < cell_count
            invariant
                d == page.data@,
                d.len() <= usize::MAX,
                ho == header_offset,
                i <= cell_count,
                cell_count == page_cell_count(d, ho),
                interior_ptrs_fit(d, ho),
                forall|j: int| 0 <= j < i ==> #[trigger] index_key_below(d, ho, j, key@),
            decreases cell_count - i,
        {
            let ptr = read_u16_be(page.data.as_slice(), interior_cell_ptr_offset(header_offset, i))
                as usize;
            assert(ptr == interior_ptr(d, ho, i as int));
            assert(interior_ptr(d, ho, i as int) + 4 <= d.len());
            if !index_cell_fits(page.data.as_slice(), ptr) {
                return Err(SqlliteError::sql(ResultCode::Corrupt, "malformed b-tree page"));
            }
            let (child, cell_key) = match read_interior_index_cell(page.data.as_slice(), ptr) {
                Ok(p) => p,
                Err(e) => return Err(e),
            };
            assert(interior_index_key(d, ho, i as int) == Some(cell_key@));
            if !bytes_lt(cell_key.as_slice(), key) {
                assert(index_child_slot(d, ho, key@, i as int));
                return Ok(child);
            }
            assert(index_key_below(d, ho, i as int, key@));
            i = i + 1;
        }
        assert(index_child_slot(d, ho, key@, cell_count as int));
        Ok(read_u32_be(page.data.as_slice(), header_offset + 8))
    }

    /// Inserts `cell`, the leaf index cell of payload `divider`, into the
    /// page: after every cell whose payload is not above `divider`, if the
    /// cell and one more pointer fit below the content area; returns whether
    /// it did. Fails with `Corrupt` when a payload before the insertion point
    /// cannot be read.
    fn try_insert_leaf_cell_index(
        &self,
        page: &mut Page,
        header_offset: usize,
        cell: &[u8],
        divider: &[u8],
    ) -> (r: Result<bool, SqlliteError>)
        requires
            leaf_ptrs_fit(old(page).data@, header_offset as int),
            page_content_start(old(page).data@, header_offset as int) <= old(page).data@.len(),
            old(page).data@.len() <= isize::MAX,
        ensures
            final(page).pgno == old(page).pgno,
            final(page).dirty == old(page).dirty,
            ({
                let d = old(page).data@;
                let ho = header_offset as int;
                &&& r matches Ok(true) ==> !no_room(d, ho, ho + 8, cell@.len() as int) && exists|
                    idx: int,
                | leaf_index_insert_slot(d, ho, divider@, idx) && placed(
                    d,
                    final(page).data@,
                    ho,
                    ho + 8,
                    idx,
                    cell@,
                )
                &&& r matches Ok(false) ==> no_room(d, ho, ho + 8, cell@.len() as int)
                    && final(page).data@ == d
                &&& r matches Err(e) ==> final(page).data@ == d && (e is Sql && e->code
                    == ResultCode::Corrupt)
                &&& !some_payload_unreadable(d, ho, page_cell_count(d, ho)) ==> r is Ok
            }),
    {
        let ghost d = page.data@;
        let ghost ho = header_offset as int;
        let _ = page.data.len();
        let cell_count = read_u16_be(page.data.as_slice(), header_offset + 3) as usize;
        let mut insert_idx = cell_count;
        let mut i: usize = 0;
        while i < cell_count
            invariant_except_break
                d == page.data@,
                d.len() <= isize::MAX,
                ho == header_offset,
                i <= cell_count,
                cell_count == page_cell_count(d, ho),
                leaf_ptrs_fit(d, ho),
                insert_idx == cell_count,
                forall|j: int| 0 <= j < i ==> #[trigger] payload_not_above(d, ho, j, divider@),
            ensures
                d == page.data@,
                d.len() <= isize::MAX,
                ho == header_offset,
                cell_count == page_cell_count(d, ho),
                leaf_ptrs_fit(d, ho),
                leaf_index_insert_slot(d, ho, divider@, insert_idx as int),
            decreases cell_count - i,
        {
            let ptr = read_u16_be(page.data.as_slice(), leaf_cell_ptr_offset(header_offset, i)) as usize;
            assert(ptr == leaf_ptr(d, ho, i as int));
            let existing = match index_payload_at(page.data.as_slice(), ptr) {
                Ok(p) => p,
                Err(e) => {
                    assert(leaf_index_payload(d, ho, i as int) is None);
                    return Err(e);
                },
            };
            assert(leaf_index_payload(d, ho, i as int) == Some(existing@));
            if bytes_lt(divider, existing.as_slice()) {
                insert_idx = i;
                break;
            }
            assert(payload_not_above(d, ho, i as int, divider@));
            i = i + 1;
        }
        let min_ptr = leaf_cell_ptr_offset(header_offset, cell_count + 1) + 1;
        let content_start = read_u16_be(page.data.as_slice(), header_offset + 5) as usize;
        let new_content_start = content_start.saturating_sub(cell.len());
        if new_content_start < min_ptr {
            return Ok(false);
        }
        place_cell(
            &mut page.data,
            header_offset,
            header_offset + 8,
            cell_count,
            insert_idx,
            new_content_start,
            cell,
        );
        Ok(true)
    }

    /// Inserts `cell`, the interior index cell of divider `divider`, into
    /// the page: before the first cell whose key is at least `divider`, if
    /// the cell and one more pointer fit below the content area; returns
    /// whether it did. Fails with `Corrupt` when a key before the insertion
    /// point cannot be read.
    fn try_insert_interior_cell_index(
        &self,
        page: &mut Page,
        header_offset: usize,
        cell: &[u8],
        divider: &[u8],
    ) -> (r: Result<bool, SqlliteError>)
        requires
            interior_ptrs_fit(old(page).data@, header_offset as int),
            page_content_start(old(page).data@, header_offset as int) <= old(page).data@.len(),
            old(page).data@.len() <= isize::MAX,
        ensures
            final(page).pgno == old(page).pgno,
            final(page).dirty == old(page).dirty,
            ({
                let d = old(page).data@;
                let ho = header_offset as int;
                &&& r matches Ok(true) ==> !no_room(d, ho, ho + 12, cell@.len() as int) && exists|
                    idx: int,
                | index_child_slot(d, ho, divider@, idx) && placed(
                    d,
                    final(page).data@,
                    ho,
                    ho + 12,
                    idx,
                    cell@,
                )
                &&& r matches Ok(false) ==> no_room(d, ho, ho + 12, cell@.len() as int)
                    && final(page).data@ == d
                &&& r matches Err(e) ==> final(page).data@ == d && (e is Sql && e->code
                    == ResultCode::Corrupt)
                &&& !some_index_key_unreadable(d, ho, page_cell_count(d, ho)) ==> r is Ok
            }),
    {
        let ghost d = page.data@;
        let ghost ho = header_offset as int;
        let _ = page.data.len();
        let cell_count = read_u16_be(page.data.as_slice(), header_offset + 3) as usize;
        let mut insert_idx = cell_count;
        let mut i: usize = 0;
        while i < cell_count
            invariant_except_break
                d == page.data@,
                d.len() <= isize::MAX,
                ho == header_offset,
                i <= cell_count,
                cell_count == page_cell_count(d, ho),
                interior_ptrs_fit(d, ho),
                insert_idx == cell_count,
                forall|j: int| 0 <= j < i ==> #[trigger] index_key_below(d, ho, j, divider@),
            ensures
                d == page.data@,
                d.len() <= isize::MAX,
                ho == header_offset,
                cell_count == page_cell_count(d, ho),
                interior_ptrs_fit(d, ho),
                index_child_slot(d, ho, divider@, insert_idx as int),
            decreases cell_count - i,
        {
            let ptr = read_u16_be(page.data.as_slice(), interior_cell_ptr_offset(header_offset, i))
                as usize;
            assert(ptr == interior_ptr(d, ho, i as int));
            assert(interior_ptr(d, ho, i as int) + 4 <= d.len());
            if !index_cell_fits(page.data.as_slice(), ptr) {
                assert(interior_index_key(d, ho, i as int) is None);
                return Err(SqlliteError::sql(ResultCode::Corrupt, "malformed b-tree page"));
            }
            let (_, cell_key) = match read_interior_index_cell(page.data.as_slice(), ptr) {
                Ok(p) => p,
                Err(e) => {
                    assert(interior_index_key(d, ho, i as int) is None);
                    return Err(e);
                },
            };
            assert(interior_index_key(d, ho, i as int) == Some(cell_key@));
            if !bytes_lt(cell_key.as_slice(), divider) {
                insert_idx = i;
                break;
            }
            assert(index_key_below(d, ho, i as int, divider@));
            i = i + 1;
        }
        let min_ptr = interior_cell_ptr_offset(header_offset, cell_count + 1) + 1;
        let content_start = read_u16_be(page.data.as_slice(), header_offset + 5) as usize;
        let new_content_start = content_start.saturating_sub(cell.len());
        if new_content_start < min_ptr {
            return Ok(false);
        }
        place_cell(
            &mut page.data,
            header_offset,
            header_offset + 12,
            cell_count,
            insert_idx,
            new_content_start,
            cell,
        );
        Ok(true)
    }

    /// Splits a full leaf index page: its cells and `new_cell` (of payload
    /// `new_divider`), in byte order of their payloads, are divided into a
    /// first half that stays on this page and a second half that goes to
    /// page `right_pgno`; the divider is the last payload of the first half.
    /// Fails with `Corrupt` when a cell cannot be read, and with `TooBig`
    /// when there is no first half or a half does not fit on its page.
    fn split_leaf_index<F: VfsFile>(
        &self,
        pager: &mut Pager<F>,
        page: &mut Page,
        header_offset: usize,
        left_pgno: PageNo,
        right_pgno: PageNo,
        new_cell: &[u8],
        new_divider: &[u8],
    ) -> (r: Result<LeafSplit, SqlliteError>)
        requires
            pager_ready(old(pager)),
            leaf_ptrs_fit(old(page).data@, header_offset as int),
            old(page).data@.len() <= isize::MAX,
        ensures
            pager_ready(final(pager)),
            pager_kept(old(pager), final(pager)),
            final(pager).spec_page_count() == old(pager).spec_page_count(),
            final(pager).db() == old(pager).db(),
            final(page).pgno == old(page).pgno,
            final(page).dirty == old(page).dirty,
            final(page).data@.len() == old(page).data@.len(),
            r matches Ok(split) ==> {
                &&& split.left_pgno == left_pgno
                &&& split.right_pgno == right_pgno
                &&& split.divider_blob is Some
                &&& final(pager).cached().contains_key(right_pgno)
            },
            ({
                let d = old(page).data@;
                let ho = header_offset as int;
                let entries = leaf_index_entries(d, ho).push((new_divider@, new_cell@));
                !some_payload_unreadable(d, ho, page_cell_count(d, ho)) && page_cell_count(d, ho) >= 1
                    && page_loadable(old(pager), right_pgno) && !old(pager).spec_read_only() && (forall|
                    all: Seq<(Seq<u8>, Seq<u8>)>,
                |
                    bytes_sorted(all) && #[trigger] all.to_multiset() == entries.to_multiset()
                        ==> blob_halves_fit(
                        all,
                        8,
                        d.len() as int,
                        ho,
                        old(pager).spec_page_size() as int,
                        page_header_offset_of(right_pgno),
                    )) ==> r is Ok
            }),
    {
        let ghost d = page.data@;
        let ghost ho = header_offset as int;
        let _ = page.data.len();
        let cell_count = read_u16_be(page.data.as_slice(), header_offset + 3) as usize;
        let mut cells: Vec<(Vec<u8>, Vec<u8>)> = Vec::new();
        let mut i: usize = 0;
        while i < cell_count
            invariant
                d == page.data@,
                d == old(page).data@,
                page.pgno == old(page).pgno,
                page.dirty == old(page).dirty,
                pager_ready(pager),
                pager_kept(old(pager), pager),
                pager.spec_page_count() == old(pager).spec_page_count(),
                pager.db() == old(pager).db(),
                pager.cached() == old(pager).cached(),
                d.len() <= isize::MAX,
                ho == header_offset,
                i <= cell_count,
                cell_count == page_cell_count(d, ho),
                leaf_ptrs_fit(d, ho),
                cells@.len() == i,
                blob_pair_views(cells@) == leaf_index_entries(d, ho).take(i as int),
            decreases cell_count - i,
        {
            let ptr = read_u16_be(page.data.as_slice(), leaf_cell_ptr_offset(header_offset, i)) as usize;
            assert(ptr == leaf_ptr(d, ho, i as int));
            let payload = match index_payload_at(page.data.as_slice(), ptr) {
                Ok(p) => p,
                Err(e) => {
                    assert(leaf_index_payload(d, ho, i as int) is None);
                    return Err(e);
                },
            };
            assert(leaf_index_payload(d, ho, i as int) == Some(payload@));
            proof {
                lemma_varint_at_bound(d, ptr as int);
            }
            let cell = crate::btree::build_index_cell(payload.as_slice());
            let ghost c0 = cells@;
            cells.push((payload, cell));
            assert(blob_pair_views(cells@) =~= leaf_index_entries(d, ho).take(i + 1));
            i = i + 1;
        }
        assert(leaf_index_entries(d, ho).take(cell_count as int) =~= leaf_index_entries(d, ho));
        let ghost c1 = cells@;
        let nd = slice_to_vec(new_divider);
        let nc = slice_to_vec(new_cell);
        cells.push((nd, nc));
        assert(blob_pair_views(cells@) =~= blob_pair_views(c1).push((new_divider@, new_cell@)));
        assert(blob_pair_views(cells@) =~= leaf_index_entries(d, ho).push((new_divider@, new_cell@)));
        let ghost unsorted = blob_pair_views(cells@);
        let cells = sort_cells_by_bytes(cells);
        let ghost all = blob_pair_views(cells@);
        let mid = cells.len() / 2;
        if mid == 0 {
            return Err(SqlliteError::sql(ResultCode::TooBig, "string or blob too big"));
        }
        let divider_blob = slice_to_vec(cells[mid - 1].0.as_slice());
        let mut left: Vec<Vec<u8>> = Vec::new();
        let mut right: Vec<Vec<u8>> = Vec::new();
        let mut k: usize = 0;
        while k < cells.len()
            invariant
                k <= cells@.len(),
                mid <= cells@.len(),
                all == blob_pair_views(cells@),
                k <= mid ==> cell_views(left@) == blob_cells(all).take(k as int) && right@.len() == 0,
                k > mid ==> cell_views(left@) == blob_cells(all).take(mid as int) && cell_views(right@)
                    == blob_cells(all).subrange(mid as int, k as int),
            decreases cells@.len() - k,
        {
            let c = slice_to_vec(cells[k].1.as_slice());
            let ghost l0 = left@;
            let ghost g0 = right@;
            if k < mid {
                left.push(c);
                assert(cell_views(left@) =~= cell_views(l0).push(c@));
            } else {
                right.push(c);
                assert(cell_views(right@) =~= cell_views(g0).push(c@));
            }
            proof {
                let bc = blob_cells(all);
                assert(bc[k as int] == c@);
                assert(bc.take(k + 1) =~= bc.take(k as int).push(c@));
                if k >= mid {
                    assert(bc.subrange(mid as int, k + 1) =~= bc.subrange(mid as int, k as int).push(c@));
                }
                if k == mid {
                    assert(cell_views(g0) =~= bc.subrange(mid as int, k as int));
                }
            }
            k = k + 1;
        }
        proof {
            assert(blob_cells(all).take(mid as int) =~= blob_cells(all.take(mid as int)));
            assert(blob_cells(all).subrange(mid as int, cells@.len() as int) =~= blob_cells(
                all.skip(mid as int),
            ));
            assert(cell_views(left@).len() == mid);
            assert(all.to_multiset() == unsorted.to_multiset());
        }
        let mut right_page = match load_page(pager, right_pgno) {
            Ok(p) => p,
            Err(e) => return Err(e),
        };
        let right_ho = page_header_offset(right_pgno);
        let ps = page.data.len();
        let rps = right_page.data.len();
        if left.len() > 0x8000 || right.len() > 0x8000 || header_offset + 8 + 2 * left.len() > ps
            || !cells_fit(left.as_slice(), ps - (header_offset + 8 + 2 * left.len())) || right_ho + 8
            + 2 * right.len() > rps || !cells_fit(
            right.as_slice(),
            rps - (right_ho + 8 + 2 * right.len()),
        ) {
            return Err(SqlliteError::sql(ResultCode::TooBig, "string or blob too big"));
        }
        let _ = self.rebuild_leaf_index_page(page, header_offset, left.as_slice());
        let _ = self.rebuild_leaf_index_page(&mut right_page, right_ho, right.as_slice());
        match pager.write_page(&mut right_page) {
            Ok(()) => {},
            Err(e) => return Err(e),
        }
        Ok(LeafSplit { left_pgno, divider_key: 0, divider_blob: Some(divider_blob), right_pgno })
    }

    /// Splits a full interior index page: its cells and `new_cell`, in byte
    /// order of their keys, are divided into a first half that stays on this
    /// page and a second half that goes to page `right_pgno`; both keep the
    /// page's right-most child, and the divider is the last key of the first
    /// half. Fails with `Corrupt` when a cell cannot be read, and with
    /// `TooBig` when there is no first half or a half does not fit.
    fn split_interior_index<F: VfsFile>(
        &self,
        pager: &mut Pager<F>,
        page: &mut Page,
        header_offset: usize,
        left_pgno: PageNo,
        right_pgno: PageNo,
        new_cell: &[u8],
        new_divider: &[u8],
    ) -> (r: Result<LeafSplit, SqlliteError>)
        requires
            pager_ready(old(pager)),
            interior_ptrs_fit(old(page).data@, header_offset as int),
            old(page).data@.len() <= isize::MAX,
        ensures
            pager_ready(final(pager)),
            pager_kept(old(pager), final(pager)),
            final(pager).spec_page_count() == old(pager).spec_page_count(),
            final(pager).db() == old(pager).db(),
            final(page).pgno == old(page).pgno,
            final(page).dirty == old(page).dirty,
            final(page).data@.len() == old(page).data@.len(),
            r matches Ok(split) ==> {
                &&& split.left_pgno == left_pgno
                &&& split.right_pgno == right_pgno
                &&& split.divider_blob is Some
                &&& final(pager).cached().contains_key(right_pgno)
            },
            ({
                let d = old(page).data@;
                let ho = header_offset as int;
                !some_index_key_unreadable(d, ho, page_cell_count(d, ho)) && page_cell_count(d, ho)
                    >= 1 && page_loadable(old(pager), right_pgno) && !old(pager).spec_read_only()
                    && (forall|all: Seq<(Seq<u8>, Seq<u8>)>, key: Seq<u8>|
                    #![trigger all.to_multiset(), interior_index_entries(old(page).data@, header_offset as int).push((key, new_cell@))]
                    bytes_sorted(all) && all.to_multiset() == interior_index_entries(
                        d,
                        ho,
                    ).push((key, new_cell@)).to_multiset() ==> blob_halves_fit(
                        all,
                        12,
                        d.len() as int,
                        ho,
                        old(pager).spec_page_size() as int,
                        page_header_offset_of(right_pgno),
                    )) ==> r is Ok
            }),
    {
        let ghost d = page.data@;
        let ghost ho = header_offset as int;
        let _ = page.data.len();
        let cell_count = read_u16_be(page.data.as_slice(), header_offset + 3) as usize;
        let rightmost = read_u32_be(page.data.as_slice(), header_offset + 8);
        let mut cells: Vec<(Vec<u8>, Vec<u8>)> = Vec::new();
        let mut i: usize = 0;
        while i < cell_count
            invariant
                d == page.data@,
                d == old(page).data@,
                page.pgno == old(page).pgno,
                page.dirty == old(page).dirty,
                pager_ready(pager),
                pager_kept(old(pager), pager),
                pager.spec_page_count() == old(pager).spec_page_count(),
                pager.db() == old(pager).db(),
                pager.cached() == old(pager).cached(),
                d.len() <= isize::MAX,
                ho == header_offset,
                i <= cell_count,
                cell_count == page_cell_count(d, ho),
                interior_ptrs_fit(d, ho),
                cells@.len() == i,
                blob_pair_views(cells@) == interior_index_entries(d, ho).take(i as int),
            decreases cell_count - i,
        {
            let ptr = read_u16_be(page.data.as_slice(), interior_cell_ptr_offset(header_offset, i))
                as usize;
            assert(ptr == interior_ptr(d, ho, i as int));
            assert(interior_ptr(d, ho, i as int) + 4 <= d.len());
            if !index_cell_fits(page.data.as_slice(), ptr) {
                assert(interior_index_key(d, ho, i as int) is None);
                return Err(SqlliteError::sql(ResultCode::Corrupt, "malformed b-tree page"));
            }
            let (_, key) = match read_interior_index_cell(page.data.as_slice(), ptr) {
                Ok(p) => p,
                Err(e) => {
                    assert(interior_index_key(d, ho, i as int) is None);
                    return Err(e);
                },
            };
            let (len, n) = match read_varint(page.data.as_slice(), ptr + 4) {
                Ok(p) => p,
                Err(e) => {
                    assert(interior_index_key(d, ho, i as int) is None);
                    return Err(e);
                },
            };
            proof {
                lemma_varint_at_bound(d, ptr + 4);
            }
            let end = ptr + 4 + n + len as usize;
            let cell = slice_to_vec(slice_subrange(page.data.as_slice(), ptr, end));
            assert(key@ == interior_index_key(d, ho, i as int)->Some_0);
            assert(cell@ == interior_index_cell_bytes(d, ho, i as int));
            let ghost c0 = cells@;
            cells.push((key, cell));
            assert(blob_pair_views(cells@) =~= interior_index_entries(d, ho).take(i + 1));
            i = i + 1;
        }
        assert(interior_index_entries(d, ho).take(cell_count as int) =~= interior_index_entries(d, ho));
        let new_key = if new_cell.len() < 4 || !index_cell_fits(new_cell, 0) {
            Vec::new()
        } else {
            match read_interior_index_cell(new_cell, 0) {
                Ok((_, k)) => k,
                Err(_) => Vec::new(),
            }
        };
        let ghost c1 = cells@;
        let nc = slice_to_vec(new_cell);
        cells.push((new_key, nc));
        assert(blob_pair_views(cells@) =~= blob_pair_views(c1).push((new_key@, new_cell@)));
        let ghost unsorted = blob_pair_views(cells@);
        let cells = sort_cells_by_bytes(cells);
        let ghost all = blob_pair_views(cells@);
        let mid = cells.len() / 2;
        if mid == 0 {
            return Err(SqlliteError::sql(ResultCode::TooBig, "string or blob too big"));
        }
        let divider_blob = slice_to_vec(cells[mid - 1].0.as_slice());
        let mut left: Vec<Vec<u8>> = Vec::new();
        let mut right: Vec<Vec<u8>> = Vec::new();
        let mut k: usize = 0;
        while k < cells.len()
            invariant
                k <= cells@.len(),
                mid <= cells@.len(),
                all == blob_pair_views(cells@),
                k <= mid ==> cell_views(left@) == blob_cells(all).take(k as int) && right@.len() == 0,
                k > mid ==> cell_views(left@) == blob_cells(all).take(mid as int) && cell_views(right@)
                    == blob_cells(all).subrange(mid as int, k as int),
            decreases cells@.len() - k,
        {
            let c = slice_to_vec(cells[k].1.as_slice());
            let ghost l0 = left@;
            let ghost g0 = right@;
            if k < mid {
                left.push(c);
                assert(cell_views(left@) =~= cell_views(l0).push(c@));
            } else {
                right.push(c);
                assert(cell_views(right@) =~= cell_views(g0).push(c@));
            }
            proof {
                let bc = blob_cells(all);
                assert(bc[k as int] == c@);
                assert(bc.take(k + 1) =~= bc.take(k as int).push(c@));
                if k >= mid {
                    assert(bc.subrange(mid as int, k + 1) =~= bc.subrange(mid as int, k as int).push(c@));
                }
                if k == mid {
                    assert(cell_views(g0) =~= bc.subrange(mid as int, k as int));
                }
            }
            k = k + 1;
        }
        proof {
            assert(blob_cells(all).take(mid as int) =~= blob_cells(all.take(mid as int)));
            assert(blob_cells(all).subrange(mid as int, cells@.len() as int) =~= blob_cells(
                all.skip(mid as int),
            ));
            assert(cell_views(left@).len() == mid);
            assert(all.to_multiset() == unsorted.to_multiset());
            assert(unsorted == interior_index_entries(d, ho).push((new_key@, new_cell@)));
        }
        let mut right_page = match load_page(pager, right_pgno) {
            Ok(p) => p,
            Err(e) => return Err(e),
        };
        let right_ho = page_header_offset(right_pgno);
        let ps = page.data.len();
        let rps = right_page.data.len();
        if left.len() > 0x8000 || right.len() > 0x8000 || header_offset + 12 + 2 * left.len() > ps
            || !cells_fit(left.as_slice(), ps - (header_offset + 12 + 2 * left.len())) || right_ho
            + 12 + 2 * right.len() > rps || !cells_fit(
            right.as_slice(),
            rps - (right_ho + 12 + 2 * right.len()),
        ) {
            return Err(SqlliteError::sql(ResultCode::TooBig, "string or blob too big"));
        }
        let _ = self.rebuild_interior_index_page(page, header_offset, left.as_slice(), rightmost);
        let new_rightmost = read_u32_be(page.data.as_slice(), header_offset + 8);
        let _ = self.rebuild_interior_index_page(
            &mut right_page,
            right_ho,
            right.as_slice(),
            new_rightmost,
        );
        match pager.write_page(&mut right_page) {
            Ok(()) => {},
            Err(e) => return Err(e),
        }
        Ok(LeafSplit { left_pgno, divider_key: 0, divider_blob: Some(divider_blob), right_pgno })
    }

    /// Inserts an index cell into leaf page `pgno`, splitting the page when
    /// it is full; returns the split. Fails with `Constraint` "UNIQUE
    /// constraint failed" when the page holds the payload already.
    fn insert_into_leaf_index<F: VfsFile>(
        &mut self,
        pager: &mut Pager<F>,
        pgno: PageNo,
        cell: &[u8],
        divider: &[u8],
    ) -> (r: Result<Option<LeafSplit>, SqlliteError>)
        requires
            pager_ready(old(pager)),
        ensures
            pager_ready(final(pager)),
            pager_kept(old(pager), final(pager)),
            *final(self) == *old(self),
            r matches Ok(Some(split)) ==> split.left_pgno == pgno && split.divider_blob is Some,
            readable_index_leaf(old(pager), pgno) && leaf_has_payload(old(pager), pgno, divider@)
                ==> (r matches Err(e) && is_sql_error(
                e,
                ResultCode::Constraint,
                "UNIQUE constraint failed"@,
            )),
            index_leaf_takes_cell(old(pager), pgno, cell@, divider@) ==> r matches Ok(None),
            r matches Ok(None) ==> index_cell_placed(old(pager), final(pager), pgno, cell@, divider@),
    {
        let mut page = match load_page(pager, pgno) {
            Ok(p) => p,
            Err(e) => return Err(e),
        };
        let header_offset = page_header_offset(pgno);
        if !leaf_page_fits(page.data.as_slice(), header_offset) {
            return Err(SqlliteError::sql(ResultCode::Corrupt, "malformed b-tree page"));
        }
        if page.data[header_offset] != PAGE_TYPE_LEAF_INDEX {
            return Err(SqlliteError::sql(ResultCode::Corrupt, "expected leaf index page"));
        }
        let ghost d = page.data@;
        let ghost ho = header_offset as int;
        match self.find_cell_in_page_index(&page, header_offset, divider) {
            Ok(true) => {
                return Err(SqlliteError::sql(ResultCode::Constraint, "UNIQUE constraint failed"));
            },
            Ok(false) => {
                proof {
                    if leaf_has_payload(old(pager), pgno, divider@) {
                        let i = choose|i: int|
                            0 <= i < page_cell_count(d, ho) && #[trigger] leaf_index_payload(d, ho, i)
                                == Some(divider@);
                        assert(payload_differs(d, ho, i, divider@));
                    }
                }
            },
            Err(e) => {
                proof {
                    let i = choose|i: int|
                        0 <= i < page_cell_count(d, ho) && #[trigger] leaf_index_payload(d, ho, i) is None;
                    assert(some_payload_unreadable(d, ho, page_cell_count(d, ho)));
                }
                return Err(e);
            },
        }
        let inserted = match self.try_insert_leaf_cell_index(&mut page, header_offset, cell, divider) {
            Ok(b) => b,
            Err(e) => return Err(e),
        };
        if inserted {
            let ghost pre = *pager;
            let ghost placed_data = page.data@;
            match pager.write_page(&mut page) {
                Ok(()) => {},
                Err(e) => return Err(e),
            }
            proof {
                assert forall|p: PageNo| p != pgno implies #[trigger] page_bytes(pager, p)
                    == page_bytes(old(pager), p) by {
                    assert(pager.cached().contains_key(p) == pre.cached().contains_key(p));
                    assert(page_bytes(&pre, p) == page_bytes(old(pager), p));
                    if pre.cached().contains_key(p) {
                        assert(pager.cached()[p] == pre.cached()[p]);
                    }
                }
                assert(page_bytes(pager, pgno) == placed_data);
                assert(d == page_bytes(old(pager), pgno));
                assert(ho == page_header_offset_of(pgno));
                let idx = choose|idx: int|
                    leaf_index_insert_slot(d, ho, divider@, idx) && placed(
                        d,
                        placed_data,
                        ho,
                        ho + 8,
                        idx,
                        cell@,
                    );
                assert(placed(d, page_bytes(pager, pgno), ho, ho + 8, idx, cell@));
            }
            return Ok(None);
        }
        let right_pgno = match new_page(pager) {
            Ok(p) => p,
            Err(e) => return Err(e),
        };
        match init_leaf_page(pager, right_pgno, PAGE_TYPE_LEAF_INDEX) {
            Ok(()) => {},
            Err(e) => return Err(e),
        }
        let split = match self.split_leaf_index(
            pager,
            &mut page,
            header_offset,
            pgno,
            right_pgno,
            cell,
            divider,
        ) {
            Ok(s) => s,
            Err(e) => return Err(e),
        };
        match pager.write_page(&mut page) {
            Ok(()) => {},
            Err(e) => return Err(e),
        }
        Ok(Some(split))
    }

    /// Adds the divider of a split child to interior index page `pgno`,
    /// splitting the page in turn when it is full: the root gets a new root
    /// above it, any other page is returned as split.
    fn insert_into_interior_index<F: VfsFile>(
        &mut self,
        pager: &mut Pager<F>,
        pgno: PageNo,
        split: LeafSplit,
    ) -> (r: Result<Option<LeafSplit>, SqlliteError>)
        requires
            pager_ready(old(pager)),
        ensures
            pager_ready(final(pager)),
            pager_kept(old(pager), final(pager)),
            final(self).spec_flags() == old(self).spec_flags(),
            r matches Ok(Some(s)) ==> s.left_pgno == pgno && s.divider_blob is Some,
            ({
                let d = page_bytes(old(pager), pgno);
                let ho = page_header_offset_of(pgno);
                split.divider_blob matches Some(div) && page_loadable(old(pager), pgno) && div@.len()
                    < 0x8000_0000_0000_0000 && !old(pager).spec_read_only() && (forall|d2: Seq<u8>|
                    #[trigger] same_but_right_child(d, d2, ho) ==> interior_index_takes_cell(
                        d2,
                        ho,
                        (4 + crate::varint::groups(div@.len()) + div@.len()) as int,
                    )) ==> r matches Ok(None)
            }),
    {
        let divider = match &split.divider_blob {
            Some(d) => d,
            None => return Err(SqlliteError::sql(ResultCode::Corrupt, "missing index divider")),
        };
        let mut page = match load_page(pager, pgno) {
            Ok(p) => p,
            Err(e) => return Err(e),
        };
        let header_offset = page_header_offset(pgno);
        let ghost d = page.data@;
        let rightmost = read_u32_be(page.data.as_slice(), header_offset + 8);
        if rightmost == split.left_pgno {
            write_u32_be(page.data.as_mut_slice(), header_offset + 8, split.right_pgno);
        }
        proof {
            assert(d == page_bytes(old(pager), pgno));
            assert(header_offset as int == page_header_offset_of(pgno));
            assert(same_but_right_child(d, page.data@, header_offset as int));
        }
        if !interior_page_fits(page.data.as_slice(), header_offset) {
            return Err(SqlliteError::sql(ResultCode::Corrupt, "malformed b-tree page"));
        }
        if divider.len() as u64 >= 0x8000_0000_0000_0000 {
            return Err(SqlliteError::sql(ResultCode::TooBig, "string or blob too big"));
        }
        let cell = build_interior_index_cell(split.left_pgno, divider.as_slice());
        assert(cell@.len() == 4 + crate::varint::groups(divider@.len() as nat) + divider@.len());
        let inserted = match self.try_insert_interior_cell_index(
            &mut page,
            header_offset,
            cell.as_slice(),
            divider.as_slice(),
        ) {
            Ok(b) => b,
            Err(e) => return Err(e),
        };
        if inserted {
            match pager.write_page(&mut page) {
                Ok(()) => {},
                Err(e) => return Err(e),
            }
            return Ok(None);
        }
        let right_pgno = match new_page(pager) {
            Ok(p) => p,
            Err(e) => return Err(e),
        };
        match init_interior_page(pager, right_pgno, PAGE_TYPE_INTERIOR_INDEX) {
            Ok(()) => {},
            Err(e) => return Err(e),
        }
        let interior_split = match self.split_interior_index(
            pager,
            &mut page,
            header_offset,
            pgno,
            right_pgno,
            cell.as_slice(),
            divider.as_slice(),
        ) {
            Ok(s) => s,
            Err(e) => return Err(e),
        };
        match pager.write_page(&mut page) {
            Ok(()) => {},
            Err(e) => return Err(e),
        }
        if pgno == self.root_page {
            match self.promote_root_split(pager, interior_split) {
                Ok(()) => {},
                Err(e) => return Err(e),
            }
            Ok(None)
        } else {
            Ok(Some(interior_split))
        }
    }

    /// Inserts an index cell into the subtree at page `pgno`; returns the
    /// split of `pgno` when it had to split. At most `depth` pages are
    /// descended through.
    fn insert_index_into_tree<F: VfsFile>(
        &mut self,
        pager: &mut Pager<F>,
        pgno: PageNo,
        cell: &[u8],
        divider: &[u8],
        depth: u32,
    ) -> (r: Result<Option<LeafSplit>, SqlliteError>)
        requires
            pager_ready(old(pager)),
        ensures
            pager_ready(final(pager)),
            pager_kept(old(pager), final(pager)),
            final(self).spec_flags() == old(self).spec_flags(),
            r matches Ok(Some(s)) ==> s.left_pgno == pgno && s.divider_blob is Some,
            depth > 0 && readable_index_leaf(old(pager), pgno) && leaf_has_payload(
                old(pager),
                pgno,
                divider@,
            ) ==> (r matches Err(e) && is_sql_error(
                e,
                ResultCode::Constraint,
                "UNIQUE constraint failed"@,
            )),
            depth > 0 && index_leaf_takes_cell(old(pager), pgno, cell@, divider@) ==> (r matches Ok(
                None,
            ) && index_cell_placed(old(pager), final(pager), pgno, cell@, divider@)),
        decreases depth,
    {
        if depth == 0 {
            return Err(SqlliteError::sql(ResultCode::Corrupt, "b-tree deeper than its pages"));
        }
        let page = match load_page(pager, pgno) {
            Ok(p) => p,
            Err(e) => return Err(e),
        };
        let header_offset = page_header_offset(pgno);
        let page_type = page.data[header_offset];
        if page_type == PAGE_TYPE_LEAF_INDEX {
            self.insert_into_leaf_index(pager, pgno, cell, divider)
        } else if page_type == PAGE_TYPE_INTERIOR_INDEX {
            if !interior_page_fits(page.data.as_slice(), header_offset) {
                return Err(SqlliteError::sql(ResultCode::Corrupt, "malformed b-tree page"));
            }
            let child = match self.find_child_page_index(&page, header_offset, divider) {
                Ok(c) => c,
                Err(e) => return Err(e),
            };
            match self.insert_index_into_tree(pager, child, cell, divider, depth - 1) {
                Ok(Some(split)) => self.insert_into_interior_index(pager, pgno, split),
                Ok(None) => Ok(None),
                Err(e) => Err(e),
            }
        } else {
            Err(SqlliteError::sql(ResultCode::Corrupt, "unexpected page type in index btree"))
        }
    }

    /// Inserts the index payload `payload` (key record and rowid) into an
    /// index b-tree.
    fn insert_index_payload<F: VfsFile>(&mut self, pager: &mut Pager<F>, payload: &[u8]) -> (r:
        Result<(), SqlliteError>)
        requires
            pager_ready(old(pager)),
            payload@.len() < 0x8000000000000000,
        ensures
            pager_ready(final(pager)),
            pager_kept(old(pager), final(pager)),
            final(self).spec_flags() == old(self).spec_flags(),
            old(pager).spec_page_count() > 0 && readable_index_leaf(old(pager), old(self).spec_root_page())
                && leaf_has_payload(old(pager), old(self).spec_root_page(), payload@) ==> (r matches Err(
                e,
            ) && is_sql_error(e, ResultCode::Constraint, "UNIQUE constraint failed"@)),
            old(pager).spec_page_count() > 0 && index_leaf_takes_cell(
                old(pager),
                old(self).spec_root_page(),
                crate::btree::index_cell(payload@),
                payload@,
            ) ==> (r is Ok && index_cell_placed(
                old(pager),
                final(pager),
                old(self).spec_root_page(),
                crate::btree::index_cell(payload@),
                payload@,
            )),
    {
        let cell = crate::btree::build_index_cell(payload);
        let divider = slice_to_vec(payload);
        let root = self.root_page;
        let depth = pager.page_count();
        match self.insert_index_into_tree(pager, root, cell.as_slice(), divider.as_slice(), depth) {
            Ok(Some(split)) => {
                if split.left_pgno == self.root_page {
                    self.promote_root_split(pager, split)
                } else {
                    let root = self.root_page;
                    match self.insert_into_interior_index(pager, root, split) {
                        Ok(_) => Ok(()),
                        Err(e) => Err(e),
                    }
                }
            },
            Ok(None) => Ok(()),
            Err(e) => Err(e),
        }
    }

    /// Inserts the index entry of key record `key` for rowid `rowid`: the
    /// record followed by the rowid varint. Fails with `Internal` on a table
    /// b-tree, with `Constraint` when the entry is there already.
    pub fn insert_index<F: VfsFile>(&mut self, pager: &mut Pager<F>, key: &[u8], rowid: i64) -> (r:
        Result<(), SqlliteError>)
        requires
            pager_ready(old(pager)),
            rowid >= 0,
            key@.len() < 0x7fff_ffff_ffff_fff0,
        ensures
            pager_ready(final(pager)),
            pager_kept(old(pager), final(pager)),
            final(self).spec_flags() == old(self).spec_flags(),
            !old(self).spec_flags().blobkey ==> *final(self) == *old(self) && *final(pager)
                == *old(pager) && (r matches Err(e) && is_sql_error(
                e,
                ResultCode::Internal,
                "insert_index requires index btree"@,
            )),
            ({
                let root = old(self).spec_root_page();
                let payload = index_entry(key@, rowid);
                old(self).spec_flags().blobkey && old(pager).spec_page_count() > 0
                    && readable_index_leaf(old(pager), root) && leaf_has_payload(old(pager), root, payload)
                    ==> (r matches Err(e) && is_sql_error(
                    e,
                    ResultCode::Constraint,
                    "UNIQUE constraint failed"@,
                ))
            }),
            ({
                let root = old(self).spec_root_page();
                let payload = index_entry(key@, rowid);
                let cell = crate::btree::index_cell(payload);
                old(self).spec_flags().blobkey && old(pager).spec_page_count() > 0
                    && index_leaf_takes_cell(old(pager), root, cell, payload) ==> (r is Ok
                    && index_cell_placed(old(pager), final(pager), root, cell, payload))
            }),
    {
        if !self.flags.blobkey {
            return Err(SqlliteError::sql(ResultCode::Internal, "insert_index requires index btree"));
        }
        let mut payload = slice_to_vec(key);
        let mut buf = [0u8; 9];
        proof {
            crate::varint::lemma_groups_below(rowid as nat);
        }
        let n = crate::varint::write_varint(rowid as u64, &mut buf);
        crate::record::append_bytes(&mut payload, slice_subrange(buf.as_slice(), 0, n));
        assert(payload@ == index_entry(key@, rowid));
        self.insert_index_payload(pager, payload.as_slice())
    }
}

/// Inserts the row of `values` under `rowid` into a table b-tree.
pub fn btree_insert_row<F: VfsFile>(
    btree: &mut Btree,
    pager: &mut Pager<F>,
    rowid: i64,
    values: &[Value],
) -> (r: Result<(), SqlliteError>)
    requires
        pager_ready(old(pager)),
        rowid >= 0,
        values@.len() < 0x800000000000000,
        forall|i: int|
            0 <= i < values@.len() ==> serial_type_of(#[trigger] values@[i]@) < 0x8000000000000000
                && serial_type_of(values@[i]@) <= usize::MAX,
    ensures
        pager_ready(final(pager)),
        pager_kept(old(pager), final(pager)),
        final(btree).spec_flags() == old(btree).spec_flags(),
        old(btree).spec_flags().blobkey ==> r is Err,
        ({
            let record = crate::record::record_bytes(crate::record::views(values@));
            let root = old(btree).spec_root_page();
            !old(btree).spec_flags().blobkey && record.len() < 0x8000000000000000
                && old(pager).spec_page_count() > 0 && readable_table_leaf(old(pager), root)
                && leaf_has_rowid(old(pager), root, rowid) ==> (r matches Err(e) && is_sql_error(
                e,
                ResultCode::Constraint,
                "UNIQUE constraint failed"@,
            ))
        }),
        ({
            let record = crate::record::record_bytes(crate::record::views(values@));
            let root = old(btree).spec_root_page();
            let cell = crate::btree::table_cell(rowid as nat, record);
            !old(btree).spec_flags().blobkey && record.len() < 0x8000000000000000
                && old(pager).spec_page_count() > 0 && leaf_takes_cell(old(pager), root, cell, rowid)
                ==> (r is Ok && cell_placed(old(pager), final(pager), root, cell, rowid))
        }),
{
    let record = encode_record(values);
    if record.len() as u64 >= 0x8000_0000_0000_0000 {
        return Err(SqlliteError::sql(ResultCode::TooBig, "string or blob too big"));
    }
    btree.insert(pager, rowid, record.as_slice())
}

/// Inserts the index entry of the key `key_values` for `rowid` into an index
/// b-tree.
pub fn btree_insert_index<F: VfsFile>(
    btree: &mut Btree,
    pager: &mut Pager<F>,
    key_values: &[Value],
    rowid: i64,
) -> (r: Result<(), SqlliteError>)
    requires
        pager_ready(old(pager)),
        rowid >= 0,
        key_values@.len() < 0x800000000000000,
        forall|i: int|
            0 <= i < key_values@.len() ==> serial_type_of(#[trigger] key_values@[i]@)
                < 0x8000000000000000 && serial_type_of(key_values@[i]@) <= usize::MAX,
    ensures
        pager_ready(final(pager)),
        pager_kept(old(pager), final(pager)),
        final(btree).spec_flags() == old(btree).spec_flags(),
        !old(btree).spec_flags().blobkey ==> r is Err,
        ({
            let record = crate::record::record_bytes(crate::record::views(key_values@));
            let root = old(btree).spec_root_page();
            let payload = index_entry(record, rowid);
            old(btree).spec_flags().blobkey && record.len() < 0x7fff_ffff_ffff_fff0
                && old(pager).spec_page_count() > 0 && readable_index_leaf(old(pager), root)
                && leaf_has_payload(old(pager), root, payload) ==> (r matches Err(e) && is_sql_error(
                e,
                ResultCode::Constraint,
                "UNIQUE constraint failed"@,
            ))
        }),
        ({
            let record = crate::record::record_bytes(crate::record::views(key_values@));
            let root = old(btree).spec_root_page();
            let payload = index_entry(record, rowid);
            let cell = crate::btree::index_cell(payload);
            old(btree).spec_flags().blobkey && record.len() < 0x7fff_ffff_ffff_fff0
                && old(pager).spec_page_count() > 0 && index_leaf_takes_cell(old(pager), root, cell, payload)
                ==> (r is Ok && index_cell_placed(old(pager), final(pager), root, cell, payload))
        }),
{
    let record = encode_record(key_values);
    if record.len() as u64 >= 0x7fff_ffff_ffff_fff0 {
        return Err(SqlliteError::sql(ResultCode::TooBig, "string or blob too big"));
    }
    btree.insert_index(pager, record.as_slice(), rowid)
}

} // verus!
