//! Write-Ahead Log (WAL) file format read/write.

use vstd::prelude::*;

use crate::constants::{WAL_FRAME_HEADER_SIZE, WAL_HEADER_SIZE, WAL_MAGIC, WAL_MAGIC_LE};
use crate::error::{is_sql_error, ResultCode, SqlliteError};
use crate::io::{
    be_u32, keeps_prefix, lemma_overwrite_inside, lemma_overwrite_outside, overwrite, read_exact_at, read_u32_be, write_exact_at, write_u32_be,
    OpenFlags, Vfs, VfsFile,
};
use std::collections::HashMap;
use vstd::std_specs::iter::IteratorSpec;
use std::path::Path;
use crate::types::PageNo;

verus! {

pub const WAL_FORMAT_VERSION: u32 = 3007000;

#[derive(Debug, Clone, PartialEq, Eq, Structural)]
pub struct WalHeader {
    pub magic: u32,
    pub version: u32,
    pub page_size: u32,
    pub checkpoint_seq: u32,
    pub salt1: u32,
    pub salt2: u32,
    pub checksum1: u32,
    pub checksum2: u32,
}

#[derive(Debug, Clone, PartialEq, Eq, Structural)]
pub struct WalFrameHeader {
    pub pgno: PageNo,
    pub db_size: u32,
    pub salt1: u32,
    pub salt2: u32,
    pub checksum1: u32,
    pub checksum2: u32,
}

/// The running sums over `words`, starting from `start`.
pub open spec fn checksum_fold(start: (u32, u32), words: Seq<u32>) -> (u32, u32)
    decreases words.len(),
{
    if words.len() == 0 {
        start
    } else {
        let prev = checksum_fold(start, words.drop_last());
        let s1 = prev.0.wrapping_add(words.last());
        (s1, prev.1.wrapping_add(s1))
    }
}

/// The WAL checksum of `words` continued from `c` with `salt`: both sums start
/// with the salt and the word count (twice it for the second), then each word is
/// added to the first sum and the first sum to the second.
pub open spec fn wal_checksum_spec(salt: u32, words: Seq<u32>, c: (u32, u32)) -> (u32, u32) {
    let n = (words.len() % 0x100000000) as u32;
    checksum_fold(
        (c.0.wrapping_add(salt).wrapping_add(n), c.1.wrapping_add(salt).wrapping_add(
            (n * 2) as u32,
        )),
        words,
    )
}

/// The big-endian 32-bit words of `data`, a trailing partial word dropped.
pub open spec fn be_words(data: Seq<u8>) -> Seq<u32> {
    Seq::new(data.len() / 4, |i: int| be_u32(data, 4 * i) as u32)
}

fn wal_checksum(salt: u32, data: &[u32], checksum: &mut [u32; 2])
    requires
        (data@.len() % 0x100000000) * 2 < 0x100000000,
    ensures
        (final(checksum)@[0], final(checksum)@[1]) == wal_checksum_spec(
            salt,
            data@,
            (old(checksum)@[0], old(checksum)@[1]),
        ),
{
    let n = (data.len() as u64 % 0x100000000) as u32;
    assert(n == data@.len() % 0x100000000);
    let mut s1 = checksum[0].wrapping_add(salt).wrapping_add(n);
    let mut s2 = checksum[1].wrapping_add(salt).wrapping_add(n * 2);
    let ghost start = (s1, s2);
    let mut i: usize = 0;
    while i < data.len()
        invariant
            i <= data@.len(),
            (s1, s2) == checksum_fold(start, data@.subrange(0, i as int)),
        decreases data@.len() - i,
    {
        let word = data[i];
        proof {
            assert(data@.subrange(0, i + 1).drop_last() =~= data@.subrange(0, i as int));
        }
        s1 = s1.wrapping_add(word);
        s2 = s2.wrapping_add(s1);
        i = i + 1;
    }
    assert(data@.subrange(0, data@.len() as int) =~= data@);
    checksum[0] = s1;
    checksum[1] = s2;
}

fn bytes_to_u32_be(data: &[u8]) -> (words: Vec<u32>)
    ensures
        words@ == be_words(data@),
{
    let len = data.len();
    let n = len / 4;
    let mut words: Vec<u32> = Vec::new();
    let mut i: usize = 0;
    while i < n
        invariant
            n == data@.len() / 4,
            len == data@.len(),
            i <= n,
            words@ =~= be_words(data@).subrange(0, i as int),
        decreases n - i,
    {
        assert(4 * i + 4 <= len) by (nonlinear_arith)
            requires
                i < n,
                n == len / 4,
        ;
        words.push(read_u32_be(data, 4 * i));
        i = i + 1;
    }
    words
}

/// The eight words the header checksum covers.
pub open spec fn header_words_spec(h: WalHeader) -> Seq<u32> {
    seq![h.magic, h.version, h.page_size, h.checkpoint_seq, h.salt1, h.salt2, 0u32, 0u32]
}

/// The checksum pair a header should carry.
pub open spec fn header_checksum(h: WalHeader) -> (u32, u32) {
    wal_checksum_spec(0, header_words_spec(h), (0, 0))
}

/// Whether `data` holds `h` in the 32-byte header layout.
pub open spec fn encodes_wal_header(h: WalHeader, data: Seq<u8>) -> bool {
    &&& data.len() >= 32
    &&& be_u32(data, 0) == h.magic
    &&& be_u32(data, 4) == h.version
    &&& be_u32(data, 8) == h.page_size
    &&& be_u32(data, 12) == h.checkpoint_seq
    &&& be_u32(data, 16) == h.salt1
    &&& be_u32(data, 20) == h.salt2
    &&& be_u32(data, 24) == h.checksum1
    &&& be_u32(data, 28) == h.checksum2
}

/// The header that `data` holds.
pub open spec fn decoded_wal_header(data: Seq<u8>) -> WalHeader {
    WalHeader {
        magic: be_u32(data, 0) as u32,
        version: be_u32(data, 4) as u32,
        page_size: be_u32(data, 8) as u32,
        checkpoint_seq: be_u32(data, 12) as u32,
        salt1: be_u32(data, 16) as u32,
        salt2: be_u32(data, 20) as u32,
        checksum1: be_u32(data, 24) as u32,
        checksum2: be_u32(data, 28) as u32,
    }
}

/// Whether a decoded header is one `decode` accepts.
pub open spec fn wal_header_valid(h: WalHeader) -> bool {
    &&& h.magic == WAL_MAGIC || h.magic == WAL_MAGIC_LE
    &&& h.version == WAL_FORMAT_VERSION
    &&& (h.checksum1, h.checksum2) == header_checksum(h)
}

impl WalHeader {
    pub fn new(page_size: u32, salt1: u32, salt2: u32) -> (h: Self)
        ensures
            h.magic == WAL_MAGIC,
            h.version == WAL_FORMAT_VERSION,
            h.page_size == page_size,
            h.checkpoint_seq == 0,
            h.salt1 == salt1,
            h.salt2 == salt2,
            (h.checksum1, h.checksum2) == header_checksum(h),
    {
        let mut header = Self {
            magic: WAL_MAGIC,
            version: WAL_FORMAT_VERSION,
            page_size,
            checkpoint_seq: 0,
            salt1,
            salt2,
            checksum1: 0,
            checksum2: 0,
        };
        header.update_checksum();
        header
    }

    fn header_words(&self) -> (w: [u32; 8])
        ensures
            w@ == header_words_spec(*self),
    {
        let w = [
            self.magic,
            self.version,
            self.page_size,
            self.checkpoint_seq,
            self.salt1,
            self.salt2,
            0,
            0,
        ];
        assert(w@ =~= header_words_spec(*self));
        w
    }

    pub fn update_checksum(&mut self)
        ensures
            final(self).magic == old(self).magic,
            final(self).version == old(self).version,
            final(self).page_size == old(self).page_size,
            final(self).checkpoint_seq == old(self).checkpoint_seq,
            final(self).salt1 == old(self).salt1,
            final(self).salt2 == old(self).salt2,
            (final(self).checksum1, final(self).checksum2) == header_checksum(*old(self)),
    {
        let mut checksum = [0u32, 0u32];
        let words = self.header_words();
        wal_checksum(0, &words, &mut checksum);
        self.checksum1 = checksum[0];
        self.checksum2 = checksum[1];
    }

    pub fn verify_checksum(&self) -> (b: bool)
        ensures
            b == ((self.checksum1, self.checksum2) == header_checksum(*self)),
    {
        let mut checksum = [0u32, 0u32];
        let words = self.header_words();
        wal_checksum(0, &words, &mut checksum);
        checksum[0] == self.checksum1 && checksum[1] == self.checksum2
    }

    pub fn encode(&self) -> (buf: [u8; WAL_HEADER_SIZE])
        ensures
            encodes_wal_header(*self, buf@),
    {
        let mut buf = [0u8; WAL_HEADER_SIZE];
        write_u32_be(&mut buf, 0, self.magic);
        write_u32_be(&mut buf, 4, self.version);
        write_u32_be(&mut buf, 8, self.page_size);
        write_u32_be(&mut buf, 12, self.checkpoint_seq);
        write_u32_be(&mut buf, 16, self.salt1);
        write_u32_be(&mut buf, 20, self.salt2);
        write_u32_be(&mut buf, 24, self.checksum1);
        write_u32_be(&mut buf, 28, self.checksum2);
        buf
    }

    pub fn decode(data: &[u8]) -> (r: Result<Self, SqlliteError>)
        ensures
            r matches Ok(h) ==> data@.len() >= 32 && h == decoded_wal_header(data@)
                && wal_header_valid(h),
            r matches Err(e) ==> if data@.len() < 32 {
                is_sql_error(e, ResultCode::Corrupt, "WAL header too short"@)
            } else {
                let h = decoded_wal_header(data@);
                !wal_header_valid(h) && if !(h.magic == WAL_MAGIC || h.magic == WAL_MAGIC_LE) {
                    is_sql_error(e, ResultCode::Corrupt, "invalid WAL magic"@)
                } else if h.version != WAL_FORMAT_VERSION {
                    is_sql_error(e, ResultCode::Corrupt, "unsupported WAL version"@)
                } else {
                    is_sql_error(e, ResultCode::Corrupt, "WAL header checksum mismatch"@)
                }
            },
    {
        if data.len() < WAL_HEADER_SIZE {
            return Err(SqlliteError::sql(ResultCode::Corrupt, "WAL header too short"));
        }
        let header = Self {
            magic: read_u32_be(data, 0),
            version: read_u32_be(data, 4),
            page_size: read_u32_be(data, 8),
            checkpoint_seq: read_u32_be(data, 12),
            salt1: read_u32_be(data, 16),
            salt2: read_u32_be(data, 20),
            checksum1: read_u32_be(data, 24),
            checksum2: read_u32_be(data, 28),
        };
        if header.magic != WAL_MAGIC && header.magic != WAL_MAGIC_LE {
            return Err(SqlliteError::sql(ResultCode::Corrupt, "invalid WAL magic"));
        }
        if header.version != WAL_FORMAT_VERSION {
            return Err(SqlliteError::sql(ResultCode::Corrupt, "unsupported WAL version"));
        }
        if !header.verify_checksum() {
            return Err(SqlliteError::sql(ResultCode::Corrupt, "WAL header checksum mismatch"));
        }
        Ok(header)
    }
}

/// Whether `data` holds `f` in the 24-byte frame header layout.
pub open spec fn encodes_frame_header(f: WalFrameHeader, data: Seq<u8>) -> bool {
    &&& data.len() >= 24
    &&& be_u32(data, 0) == f.pgno
    &&& be_u32(data, 4) == f.db_size
    &&& be_u32(data, 8) == f.salt1
    &&& be_u32(data, 12) == f.salt2
    &&& be_u32(data, 16) == f.checksum1
    &&& be_u32(data, 20) == f.checksum2
}

/// The frame header that `data` holds.
pub open spec fn decoded_frame_header(data: Seq<u8>) -> WalFrameHeader {
    WalFrameHeader {
        pgno: be_u32(data, 0) as u32,
        db_size: be_u32(data, 4) as u32,
        salt1: be_u32(data, 8) as u32,
        salt2: be_u32(data, 12) as u32,
        checksum1: be_u32(data, 16) as u32,
        checksum2: be_u32(data, 20) as u32,
    }
}

/// The words of a frame header that its checksum covers.
pub open spec fn frame_words_spec(f: WalFrameHeader) -> Seq<u32> {
    seq![f.pgno, f.db_size, f.salt1, f.salt2, 0u32, 0u32]
}

/// The four bytes of `x` in reverse order.
pub open spec fn swap_bytes_spec(x: u32) -> u32 {
    ((x % 0x100) * 0x1000000 + ((x / 0x100) % 0x100) * 0x10000 + ((x / 0x10000) % 0x100) * 0x100
        + x / 0x1000000) as u32
}

/// The checksum pair of a frame: the header words summed with salt1, then the
/// page's big-endian words with salt2; byte-swapped when the log is little-endian.
pub open spec fn frame_checksum(f: WalFrameHeader, page: Seq<u8>, is_le: bool) -> (u32, u32) {
    let c = wal_checksum_spec(f.salt2, be_words(page), wal_checksum_spec(f.salt1, frame_words_spec(f), (0, 0)));
    if is_le {
        (swap_bytes_spec(c.0), swap_bytes_spec(c.1))
    } else {
        c
    }
}

fn swap_bytes(x: u32) -> (y: u32)
    ensures
        y == swap_bytes_spec(x),
{
    (x % 0x100) * 0x1000000 + ((x / 0x100) % 0x100) * 0x10000 + ((x / 0x10000) % 0x100) * 0x100
        + x / 0x1000000
}

impl WalFrameHeader {
    pub fn encode(&self) -> (buf: [u8; WAL_FRAME_HEADER_SIZE])
        ensures
            encodes_frame_header(*self, buf@),
    {
        let mut buf = [0u8; WAL_FRAME_HEADER_SIZE];
        write_u32_be(&mut buf, 0, self.pgno);
        write_u32_be(&mut buf, 4, self.db_size);
        write_u32_be(&mut buf, 8, self.salt1);
        write_u32_be(&mut buf, 12, self.salt2);
        write_u32_be(&mut buf, 16, self.checksum1);
        write_u32_be(&mut buf, 20, self.checksum2);
        buf
    }

    pub fn decode(data: &[u8]) -> (r: Result<Self, SqlliteError>)
        ensures
            r matches Ok(f) ==> data@.len() >= 24 && f == decoded_frame_header(data@),
            r matches Err(e) ==> data@.len() < 24 && is_sql_error(
                e,
                ResultCode::Corrupt,
                "WAL frame header too short"@,
            ),
    {
        if data.len() < WAL_FRAME_HEADER_SIZE {
            return Err(SqlliteError::sql(ResultCode::Corrupt, "WAL frame header too short"));
        }
        Ok(Self {
            pgno: read_u32_be(data, 0),
            db_size: read_u32_be(data, 4),
            salt1: read_u32_be(data, 8),
            salt2: read_u32_be(data, 12),
            checksum1: read_u32_be(data, 16),
            checksum2: read_u32_be(data, 20),
        })
    }

    fn frame_words(&self) -> (w: [u32; 6])
        ensures
            w@ == frame_words_spec(*self),
    {
        let w = [self.pgno, self.db_size, self.salt1, self.salt2, 0, 0];
        assert(w@ =~= frame_words_spec(*self));
        w
    }

    pub fn compute_checksum(&self, page_data: &[u8], is_le: bool) -> (c: (u32, u32))
        requires
            ((page_data@.len() / 4) % 0x100000000) * 2 < 0x100000000,
        ensures
            c == frame_checksum(*self, page_data@, is_le),
    {
        let mut checksum = [0u32, 0u32];
        let words = self.frame_words();
        wal_checksum(self.salt1, &words, &mut checksum);
        let page_words = bytes_to_u32_be(page_data);
        assert(page_words@.len() == page_data@.len() / 4);
        wal_checksum(self.salt2, page_words.as_slice(), &mut checksum);
        if is_le {
            (swap_bytes(checksum[0]), swap_bytes(checksum[1]))
        } else {
            (checksum[0], checksum[1])
        }
    }

    pub fn verify_checksum(&self, page_data: &[u8], is_le: bool) -> (b: bool)
        requires
            ((page_data@.len() / 4) % 0x100000000) * 2 < 0x100000000,
        ensures
            b == ((self.checksum1, self.checksum2) == frame_checksum(*self, page_data@, is_le)),
    {
        let (c1, c2) = self.compute_checksum(page_data, is_le);
        c1 == self.checksum1 && c2 == self.checksum2
    }
}

/// Decoding what `encode` wrote gives back the header, and a header made by
/// `new` (or whose checksum `update_checksum` set) passes `decode`'s checks.
pub proof fn lemma_wal_header_roundtrip(h: WalHeader, data: Seq<u8>)
    requires
        encodes_wal_header(h, data),
    ensures
        decoded_wal_header(data) == h,
        (h.magic == WAL_MAGIC || h.magic == WAL_MAGIC_LE) && h.version == WAL_FORMAT_VERSION
            && (h.checksum1, h.checksum2) == header_checksum(h) ==> wal_header_valid(
            decoded_wal_header(data),
        ),
{
}

/// Decoding what `encode` wrote gives back the frame header.
pub proof fn lemma_frame_header_roundtrip(f: WalFrameHeader, data: Seq<u8>)
    requires
        encodes_frame_header(f, data),
    ensures
        decoded_frame_header(data) == f,
{
}


/// Size of one frame: its header and a page.
pub open spec fn frame_size(ps: u32) -> int {
    24 + ps
}

/// Byte offset of frame `i` in the log file.
pub open spec fn frame_off(i: int, ps: u32) -> int {
    32 + i * frame_size(ps)
}

/// The frame header stored for frame `i` in the bytes `c`.
pub open spec fn frame_header_at(c: Seq<u8>, i: int, ps: u32) -> WalFrameHeader {
    decoded_frame_header(c.subrange(frame_off(i, ps), frame_off(i, ps) + 24))
}

/// The page stored in frame `i`.
pub open spec fn frame_page_at(c: Seq<u8>, i: int, ps: u32) -> Seq<u8> {
    c.subrange(frame_off(i, ps) + 24, frame_off(i, ps) + 24 + ps)
}

/// Whether frame `i` is complete, carries the log's salts, and its checksum matches.
#[verifier::opaque]
pub open spec fn frame_ok(c: Seq<u8>, i: int, ps: u32, h: WalHeader, is_le: bool) -> bool {
    let fh = frame_header_at(c, i, ps);
    &&& frame_off(i, ps) + frame_size(ps) <= c.len()
    &&& fh.salt1 == h.salt1
    &&& fh.salt2 == h.salt2
    &&& (fh.checksum1, fh.checksum2) == frame_checksum(fh, frame_page_at(c, i, ps), is_le)
}

/// The index that recovery builds from the first `k` frames: each nonzero page
/// number maps to the last of those frames that holds it.
pub open spec fn index_upto(c: Seq<u8>, k: nat, ps: u32) -> Map<u32, u32>
    decreases k,
{
    if k == 0 {
        Map::empty()
    } else {
        let prev = index_upto(c, (k - 1) as nat, ps);
        let pg = frame_header_at(c, k - 1, ps).pgno;
        if pg > 0 {
            prev.insert(pg, (k - 1) as u32)
        } else {
            prev
        }
    }
}

/// Number of whole frames the file size allows, as the 32-bit count recovery uses.
pub open spec fn frames_in_file(c: Seq<u8>, ps: u32) -> nat {
    if c.len() <= 32 {
        0
    } else {
        (((c.len() - 32) / frame_size(ps)) % 0x100000000) as nat
    }
}

/// The first frame from `i` on (below `n`) that is not valid, or `n`.
pub open spec fn first_bad_frame(c: Seq<u8>, i: nat, n: nat, ps: u32, h: WalHeader, is_le: bool) -> nat
    decreases n - i,
{
    if i >= n {
        n
    } else if !frame_ok(c, i as int, ps, h, is_le) {
        i
    } else {
        first_bad_frame(c, i + 1, n, ps, h, is_le)
    }
}

/// The header that a new log starts with: big-endian magic, checkpoint
/// sequence 0, the fixed salts, and its own checksum.
pub open spec fn fresh_wal_header(h: WalHeader, page_size: u32) -> bool {
    &&& h == WalHeader {
        magic: WAL_MAGIC,
        version: WAL_FORMAT_VERSION,
        page_size,
        checkpoint_seq: 0,
        salt1: 0x12345678,
        salt2: 0x9abcdef0,
        checksum1: h.checksum1,
        checksum2: h.checksum2,
    }
    &&& (h.checksum1, h.checksum2) == header_checksum(h)
}

/// How many frames recovery accepts from the bytes `c`: the valid frames before the first invalid one.
pub open spec fn recovered_count(c: Seq<u8>, ps: u32, h: WalHeader, is_le: bool) -> nat {
    first_bad_frame(c, 0, frames_in_file(c, ps), ps, h, is_le)
}

proof fn lemma_frame_off_succ(i: int, ps: u32)
    ensures
        frame_off(i + 1, ps) == frame_off(i, ps) + frame_size(ps),
{
    assert((i + 1) * frame_size(ps) == i * frame_size(ps) + frame_size(ps)) by (nonlinear_arith);
}

proof fn lemma_frame_off_mono_le(i: int, k: int, ps: u32)
    requires
        0 <= i <= k,
    ensures
        frame_off(i, ps) <= frame_off(k, ps),
{
    assert(i * frame_size(ps) <= k * frame_size(ps)) by (nonlinear_arith)
        requires
            i <= k,
            frame_size(ps) >= 24,
    ;
}

/// Where the scan stops: if frame `i` is bad the first bad frame from `i` is
/// `i`; if every frame from `i` to `n` is valid it is `n`.
proof fn lemma_first_bad_all_ok(c: Seq<u8>, i: nat, n: nat, ps: u32, h: WalHeader, is_le: bool)
    requires
        i <= n,
        i < n ==> !frame_ok(c, i as int, ps, h, is_le),
    ensures
        first_bad_frame(c, i, n, ps, h, is_le) == i,
{
}

proof fn lemma_first_bad_of_valid(c: Seq<u8>, i: nat, n: nat, ps: u32, h: WalHeader, is_le: bool)
    requires
        i <= n,
        forall|j: int| i <= j < n ==> frame_ok(c, j, ps, h, is_le),
    ensures
        first_bad_frame(c, i, n, ps, h, is_le) == n,
    decreases n - i,
{
    if i < n {
        lemma_first_bad_of_valid(c, i + 1, n, ps, h, is_le);
    }
}

/// The pages the first `k` frames of `c` hold, as recovery indexes them.
pub open spec fn pages_of(c: Seq<u8>, k: nat, ps: u32) -> Map<u32, Seq<u8>> {
    let idx = index_upto(c, k, ps);
    Map::new(|p: u32| idx.contains_key(p), |p: u32| frame_page_at(c, idx[p] as int, ps))
}

/// Whether byte `i` lies in the database slot of page `p`.
pub open spec fn slot_has(p: u32, i: int, ps: int) -> bool {
    (p - 1) * ps <= i < p * ps
}

/// Whether byte `i` lies in the slot of one of the pages of `pages`.
pub open spec fn in_some_slot(pages: Map<u32, Seq<u8>>, i: int, ps: int) -> bool {
    exists|p: u32| pages.contains_key(p) && #[trigger] slot_has(p, i, ps)
}

/// Whether byte `i` lies in the slot of one of the first `k` entries of `frames`.
pub open spec fn in_slots(frames: Seq<(u32, u32)>, k: int, i: int, ps: int) -> bool {
    exists|j: int| 0 <= j < k && #[trigger] slot_has(frames[j].0, i, ps)
}

pub proof fn lemma_slots_disjoint(p: int, q: int, ps: int)
    requires
        p != q,
        p >= 1,
        q >= 1,
        ps >= 0,
    ensures
        p * ps <= (q - 1) * ps || q * ps <= (p - 1) * ps,
{
    if p < q {
        assert(p * ps <= (q - 1) * ps) by (nonlinear_arith)
            requires
                p <= q - 1,
                ps >= 0,
        ;
    } else {
        assert(q * ps <= (p - 1) * ps) by (nonlinear_arith)
            requires
                q <= p - 1,
                ps >= 0,
        ;
    }
}

proof fn lemma_frame_off_mono(i: int, k: int, ps: u32)
    requires
        0 <= i < k,
    ensures
        frame_off(i, ps) + frame_size(ps) <= frame_off(k, ps),
{
    assert((i + 1) * frame_size(ps) <= k * frame_size(ps)) by (nonlinear_arith)
        requires
            i + 1 <= k,
            frame_size(ps) >= 24,
    ;
    assert(frame_off(i, ps) + frame_size(ps) == 32 + (i + 1) * frame_size(ps)) by (nonlinear_arith);
}

/// Frames below `k` depend only on the bytes before frame `k`.
proof fn lemma_frames_prefix(c1: Seq<u8>, c2: Seq<u8>, k: nat, ps: u32, h: WalHeader, is_le: bool)
    requires
        c1.len() >= frame_off(k as int, ps),
        c2.len() >= frame_off(k as int, ps),
        forall|j: int| 0 <= j < frame_off(k as int, ps) ==> c1[j] == c2[j],
    ensures
        index_upto(c1, k, ps) == index_upto(c2, k, ps),
        forall|i: int|
            0 <= i < k ==> (#[trigger] frame_ok(c2, i, ps, h, is_le) <==> frame_ok(c1, i, ps, h, is_le)),
        forall|i: int| 0 <= i < k ==> #[trigger] frame_header_at(c2, i, ps) == frame_header_at(c1, i, ps),
        forall|i: int| 0 <= i < k ==> #[trigger] frame_page_at(c2, i, ps) == frame_page_at(c1, i, ps),
    decreases k,
{
    reveal(frame_ok);
    assert forall|i: int| 0 <= i < k implies (frame_ok(c1, i, ps, h, is_le) <==> frame_ok(
        c2,
        i,
        ps,
        h,
        is_le,
    )) && frame_header_at(c1, i, ps) == frame_header_at(c2, i, ps) && frame_page_at(c1, i, ps)
        == frame_page_at(c2, i, ps) by {
        lemma_frame_off_mono(i, k as int, ps);
        let o = frame_off(i, ps);
        assert(c1.subrange(o, o + 24) =~= c2.subrange(o, o + 24));
        assert(c1.subrange(o + 24, o + 24 + ps) =~= c2.subrange(o + 24, o + 24 + ps));
    }
    if k > 0 {
        lemma_frame_off_mono(k - 1, k as int, ps);
        lemma_frames_prefix(c1, c2, (k - 1) as nat, ps, h, is_le);
    }
}

proof fn lemma_index_upto_facts(c: Seq<u8>, k: nat, ps: u32)
    requires
        k <= 0x100000000,
    ensures
        forall|p: u32|
            #[trigger] index_upto(c, k, ps).contains_key(p) ==> p > 0 && index_upto(c, k, ps)[p]
                < k && frame_header_at(c, index_upto(c, k, ps)[p] as int, ps).pgno == p,
    decreases k,
{
    if k > 0 {
        lemma_index_upto_facts(c, (k - 1) as nat, ps);
        let prev = index_upto(c, (k - 1) as nat, ps);
        let pg = frame_header_at(c, k - 1, ps).pgno;
        assert(((k - 1) as u32) as int == k - 1);
        assert forall|p: u32| #[trigger] index_upto(c, k, ps).contains_key(p) implies p > 0
            && index_upto(c, k, ps)[p] < k && frame_header_at(
            c,
            index_upto(c, k, ps)[p] as int,
            ps,
        ).pgno == p by {
            if pg > 0 && p == pg {
            } else {
                assert(prev.contains_key(p));
            }
        }
    }
}

/// The write-ahead log of a database: an append-only file of page frames and
/// an index from page numbers to the latest frame holding each.
pub struct Wal<F: VfsFile> {
    file: F,
    header: WalHeader,
    page_size: u32,
    frame_count: u32,
    page_index: HashMap<PageNo, u32>,
    is_le: bool,
}

impl<F: VfsFile> Wal<F> {
    /// The bytes of the log file.
    pub closed spec fn contents(&self) -> Seq<u8> {
        self.file.contents()
    }

    pub closed spec fn spec_header(&self) -> WalHeader {
        self.header
    }

    /// Whether every operation on the log file succeeds (a log in memory).
    pub closed spec fn file_never_fails(&self) -> bool {
        self.file.never_fails()
    }

    pub closed spec fn spec_page_size(&self) -> u32 {
        self.page_size
    }

    pub closed spec fn spec_frame_count(&self) -> nat {
        self.frame_count as nat
    }

    pub closed spec fn spec_is_le(&self) -> bool {
        self.is_le
    }

    /// The pages the log holds: each indexed page number with the page of its frame.
    pub closed spec fn pages(&self) -> Map<u32, Seq<u8>> {
        Map::new(
            |p: u32| self.page_index@.contains_key(p),
            |p: u32| frame_page_at(self.file.contents(), self.page_index@[p] as int, self.page_size),
        )
    }

    /// The log is well formed: the file starts with the header, the counted frames
    /// are valid, and the index is the one recovery would build (page 0 aside).
    pub closed spec fn wf(&self) -> bool {
        let c = self.file.contents();
        let ps = self.page_size;
        let fc = self.frame_count as nat;
        &&& vstd::std_specs::hash::obeys_key_model::<u32>()
        &&& self.page_size == self.header.page_size
        &&& self.is_le == (self.header.magic == WAL_MAGIC_LE)
        &&& encodes_wal_header(self.header, c)
        &&& frame_off(fc as int, ps) <= u64::MAX
        &&& frame_off(fc as int, ps) <= c.len()
        &&& forall|i: int| 0 <= i < fc ==> frame_ok(c, i, ps, self.header, self.is_le)
        &&& self.page_index@.remove(0) == index_upto(c, fc, ps)
        &&& self.page_index@.contains_key(0) ==> self.page_index@[0] < fc && frame_header_at(
            c,
            self.page_index@[0] as int,
            ps,
        ).pgno == 0
    }

    pub fn frame_count(&self) -> (n: u32)
        ensures
            n == self.spec_frame_count(),
    {
        self.frame_count
    }

    fn frame_offset(&self, frame_idx: u32) -> (off: u64)
        requires
            frame_off(frame_idx as int, self.page_size) <= u64::MAX,
        ensures
            off == frame_off(frame_idx as int, self.page_size),
    {
        proof {
            assert(0 <= frame_idx as int * frame_size(self.page_size)) by (nonlinear_arith)
                requires frame_idx >= 0, frame_size(self.page_size) >= 0;
        }
        WAL_HEADER_SIZE as u64 + (frame_idx as u64) * (WAL_FRAME_HEADER_SIZE as u64
            + self.page_size as u64)
    }
}

impl<F: VfsFile> Wal<F> {
    /// Creates (or overwrites) the log at `path` with a fresh header and no frames.
    pub fn create<V: Vfs<File = F>>(vfs: &V, path: &Path, page_size: u32) -> (r: Result<
        Self,
        SqlliteError,
    >)
        ensures
            r matches Ok(w) ==> {
                &&& w.wf()
                &&& w.spec_frame_count() == 0
                &&& w.pages() == Map::<u32, Seq<u8>>::empty()
                &&& w.spec_page_size() == page_size
                &&& !w.spec_is_le()
                &&& fresh_wal_header(w.spec_header(), page_size)
            },
    {
        broadcast use vstd::std_specs::hash::group_hash_axioms;

        let mut file = vfs.open(path, OpenFlags { read_only: false, create: true, memory: false })?;
        let header = WalHeader::new(page_size, 0x12345678, 0x9abcdef0);
        let enc = header.encode();
        write_exact_at(&mut file, 0, &enc)?;
        file.sync()?;
        let page_index: HashMap<PageNo, u32> = HashMap::new();
        let w = Self { file, header, page_size, frame_count: 0, page_index, is_le: false };
        proof {
            let c = w.file.contents();
            assert(forall|j: int| 0 <= j < 32 ==> c[j] == enc@[j]);
            lemma_encodes_header_prefix(header, enc@, c);
            assert(frame_off(0, page_size) == 32);
            assert(w.page_index@.remove(0) =~= index_upto(c, 0, page_size));
            assert(w.pages() =~= Map::<u32, Seq<u8>>::empty());
        }
        Ok(w)
    }

    /// Appends a frame holding `page_data` as page `pgno`.
    ///
    /// Fails with `Corrupt` "WAL page size mismatch" when the page is not of the
    /// log's page size; on any failure the log's pages are those it held before.
    pub fn append_frame(&mut self, pgno: PageNo, page_data: &[u8], db_size: u32) -> (r: Result<
        (),
        SqlliteError,
    >)
        requires
            old(self).wf(),
            page_data@.len() == old(self).spec_page_size() ==> old(self).spec_frame_count()
                < u32::MAX && frame_off(old(self).spec_frame_count() + 1int, old(self).spec_page_size())
                <= usize::MAX,
        ensures
            final(self).wf(),
            final(self).file_never_fails() == old(self).file_never_fails(),
            old(self).file_never_fails() && page_data@.len() == old(self).spec_page_size() ==> r is Ok,
            final(self).spec_header() == old(self).spec_header(),
            final(self).spec_page_size() == old(self).spec_page_size(),
            final(self).spec_is_le() == old(self).spec_is_le(),
            page_data@.len() != old(self).spec_page_size() ==> (r matches Err(e) && is_sql_error(
                e,
                ResultCode::Corrupt,
                "WAL page size mismatch"@,
            )),
            r is Ok ==> {
                let fc = old(self).spec_frame_count() as int;
                let ps = old(self).spec_page_size();
                let fh = frame_header_at(final(self).contents(), fc, ps);
                &&& final(self).pages() == old(self).pages().insert(pgno, page_data@)
                &&& final(self).spec_frame_count() == old(self).spec_frame_count() + 1
                &&& final(self).contents().len() >= frame_off(fc + 1, ps)
                &&& final(self).contents().subrange(0, frame_off(fc, ps)) == old(
                    self,
                ).contents().subrange(0, frame_off(fc, ps))
                &&& fh.pgno == pgno && fh.db_size == db_size
                &&& fh.salt1 == old(self).spec_header().salt1 && fh.salt2 == old(
                    self,
                ).spec_header().salt2
                &&& (fh.checksum1, fh.checksum2) == frame_checksum(fh, page_data@, old(self).spec_is_le())
                &&& frame_page_at(final(self).contents(), fc, ps) == page_data@
                &&& old(self).contents().len() == frame_off(
                    old(self).spec_frame_count() as int,
                    old(self).spec_page_size(),
                ) ==> final(self).contents().len() == frame_off(
                    final(self).spec_frame_count() as int,
                    final(self).spec_page_size(),
                )
            },
            r is Err ==> final(self).pages() == old(self).pages() && final(self).spec_frame_count()
                == old(self).spec_frame_count(),
    {
        broadcast use vstd::std_specs::hash::group_hash_axioms;

        if page_data.len() != self.page_size as usize {
            return Err(SqlliteError::sql(ResultCode::Corrupt, "WAL page size mismatch"));
        }
        let ghost c0 = self.file.contents();
        let ghost ps = self.page_size;
        let ghost fc = self.frame_count as nat;
        let ghost pages0 = self.pages();
        let ghost w0 = *self;
        let mut frame_hdr = WalFrameHeader {
            pgno,
            db_size,
            salt1: self.header.salt1,
            salt2: self.header.salt2,
            checksum1: 0,
            checksum2: 0,
        };
        let (c1, c2) = frame_hdr.compute_checksum(page_data, self.is_le);
        frame_hdr.checksum1 = c1;
        frame_hdr.checksum2 = c2;
        proof {
            lemma_frame_off_mono(fc as int, fc + 1int, ps);
        }
        let offset = self.frame_offset(self.frame_count);
        let enc = frame_hdr.encode();
        let res1 = write_exact_at(&mut self.file, offset, &enc);
        if res1.is_err() {
            proof {
                Self::lemma_wf_prefix(&w0, self);
            }
            return res1;
        }
        let ghost cmid = self.file.contents();
        let res2 = write_exact_at(&mut self.file, offset + WAL_FRAME_HEADER_SIZE as u64, page_data);
        if res2.is_err() {
            proof {
                let c = self.file.contents();
                assert forall|j: int| 0 <= j < frame_off(fc as int, ps) implies c[j] == c0[j] by {
                    assert(cmid[j] == c0[j]);
                }
                Self::lemma_wf_prefix(&w0, self);
            }
            return res2;
        }
        proof {
            let c = self.file.contents();
            let o = frame_off(fc as int, ps);
            assert forall|j: int| 0 <= j < o implies c[j] == c0[j] by {
                assert(cmid[j] == c0[j]);
            }
            assert(c.subrange(o, o + 24) =~= enc@.subrange(0, 24)) by {
                assert forall|j: int| o <= j < o + 24 implies c[j] == enc@[j - o] by {
                    assert(cmid[j] == enc@[j - o]);
                }
            }
            assert(c.subrange(o + 24, o + 24 + ps) =~= page_data@);
            assert(c.subrange(0, o) =~= c0.subrange(0, o));
            assert(decoded_frame_header(c.subrange(o, o + 24)) == frame_hdr);
        }
        let ghost w1 = *self;
        self.page_index.insert(pgno, self.frame_count);
        self.frame_count = self.frame_count + 1;
        proof {
            Self::lemma_append_step(&w0, self, enc@.subrange(0, 24), frame_hdr, page_data@);
        }
        Ok(())
    }

    #[verifier::spinoff_prover]
    proof fn lemma_append_step(a: &Self, b: &Self, enc: Seq<u8>, fh: WalFrameHeader, page: Seq<u8>)
        requires
            a.wf(),
            b.header == a.header,
            b.page_size == a.page_size,
            b.is_le == a.is_le,
            b.frame_count == a.frame_count + 1,
            b.page_index@ == a.page_index@.insert(fh.pgno, a.frame_count),
            page.len() == a.page_size,
            fh.salt1 == a.header.salt1,
            fh.salt2 == a.header.salt2,
            (fh.checksum1, fh.checksum2) == frame_checksum(fh, page, a.is_le),
            encodes_frame_header(fh, enc),
            enc.len() == 24,
            frame_off(a.frame_count + 1int, a.page_size) <= u64::MAX,
            ({
                let c = b.file.contents();
                let o = frame_off(a.frame_count as int, a.page_size);
                &&& c.len() >= o + 24 + a.page_size
                &&& forall|j: int| 0 <= j < o ==> c[j] == a.file.contents()[j]
                &&& c.subrange(o, o + 24) == enc
                &&& c.subrange(o + 24, o + 24 + a.page_size) == page
            }),
        ensures
            b.wf(),
            b.pages() == a.pages().insert(fh.pgno, page),
    {
        let c0 = a.file.contents();
        let c = b.file.contents();
        let ps = a.page_size;
        let fc = a.frame_count as nat;
        lemma_frame_off_mono(fc as int, fc + 1int, ps);
        lemma_encodes_header_prefix(a.header, c0, c);
        lemma_append_frames(c0, c, fc, ps, a.header, a.is_le, enc, fh, page);
        lemma_append_index(a.page_index@, c0, c, fc, ps, fh.pgno);
        let bfc = b.frame_count as nat;
        assert(bfc == fc + 1);
        lemma_frame_off_succ(fc as int, ps);
        assert(encodes_wal_header(b.header, c));
        assert(frame_off(bfc as int, ps) <= u64::MAX);
        assert(frame_off(bfc as int, ps) <= c.len());
        assert(forall|i: int| 0 <= i < bfc ==> frame_ok(c, i, ps, b.header, b.is_le));
        assert(b.page_index@.remove(0) == index_upto(c, bfc, ps));
        if b.page_index@.contains_key(0) {
            if fh.pgno == 0 {
            } else {
                assert(a.page_index@.contains_key(0));
                let i0 = a.page_index@[0] as int;
                assert(frame_header_at(c, i0, ps) == frame_header_at(c0, i0, ps));
            }
        }
        let pages0 = a.pages();
        lemma_index_upto_facts(c0, fc, ps);
        assert forall|p: u32| #[trigger] b.pages().contains_key(p) implies pages0.insert(
            fh.pgno,
            page,
        ).contains_key(p) && b.pages()[p] == pages0.insert(fh.pgno, page)[p] by {
            if p != fh.pgno {
                let idx = a.page_index@[p];
                if p != 0 {
                    assert(a.page_index@.remove(0).contains_key(p));
                }
                assert(idx < fc);
                assert(frame_page_at(c, idx as int, ps) == frame_page_at(c0, idx as int, ps));
            }
        }
        assert(b.pages() =~= pages0.insert(fh.pgno, page));
    }

    /// Reads the page of frame `frame_idx` and checks its checksum.
    fn read_frame_page(&mut self, frame_idx: u32) -> (r: Result<Vec<u8>, SqlliteError>)
        requires
            old(self).wf(),
            frame_idx < old(self).spec_frame_count(),
        ensures
            final(self).file.contents() == old(self).file.contents(),
            final(self).header == old(self).header,
            final(self).page_size == old(self).page_size,
            final(self).frame_count == old(self).frame_count,
            final(self).page_index@ == old(self).page_index@,
            final(self).is_le == old(self).is_le,
            final(self).file.never_fails() == old(self).file.never_fails(),
            old(self).file.never_fails() ==> r is Ok,
            r matches Ok(d) ==> d@ == frame_page_at(
                old(self).file.contents(),
                frame_idx as int,
                old(self).page_size,
            ),
    {
        let ghost c = self.file.contents();
        let ghost ps = self.page_size;
        let ghost fc = self.frame_count as nat;
        proof {
            lemma_frame_off_mono(frame_idx as int, fc as int, ps);
            assert(frame_ok(c, frame_idx as int, ps, self.header, self.is_le));
            reveal(frame_ok);
        }
        let offset = self.frame_offset(frame_idx);
        let mut hdr_buf = [0u8; WAL_FRAME_HEADER_SIZE];
        match read_exact_at(&mut self.file, offset, &mut hdr_buf) {
            Ok(()) => {},
            Err(e) => return Err(e),
        }
        let frame_hdr = match WalFrameHeader::decode(&hdr_buf) {
            Ok(h) => h,
            Err(e) => return Err(e),
        };
        let mut page_buf: Vec<u8> = vec![0u8; self.page_size as usize];
        match read_exact_at(&mut self.file, offset + WAL_FRAME_HEADER_SIZE as u64, page_buf.as_mut_slice()) {
            Ok(()) => {},
            Err(e) => return Err(e),
        }
        proof {
            assert(hdr_buf@ == c.subrange(offset as int, offset + 24));
            assert(frame_hdr == frame_header_at(c, frame_idx as int, ps));
            assert(page_buf@ == frame_page_at(c, frame_idx as int, ps));
        }
        if !frame_hdr.verify_checksum(page_buf.as_slice(), self.is_le) {
            return Err(SqlliteError::sql(ResultCode::Corrupt, "WAL frame checksum mismatch"));
        }
        Ok(page_buf)
    }

    /// Reads the latest copy of page `pgno` from the log, `None` when the log holds none.
    pub fn read_page(&mut self, pgno: PageNo) -> (r: Result<Option<Vec<u8>>, SqlliteError>)
        requires
            old(self).wf(),
        ensures
            final(self).wf(),
            final(self).contents() == old(self).contents(),
            final(self).pages() == old(self).pages(),
            final(self).spec_header() == old(self).spec_header(),
            final(self).spec_page_size() == old(self).spec_page_size(),
            final(self).spec_frame_count() == old(self).spec_frame_count(),
            final(self).spec_is_le() == old(self).spec_is_le(),
            !old(self).pages().contains_key(pgno) ==> r matches Ok(None),
            r matches Ok(None) ==> !old(self).pages().contains_key(pgno),
            old(self).pages().contains_key(pgno) && old(self).file_never_fails() ==> r matches Ok(
                Some(_),
            ),
            r matches Ok(Some(d)) ==> old(self).pages().contains_key(pgno) && d@ == old(
                self,
            ).pages()[pgno],
            r is Err ==> old(self).pages().contains_key(pgno),
    {
        broadcast use vstd::std_specs::hash::group_hash_axioms;

        let ghost c = self.file.contents();
        let ghost ps = self.page_size;
        let ghost fc = self.frame_count as nat;
        let frame_idx = match self.page_index.get(&pgno) {
            Some(idx) => *idx,
            None => {
                return Ok(None);
            },
        };
        proof {
            lemma_index_upto_facts(c, fc, ps);
            if pgno != 0 {
                assert(self.page_index@.remove(0).contains_key(pgno));
            }
            assert(frame_idx < fc);
        }
        let ghost s0 = *self;
        let r = self.read_frame_page(frame_idx);
        proof {
            Self::lemma_wf_prefix(&s0, self);
        }
        match r {
            Ok(d) => Ok(Some(d)),
            Err(e) => Err(e),
        }
    }

    pub fn sync(&mut self) -> (r: Result<(), SqlliteError>)
        requires
            old(self).wf(),
        ensures
            final(self).wf(),
            final(self).contents() == old(self).contents(),
            final(self).pages() == old(self).pages(),
            final(self).spec_header() == old(self).spec_header(),
            final(self).spec_page_size() == old(self).spec_page_size(),
            final(self).spec_frame_count() == old(self).spec_frame_count(),
            final(self).spec_is_le() == old(self).spec_is_le(),
            final(self).file_never_fails() == old(self).file_never_fails(),
            old(self).file_never_fails() ==> r is Ok,
    {
        self.file.sync()
    }

    /// Opens the log at `path`, creating it when it is missing or empty, and
    /// recovers its frames.
    ///
    /// Fails with `Corrupt` "WAL page size does not match database" when the
    /// header's page size is not `page_size`.
    pub fn open<V: Vfs<File = F>>(vfs: &V, path: &Path, page_size: u32) -> (r: Result<
        Self,
        SqlliteError,
    >)
        ensures
            r matches Ok(w) ==> {
                &&& w.wf()
                &&& w.spec_page_size() == page_size
                &&& ({
                    ||| (w.spec_frame_count() == 0 && w.pages() == Map::<u32, Seq<u8>>::empty()
                        && !w.spec_is_le() && fresh_wal_header(w.spec_header(), page_size))
                    ||| (w.spec_frame_count() == recovered_count(
                        w.contents(),
                        page_size,
                        w.spec_header(),
                        w.spec_is_le(),
                    ) && w.pages() == pages_of(w.contents(), w.spec_frame_count(), page_size))
                })
            },
    {
        broadcast use vstd::std_specs::hash::group_hash_axioms;

        if !vfs.path_exists(path) {
            return Self::create(vfs, path, page_size);
        }
        let mut file = vfs.open(path, OpenFlags { read_only: false, create: false, memory: false })?;
        let size = file.size()?;
        if size == 0 {
            return Self::create(vfs, path, page_size);
        }
        let mut hdr_buf = [0u8; WAL_HEADER_SIZE];
        read_exact_at(&mut file, 0, &mut hdr_buf)?;
        let header = WalHeader::decode(&hdr_buf)?;
        if header.page_size != page_size {
            return Err(SqlliteError::sql(ResultCode::Corrupt, "WAL page size does not match database"));
        }
        let is_le = header.magic == WAL_MAGIC_LE;
        let page_index: HashMap<PageNo, u32> = HashMap::new();
        let mut wal = Self { file, header, page_size, frame_count: 0, page_index, is_le };
        proof {
            let c = wal.file.contents();
            assert(c.len() >= 32);
            assert(encodes_wal_header(header, hdr_buf@));
            lemma_encodes_header_prefix(header, hdr_buf@, c);
            assert(wal.page_index@.remove(0) =~= index_upto(c, 0, page_size));
        }
        wal.rebuild_index()?;
        Ok(wal)
    }

    #[verifier::spinoff_prover]
    #[verifier::rlimit(40)]
    fn rebuild_index(&mut self) -> (r: Result<(), SqlliteError>)
        requires
            old(self).wf(),
            old(self).spec_frame_count() == 0,
            old(self).page_index@ == Map::<u32, u32>::empty(),
        ensures
            final(self).spec_page_size() == old(self).spec_page_size(),
            old(self).file_never_fails() ==> r is Ok,
            r is Ok ==> {
                &&& final(self).wf()
                &&& final(self).spec_frame_count() == recovered_count(
                    final(self).contents(),
                    final(self).spec_page_size(),
                    final(self).spec_header(),
                    final(self).spec_is_le(),
                )
                &&& final(self).pages() == pages_of(
                    final(self).contents(),
                    final(self).spec_frame_count(),
                    final(self).spec_page_size(),
                )
            },
    {
        broadcast use vstd::std_specs::hash::group_hash_axioms;

        self.page_index.clear();
        let size = self.file.size()?;
        let ghost c = self.file.contents();
        let ghost ps = self.page_size;
        if size <= WAL_HEADER_SIZE as u64 {
            self.frame_count = 0;
            proof {
                assert(frames_in_file(c, ps) == 0);
                assert(self.pages() =~= pages_of(c, 0, ps));
            }
            return Ok(());
        }
        let fsize = WAL_FRAME_HEADER_SIZE as u64 + self.page_size as u64;
        let total = (size - WAL_HEADER_SIZE as u64) / fsize;
        let n_frames = total as u32;
        proof {
            assert(n_frames == total % 0x100000000) by (bit_vector)
                requires
                    n_frames == total as u32,
            ;
            assert(n_frames == frames_in_file(c, ps));
            assert(n_frames as int * frame_size(ps) <= total * frame_size(ps)) by (nonlinear_arith)
                requires
                    n_frames <= total,
                    frame_size(ps) >= 0,
            ;
            assert(total * frame_size(ps) <= size - 32) by (nonlinear_arith)
                requires
                    total == (size - 32) / frame_size(ps),
                    frame_size(ps) > 0,
            ;
        }
        let mut hdr_buf = [0u8; WAL_FRAME_HEADER_SIZE];
        let mut page_buf: Vec<u8> = vec![0u8; self.page_size as usize];
        let mut i: u32 = 0;
        while i < n_frames
            invariant
                self.file.contents() == c,
                self.file.never_fails() == old(self).file.never_fails(),
                c.len() == size,
                self.page_size == ps,
                ps == old(self).page_size,
                ps == self.header.page_size,
                self.is_le == (self.header.magic == WAL_MAGIC_LE),
                encodes_wal_header(self.header, c),
                vstd::std_specs::hash::obeys_key_model::<u32>(),
                n_frames == frames_in_file(c, ps),
                frame_off(n_frames as int, ps) <= size,
                i <= n_frames,
                self.frame_count == i,
                page_buf@.len() == ps,
                forall|j: int| 0 <= j < i ==> frame_ok(c, j, ps, self.header, self.is_le),
                self.page_index@ == index_upto(c, i as nat, ps),
                first_bad_frame(c, 0, n_frames as nat, ps, self.header, self.is_le)
                    == first_bad_frame(c, i as nat, n_frames as nat, ps, self.header, self.is_le),
            ensures
                i < n_frames ==> !frame_ok(c, i as int, ps, self.header, self.is_le),
            decreases n_frames - i,
        {
            proof {
                lemma_frame_off_mono(i as int, n_frames as int, ps);
                lemma_frame_off_succ(i as int, ps);
            }
            let offset = self.frame_offset(i);
            read_exact_at(&mut self.file, offset, &mut hdr_buf)?;
            let frame_hdr = WalFrameHeader::decode(&hdr_buf)?;
            if frame_hdr.salt1 != self.header.salt1 || frame_hdr.salt2 != self.header.salt2 {
                proof {
                    reveal(frame_ok);
                    assert(frame_header_at(c, i as int, ps) == frame_hdr);
                }
                break;
            }
            read_exact_at(&mut self.file, offset + WAL_FRAME_HEADER_SIZE as u64, page_buf.as_mut_slice())?;
            proof {
                reveal(frame_ok);
                assert(frame_header_at(c, i as int, ps) == frame_hdr);
                assert(frame_page_at(c, i as int, ps) == page_buf@);
            }
            if !frame_hdr.verify_checksum(page_buf.as_slice(), self.is_le) {
                break;
            }
            proof {
                assert(frame_ok(c, i as int, ps, self.header, self.is_le));
            }
            if frame_hdr.pgno > 0 {
                self.page_index.insert(frame_hdr.pgno, i);
            }
            proof {
                assert(self.page_index@ =~= index_upto(c, (i + 1) as nat, ps));
            }
            self.frame_count = i + 1;
            i = i + 1;
        }
        proof {
            let fc = self.frame_count as nat;
            lemma_first_bad_all_ok(c, fc, n_frames as nat, ps, self.header, self.is_le);
            lemma_frame_off_mono_le(fc as int, n_frames as int, ps);
            lemma_index_upto_facts(c, fc, ps);
            assert(!self.page_index@.contains_key(0));
            assert(self.page_index@.remove(0) =~= self.page_index@);
            assert(self.pages() =~= pages_of(c, fc, ps));
        }
        Ok(())
    }

    /// Recovery gives back what the log held: when the file holds exactly the
    /// counted frames, reopening it recovers every one of them and the same pages
    /// (page 0, which recovery never indexes, aside).
    pub proof fn lemma_recovery(&self)
        requires
            self.wf(),
            self.contents().len() == frame_off(self.spec_frame_count() as int, self.spec_page_size()),
            !self.pages().contains_key(0),
        ensures
            recovered_count(self.contents(), self.spec_page_size(), self.spec_header(), self.spec_is_le())
                == self.spec_frame_count(),
            pages_of(self.contents(), self.spec_frame_count(), self.spec_page_size()) == self.pages(),
    {
        let c = self.file.contents();
        let ps = self.page_size;
        let fc = self.frame_count as nat;
        let fs = frame_size(ps);
        assert((fc * fs) / fs == fc) by (nonlinear_arith)
            requires
                fs > 0,
        ;
        if fc > 0 {
            assert(c.len() - 32 == fc * fs);
            assert(frames_in_file(c, ps) == fc);
        } else {
            assert(frames_in_file(c, ps) == 0);
        }
        lemma_first_bad_of_valid(c, 0, fc, ps, self.header, self.is_le);
        assert(self.page_index@.remove(0) =~= self.page_index@);
        assert(pages_of(c, fc, ps) =~= self.pages());
    }

    fn collect_index(&self) -> (frames: Vec<(PageNo, u32)>)
        requires
            self.wf(),
        ensures
            frames@.len() == self.page_index@.dom().len(),
            forall|j: int|
                0 <= j < frames@.len() ==> self.page_index@.contains_key(#[trigger] frames@[j].0)
                    && self.page_index@[frames@[j].0] == frames@[j].1,
            forall|p: u32|
                self.page_index@.contains_key(p) ==> exists|j: int|
                    0 <= j < frames@.len() && #[trigger] frames@[j].0 == p,
            forall|a: int, b: int|
                0 <= a < b < frames@.len() ==> frames@[a].0 != frames@[b].0,
    {
        broadcast use vstd::std_specs::hash::group_hash_axioms;

        let mut frames: Vec<(PageNo, u32)> = Vec::new();
        let it = self.page_index.iter();
        let ghost entries = it.remaining();
        for e in iter: it
            invariant
                entries == iter.seq(),
                frames@.len() == iter.index(),
                forall|j: int| 0 <= j < iter.index() ==> #[trigger] frames@[j] == (*entries[j].0, *entries[j].1),
        {
            frames.push((*e.0, *e.1));
        }
        proof {
            assert(frames@.len() == entries.len());
            assert forall|p: u32| self.page_index@.contains_key(p) implies exists|j: int|
                0 <= j < frames@.len() && #[trigger] frames@[j].0 == p by {
                assert(entries.contains((&p, &self.page_index@[p])));
                let j = choose|j: int| 0 <= j < entries.len() && entries[j] == (&p, &self.page_index@[p]);
                assert(frames@[j].0 == p);
            }
            assert forall|a: int, b: int| 0 <= a < b < frames@.len() implies frames@[a].0 != frames@[b].0 by {
                assert(entries.no_duplicates());
                if frames@[a].0 == frames@[b].0 {
                    assert(self.page_index@.contains_key(*entries[a].0));
                    assert(entries[a] == entries[b]);
                }
            }
        }
        frames
    }

    /// Copies every page the log holds into the database file, page `p` at byte
    /// `(p - 1) * page_size`, then resets the log to a fresh header (checkpoint
    /// sequence and both salts advanced by one) and no frames.
    pub fn checkpoint<D: VfsFile>(&mut self, db_file: &mut D) -> (r: Result<(), SqlliteError>)
        requires
            old(self).wf(),
            !old(self).pages().contains_key(0),
            forall|p: u32|
                #[trigger] old(self).pages().contains_key(p) ==> p * old(self).spec_page_size()
                    <= usize::MAX,
        ensures
            old(self).file_never_fails() && old(db_file).never_fails() ==> r is Ok,
            r is Ok ==> {
                let ps = old(self).spec_page_size() as int;
                let pages = old(self).pages();
                let db0 = old(db_file).contents();
                let db = final(db_file).contents();
                let h0 = old(self).spec_header();
                let h = final(self).spec_header();
                &&& final(self).wf()
                &&& final(self).spec_frame_count() == 0
                &&& final(self).pages() == Map::<u32, Seq<u8>>::empty()
                &&& final(self).spec_page_size() == old(self).spec_page_size()
                &&& final(self).spec_is_le() == old(self).spec_is_le()
                &&& h.magic == h0.magic && h.version == h0.version && h.page_size == h0.page_size
                &&& h.checkpoint_seq == h0.checkpoint_seq.wrapping_add(1)
                &&& h.salt1 == h0.salt1.wrapping_add(1)
                &&& h.salt2 == h0.salt2.wrapping_add(1)
                &&& (h.checksum1, h.checksum2) == header_checksum(h)
                &&& forall|p: u32|
                    #[trigger] pages.contains_key(p) ==> db.len() >= p * ps && db.subrange(
                        (p - 1) * ps,
                        p * ps,
                    ) == pages[p]
                &&& forall|i: int|
                    0 <= i < db.len() && !in_some_slot(pages, i, ps) ==> #[trigger] db[i] == if i
                        < db0.len() {
                        db0[i]
                    } else {
                        0u8
                    }
                &&& db.len() >= db0.len()
            },
    {
        broadcast use vstd::std_specs::hash::group_hash_axioms;

        let ghost c = self.file.contents();
        let ghost ps = self.page_size;
        let ghost fc = self.frame_count as nat;
        let ghost pages = self.pages();
        let ghost db0 = db_file.contents();
        let frames = self.collect_index();
        let n = frames.len();
        let mut k: usize = 0;
        proof {
            lemma_index_upto_facts(c, fc, ps);
        }
        while k < n
            invariant
                self.file.contents() == c,
                self.file.never_fails() == old(self).file.never_fails(),
                db_file.never_fails() == old(db_file).never_fails(),
                self.wf(),
                self.pages() == pages,
                self.page_size == ps,
                self.frame_count == fc,
                !pages.contains_key(0),
                forall|p: u32| #[trigger] pages.contains_key(p) ==> p * ps <= usize::MAX,
                n == frames@.len(),
                k <= n,
                forall|j: int|
                    0 <= j < frames@.len() ==> self.page_index@.contains_key(#[trigger] frames@[j].0)
                        && self.page_index@[frames@[j].0] == frames@[j].1,
                forall|a: int, b: int|
                    0 <= a < b < frames@.len() ==> frames@[a].0 != frames@[b].0,
                forall|j: int|
                    0 <= j < k ==> {
                        let p = #[trigger] frames@[j].0;
                        &&& db_file.contents().len() >= p * ps
                        &&& db_file.contents().subrange((p - 1) * ps, p * ps) == pages[p]
                    },
                forall|i: int|
                    0 <= i < db_file.contents().len() && !in_slots(frames@, k as int, i, ps as int)
                        ==> #[trigger] db_file.contents()[i] == if i < db0.len() {
                        db0[i]
                    } else {
                        0u8
                    },
                db_file.contents().len() >= db0.len(),
            decreases n - k,
        {
            let (pgno, frame_idx) = frames[k];
            proof {
                lemma_index_upto_facts(c, fc, ps);
                assert(self.page_index@.contains_key(pgno));
                assert(pgno != 0);
                assert(self.page_index@.remove(0)[pgno] == self.page_index@[pgno]);
                assert(self.page_index@.remove(0).contains_key(pgno));
                assert(frame_idx < fc);
                lemma_frame_off_mono(frame_idx as int, fc as int, ps);
                lemma_frame_off_succ(frame_idx as int, ps);
            }
            let offset = self.frame_offset(frame_idx);
            let mut page_buf: Vec<u8> = vec![0u8; self.page_size as usize];
            read_exact_at(&mut self.file, offset + WAL_FRAME_HEADER_SIZE as u64, page_buf.as_mut_slice())?;
            proof {
                assert(page_buf@ == pages[pgno]);
                assert((pgno as int - 1) * ps + ps == pgno * ps) by (nonlinear_arith);
                assert(0 <= (pgno as int - 1) * ps) by (nonlinear_arith)
                    requires pgno >= 1;
                assert(pages.contains_key(pgno));
                assert(pgno * ps <= usize::MAX);
            }
            let db_offset = (pgno as u64 - 1) * self.page_size as u64;
            let ghost dbk = db_file.contents();
            write_exact_at(db_file, db_offset, page_buf.as_slice())?;
            proof {
                let db = db_file.contents();
                let lo = (pgno as int - 1) * ps;
                let hi = pgno as int * ps;
                if ps == 0 {
                    assert(db == dbk);
                    assert(lo == 0 && hi == 0) by (nonlinear_arith)
                        requires lo == (pgno as int - 1) * ps, hi == pgno as int * ps, ps == 0;
                    assert(pages[pgno].len() == 0);
                    assert(db.subrange(lo, hi) =~= pages[pgno]);
                } else {
                    assert(db == overwrite(dbk, lo, page_buf@));
                    lemma_overwrite_inside(dbk, lo, page_buf@);
                }
                assert(db.subrange(lo, hi) =~= pages[pgno]);
                assert(db.len() >= dbk.len());
                assert forall|j: int| 0 <= j < k + 1 implies {
                    let p = #[trigger] frames@[j].0;
                    &&& db.len() >= p * ps
                    &&& db.subrange((p - 1) * ps, p * ps) == pages[p]
                } by {
                    if j < k {
                        let p = frames@[j].0;
                        assert(p != pgno);
                        lemma_slots_disjoint(p as int, pgno as int, ps as int);
                        assert(0 <= (p - 1) * ps <= p * ps) by (nonlinear_arith)
                            requires p >= 1, ps >= 0;
                        if ps != 0 {
                            lemma_overwrite_outside(dbk, lo, page_buf@, (p - 1) * ps, p * ps);
                        }
                        assert(db.subrange((p - 1) * ps, p * ps) =~= dbk.subrange((p - 1) * ps, p * ps));
                    }
                }
                assert forall|i: int|
                    0 <= i < db.len() && !in_slots(frames@, k + 1, i, ps as int) implies #[trigger] db[i]
                        == if i < db0.len() {
                        db0[i]
                    } else {
                        0u8
                    } by {
                    assert(!in_slots(frames@, k as int, i, ps as int));
                    if lo <= i < hi {
                        assert(frames@[k as int].0 == pgno);
                        assert(slot_has(frames@[k as int].0, i, ps as int));
                    }
                    assert(!(lo <= i < hi));
                }
            }
            k = k + 1;
        }
        self.header.checkpoint_seq = self.header.checkpoint_seq.wrapping_add(1);
        self.header.salt1 = self.header.salt1.wrapping_add(1);
        self.header.salt2 = self.header.salt2.wrapping_add(1);
        self.header.update_checksum();
        let enc = self.header.encode();
        write_exact_at(&mut self.file, 0, &enc)?;
        self.file.truncate(WAL_HEADER_SIZE as u64)?;
        self.frame_count = 0;
        self.page_index.clear();
        self.file.sync()?;
        proof {
            let c2 = self.file.contents();
            assert(c2.len() == 32);
            assert forall|j: int| 0 <= j < 32 implies c2[j] == enc@[j] by {}
            lemma_encodes_header_prefix(self.header, enc@, c2);
            assert(self.page_index@.remove(0) =~= index_upto(c2, 0, ps));
            assert(self.pages() =~= Map::<u32, Seq<u8>>::empty());
            let db = db_file.contents();
            assert forall|p: u32| #[trigger] pages.contains_key(p) implies db.len() >= p * ps
                && db.subrange((p - 1) * ps, p * ps) == pages[p] by {
                assert(self.page_index@.contains_key(p) || true);
                let j = choose|j: int| 0 <= j < frames@.len() && #[trigger] frames@[j].0 == p;
                assert(frames@[j].0 == p);
            }
            assert forall|i: int| 0 <= i < db.len() && !in_some_slot(pages, i, ps as int) implies #[trigger] db[i]
                == if i < db0.len() {
                db0[i]
            } else {
                0u8
            } by {
                if in_slots(frames@, n as int, i, ps as int) {
                    let j = choose|j: int| 0 <= j < n && #[trigger] slot_has(frames@[j].0, i, ps as int);
                    assert(pages.contains_key(frames@[j].0));
                    assert(in_some_slot(pages, i, ps as int));
                }
            }
        }
        db_file.sync()
    }

    /// A log whose file agrees with a well-formed log's file on every byte before
    /// the next frame is well formed too, and holds the same pages.
    proof fn lemma_wf_prefix(a: &Self, b: &Self)
        requires
            a.wf(),
            b.header == a.header,
            b.page_size == a.page_size,
            b.frame_count == a.frame_count,
            b.page_index@ == a.page_index@,
            b.is_le == a.is_le,
            b.file.contents().len() >= frame_off(a.frame_count as int, a.page_size),
            forall|j: int|
                0 <= j < frame_off(a.frame_count as int, a.page_size) ==> b.file.contents()[j]
                    == a.file.contents()[j],
        ensures
            b.wf(),
            b.pages() == a.pages(),
    {
        let c0 = a.file.contents();
        let c = b.file.contents();
        let ps = a.page_size;
        let fc = a.frame_count as nat;
        lemma_frames_prefix(c0, c, fc, ps, a.header, a.is_le);
        lemma_encodes_header_prefix(a.header, c0, c);
        lemma_index_upto_facts(c0, fc, ps);
        assert forall|i: int| 0 <= i < fc implies frame_ok(c, i, ps, b.header, b.is_le) by {
            assert(frame_ok(c0, i, ps, a.header, a.is_le));
        }
        if b.page_index@.contains_key(0) {
            let i0 = a.page_index@[0] as int;
            assert(frame_header_at(c0, i0, ps).pgno == 0);
        }
        assert forall|p: u32| #[trigger] b.pages().contains_key(p) implies b.pages()[p]
            == a.pages()[p] by {
            let idx = a.page_index@[p];
            if p != 0 {
                assert(a.page_index@.remove(0).contains_key(p));
            }
            assert(idx < fc);
        }
        assert(b.pages() =~= a.pages());
    }
}

proof fn lemma_append_frames(
    c0: Seq<u8>,
    c: Seq<u8>,
    fc: nat,
    ps: u32,
    h: WalHeader,
    is_le: bool,
    enc: Seq<u8>,
    fh: WalFrameHeader,
    page: Seq<u8>,
)
    requires
        forall|i: int| 0 <= i < fc ==> frame_ok(c0, i, ps, h, is_le),
        page.len() == ps,
        fh.salt1 == h.salt1,
        fh.salt2 == h.salt2,
        (fh.checksum1, fh.checksum2) == frame_checksum(fh, page, is_le),
        encodes_frame_header(fh, enc),
        enc.len() == 24,
        c.len() >= frame_off(fc as int, ps) + 24 + ps,
        c0.len() >= frame_off(fc as int, ps),
        forall|j: int| 0 <= j < frame_off(fc as int, ps) ==> c[j] == c0[j],
        c.subrange(frame_off(fc as int, ps), frame_off(fc as int, ps) + 24) == enc,
        c.subrange(frame_off(fc as int, ps) + 24, frame_off(fc as int, ps) + 24 + ps) == page,
    ensures
        forall|i: int| 0 <= i < fc + 1 ==> frame_ok(c, i, ps, h, is_le),
        frame_header_at(c, fc as int, ps) == fh,
        index_upto(c0, fc, ps) == index_upto(c, fc, ps),
        forall|i: int| 0 <= i < fc ==> #[trigger] frame_page_at(c, i, ps) == frame_page_at(c0, i, ps),
        forall|i: int| 0 <= i < fc ==> #[trigger] frame_header_at(c, i, ps) == frame_header_at(c0, i, ps),
{
    reveal(frame_ok);
    lemma_frame_header_roundtrip(fh, enc);
    lemma_frames_prefix(c0, c, fc, ps, h, is_le);
    assert(frame_header_at(c, fc as int, ps) == fh);
    assert(frame_page_at(c, fc as int, ps) == page);
    assert forall|i: int| 0 <= i < fc + 1 implies frame_ok(c, i, ps, h, is_le) by {
        if i < fc {
            assert(frame_ok(c0, i, ps, h, is_le));
        }
    }
}

proof fn lemma_append_index(
    idx0: Map<u32, u32>,
    c0: Seq<u8>,
    c: Seq<u8>,
    fc: nat,
    ps: u32,
    pgno: u32,
)
    requires
        idx0.remove(0) == index_upto(c0, fc, ps),
        index_upto(c0, fc, ps) == index_upto(c, fc, ps),
        frame_header_at(c, fc as int, ps).pgno == pgno,
        fc < u32::MAX,
    ensures
        idx0.insert(pgno, fc as u32).remove(0) == index_upto(c, fc + 1, ps),
{
    assert(index_upto(c, fc + 1, ps) == (if pgno > 0 {
        index_upto(c, fc, ps).insert(pgno, fc as u32)
    } else {
        index_upto(c, fc, ps)
    }));
    assert(idx0.insert(pgno, fc as u32).remove(0) =~= index_upto(c, fc + 1, ps));
}

proof fn lemma_encodes_header_prefix(h: WalHeader, c1: Seq<u8>, c2: Seq<u8>)
    requires
        encodes_wal_header(h, c1),
        c2.len() >= 32,
        forall|j: int| 0 <= j < 32 ==> c1[j] == c2[j],
    ensures
        encodes_wal_header(h, c2),
{
}

} // verus!
