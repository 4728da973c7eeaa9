//! Database file header (first 100 bytes of page 1).

use vstd::prelude::*;

use crate::constants::{
    header_magic, header_magic_byte, DATABASE_HEADER_SIZE, HEADER_OFFSET_APPLICATION_ID,
    HEADER_OFFSET_CHANGE_COUNTER, HEADER_OFFSET_DATABASE_SIZE, HEADER_OFFSET_DEFAULT_CACHE,
    HEADER_OFFSET_FREELIST_COUNT, HEADER_OFFSET_FREELIST_TRUNK, HEADER_OFFSET_INCR_VACUUM,
    HEADER_OFFSET_LARGEST_ROOT, HEADER_OFFSET_LEAF_PAYLOAD, HEADER_OFFSET_MAX_EMBED_PAYLOAD,
    HEADER_OFFSET_MIN_EMBED_PAYLOAD, HEADER_OFFSET_PAGE_SIZE, HEADER_OFFSET_READ_VERSION,
    HEADER_OFFSET_RESERVED, HEADER_OFFSET_SCHEMA_COOKIE, HEADER_OFFSET_SCHEMA_FORMAT,
    HEADER_OFFSET_SQLITE_VERSION, HEADER_OFFSET_TEXT_ENCODING, HEADER_OFFSET_USER_VERSION,
    HEADER_OFFSET_VERSION_VALID, HEADER_OFFSET_WRITE_VERSION, LEAF_PAYLOAD, MAX_EMBEDDED_PAYLOAD,
    MIN_EMBEDDED_PAYLOAD, SCHEMA_FORMAT, TEXT_ENCODING_UTF8,
};
use crate::error::{is_sql_error, ResultCode, SqlliteError};
use crate::io::{be_u16, be_u32, read_u32_be, write_u32_be};
use crate::types::PageNo;

verus! {

/// Parsed database file header.
#[derive(Debug, Clone, Copy)]
pub struct DatabaseHeader {
    pub page_size: u32,
    pub write_version: u8,
    pub read_version: u8,
    pub reserved_bytes: u8,
    pub max_embedded_payload: u8,
    pub min_embedded_payload: u8,
    pub leaf_payload: u8,
    pub change_counter: u32,
    pub database_size: u32,
    pub freelist_trunk: PageNo,
    pub freelist_count: u32,
    pub schema_cookie: u32,
    pub schema_format: u32,
    pub default_cache_size: u32,
    pub largest_root: PageNo,
    pub text_encoding: u32,
    pub user_version: u32,
    pub incr_vacuum: u32,
    pub application_id: u32,
    pub version_valid_for: u32,
    pub sqlite_version: u32,
}

/// A page size the file format accepts: a power of two from 512 to 65536.
pub open spec fn valid_page_size(p: int) -> bool {
    p == 512 || p == 1024 || p == 2048 || p == 4096 || p == 8192 || p == 16384 || p == 32768
        || p == 65536
}

/// The 16-bit number that stores a page size: 65536 is stored as 1.
pub open spec fn raw_page_size(p: u32) -> int {
    if p == 65536 {
        1
    } else {
        (p % 65536) as int
    }
}

/// The page size a stored 16-bit number stands for.
pub open spec fn page_size_of_raw(raw: int) -> int {
    if raw == 1 {
        65536
    } else {
        raw
    }
}

/// Whether the first 100 bytes of `p` are a well-formed header: the magic
/// string and a valid page size.
pub open spec fn header_ok(p: Seq<u8>) -> bool {
    &&& p.len() >= 100
    &&& p.subrange(0, 16) == header_magic()
    &&& valid_page_size(page_size_of_raw(be_u16(p, 16)))
}

/// The header that the bytes `p` hold.
pub open spec fn decoded_header(p: Seq<u8>) -> DatabaseHeader {
    DatabaseHeader {
        page_size: page_size_of_raw(be_u16(p, 16)) as u32,
        write_version: p[18],
        read_version: p[19],
        reserved_bytes: p[20],
        max_embedded_payload: p[21],
        min_embedded_payload: p[22],
        leaf_payload: p[23],
        change_counter: be_u32(p, 24) as u32,
        database_size: be_u32(p, 28) as u32,
        freelist_trunk: be_u32(p, 32) as u32,
        freelist_count: be_u32(p, 36) as u32,
        schema_cookie: be_u32(p, 40) as u32,
        schema_format: be_u32(p, 44) as u32,
        default_cache_size: be_u32(p, 48) as u32,
        largest_root: be_u32(p, 52) as u32,
        text_encoding: be_u32(p, 56) as u32,
        user_version: be_u32(p, 60) as u32,
        incr_vacuum: be_u32(p, 64) as u32,
        application_id: be_u32(p, 68) as u32,
        version_valid_for: be_u32(p, 92) as u32,
        sqlite_version: be_u32(p, 96) as u32,
    }
}

/// Whether the bytes `p` hold `h` in the header layout.
pub open spec fn encodes_header(h: DatabaseHeader, p: Seq<u8>) -> bool {
    &&& p.len() >= 100
    &&& p.subrange(0, 16) == header_magic()
    &&& be_u16(p, 16) == raw_page_size(h.page_size)
    &&& p[18] == h.write_version
    &&& p[19] == h.read_version
    &&& p[20] == h.reserved_bytes
    &&& p[21] == h.max_embedded_payload
    &&& p[22] == h.min_embedded_payload
    &&& p[23] == h.leaf_payload
    &&& be_u32(p, 24) == h.change_counter
    &&& be_u32(p, 28) == h.database_size
    &&& be_u32(p, 32) == h.freelist_trunk
    &&& be_u32(p, 36) == h.freelist_count
    &&& be_u32(p, 40) == h.schema_cookie
    &&& be_u32(p, 44) == h.schema_format
    &&& be_u32(p, 48) == h.default_cache_size
    &&& be_u32(p, 52) == h.largest_root
    &&& be_u32(p, 56) == h.text_encoding
    &&& be_u32(p, 60) == h.user_version
    &&& be_u32(p, 64) == h.incr_vacuum
    &&& be_u32(p, 68) == h.application_id
    &&& be_u32(p, 92) == h.version_valid_for
    &&& be_u32(p, 96) == h.sqlite_version
}

impl DatabaseHeader {
    pub fn new(page_size: u32) -> (h: Self)
        ensures
            h.page_size == page_size,
            h.write_version == 1,
            h.read_version == 1,
            h.reserved_bytes == 0,
            h.max_embedded_payload == MAX_EMBEDDED_PAYLOAD,
            h.min_embedded_payload == MIN_EMBEDDED_PAYLOAD,
            h.leaf_payload == LEAF_PAYLOAD,
            h.change_counter == 1,
            h.database_size == 0,
            h.freelist_trunk == 0,
            h.freelist_count == 0,
            h.schema_cookie == 0,
            h.schema_format == SCHEMA_FORMAT,
            h.default_cache_size == 0,
            h.largest_root == 0,
            h.text_encoding == TEXT_ENCODING_UTF8,
            h.user_version == 0,
            h.incr_vacuum == 0,
            h.application_id == 0,
            h.version_valid_for == 1,
            h.sqlite_version == 3044001,
    {
        Self {
            page_size,
            write_version: 1,
            read_version: 1,
            reserved_bytes: 0,
            max_embedded_payload: MAX_EMBEDDED_PAYLOAD,
            min_embedded_payload: MIN_EMBEDDED_PAYLOAD,
            leaf_payload: LEAF_PAYLOAD,
            change_counter: 1,
            database_size: 0,
            freelist_trunk: 0,
            freelist_count: 0,
            schema_cookie: 0,
            schema_format: SCHEMA_FORMAT,
            default_cache_size: 0,
            largest_root: 0,
            text_encoding: TEXT_ENCODING_UTF8,
            user_version: 0,
            incr_vacuum: 0,
            application_id: 0,
            version_valid_for: 1,
            sqlite_version: 3044001,  // 3.44.1
        }
    }

    /// Parse header from the first 100 bytes of page 1.
    pub fn parse(data: &[u8]) -> (r: Result<Self, SqlliteError>)
        ensures
            r matches Ok(h) ==> header_ok(data@) && h == decoded_header(data@),
            r matches Err(e) ==> !header_ok(data@) && (if data@.len() < 100 {
                is_sql_error(e, ResultCode::Corrupt, "database header too short"@)
            } else if data@.subrange(0, 16) != header_magic() {
                is_sql_error(e, ResultCode::NotADb, "file is not a database"@)
            } else {
                is_sql_error(e, ResultCode::Corrupt, "invalid page size"@)
            }),
    {
        if data.len() < DATABASE_HEADER_SIZE {
            return Err(SqlliteError::sql(ResultCode::Corrupt, "database header too short"));
        }
        let mut i: usize = 0;
        while i < 16
            invariant
                data@.len() >= 100,
                i <= 16,
                forall|j: int| 0 <= j < i ==> data@[j] == header_magic()[j],
            decreases 16 - i,
        {
            if data[i] != header_magic_byte(i) {
                assert(data@.subrange(0, 16)[i as int] != header_magic()[i as int]);
                return Err(SqlliteError::sql(ResultCode::NotADb, "file is not a database"));
            }
            i = i + 1;
        }
        assert(data@.subrange(0, 16) =~= header_magic());
        let raw_page_size = read_u16_be(data, HEADER_OFFSET_PAGE_SIZE) as u32;
        let page_size = if raw_page_size == 1 {
            65536
        } else {
            raw_page_size
        };
        if !(page_size == 512 || page_size == 1024 || page_size == 2048 || page_size == 4096
            || page_size == 8192 || page_size == 16384 || page_size == 32768 || page_size
            == 65536) {
            return Err(SqlliteError::sql(ResultCode::Corrupt, "invalid page size"));
        }
        Ok(Self {
            page_size,
            write_version: data[HEADER_OFFSET_WRITE_VERSION],
            read_version: data[HEADER_OFFSET_READ_VERSION],
            reserved_bytes: data[HEADER_OFFSET_RESERVED],
            max_embedded_payload: data[HEADER_OFFSET_MAX_EMBED_PAYLOAD],
            min_embedded_payload: data[HEADER_OFFSET_MIN_EMBED_PAYLOAD],
            leaf_payload: data[HEADER_OFFSET_LEAF_PAYLOAD],
            change_counter: read_u32_be(data, HEADER_OFFSET_CHANGE_COUNTER),
            database_size: read_u32_be(data, HEADER_OFFSET_DATABASE_SIZE),
            freelist_trunk: read_u32_be(data, HEADER_OFFSET_FREELIST_TRUNK),
            freelist_count: read_u32_be(data, HEADER_OFFSET_FREELIST_COUNT),
            schema_cookie: read_u32_be(data, HEADER_OFFSET_SCHEMA_COOKIE),
            schema_format: read_u32_be(data, HEADER_OFFSET_SCHEMA_FORMAT),
            default_cache_size: read_u32_be(data, HEADER_OFFSET_DEFAULT_CACHE),
            largest_root: read_u32_be(data, HEADER_OFFSET_LARGEST_ROOT),
            text_encoding: read_u32_be(data, HEADER_OFFSET_TEXT_ENCODING),
            user_version: read_u32_be(data, HEADER_OFFSET_USER_VERSION),
            incr_vacuum: read_u32_be(data, HEADER_OFFSET_INCR_VACUUM),
            application_id: read_u32_be(data, HEADER_OFFSET_APPLICATION_ID),
            version_valid_for: read_u32_be(data, HEADER_OFFSET_VERSION_VALID),
            sqlite_version: read_u32_be(data, HEADER_OFFSET_SQLITE_VERSION),
        })
    }

    /// Serialize header into the first 100 bytes of a page buffer.
    #[verifier::rlimit(60)]
    pub fn write(&self, page: &mut [u8])
        requires
            old(page)@.len() >= 100,
        ensures
            final(page)@.len() == old(page)@.len(),
            encodes_header(*self, final(page)@),
            forall|i: int|
                (72 <= i < 92 || 100 <= i < old(page)@.len()) ==> final(page)@[i]
                    == old(page)@[i],
    {
        let ghost orig = page@;
        let mut i: usize = 0;
        while i < 16
            invariant
                page@.len() == orig.len(),
                orig.len() >= 100,
                i <= 16,
                forall|j: int| 0 <= j < i ==> page@[j] == header_magic()[j],
                forall|j: int| 16 <= j < orig.len() ==> page@[j] == orig[j],
            decreases 16 - i,
        {
            page[i] = header_magic_byte(i);
            i = i + 1;
        }
        let raw: u16 = if self.page_size == 65536 {
            1u16
        } else {
            (self.page_size % 65536) as u16
        };
        page[HEADER_OFFSET_PAGE_SIZE] = (raw / 256) as u8;
        page[HEADER_OFFSET_PAGE_SIZE + 1] = (raw % 256) as u8;
        page[HEADER_OFFSET_WRITE_VERSION] = self.write_version;
        page[HEADER_OFFSET_READ_VERSION] = self.read_version;
        page[HEADER_OFFSET_RESERVED] = self.reserved_bytes;
        page[HEADER_OFFSET_MAX_EMBED_PAYLOAD] = self.max_embedded_payload;
        page[HEADER_OFFSET_MIN_EMBED_PAYLOAD] = self.min_embedded_payload;
        page[HEADER_OFFSET_LEAF_PAYLOAD] = self.leaf_payload;
        assert(page@.subrange(0, 16) =~= header_magic());
        assert(be_u16(page@, 16) == raw_page_size(self.page_size));
        write_u32_be(page, HEADER_OFFSET_CHANGE_COUNTER, self.change_counter);
        write_u32_be(page, HEADER_OFFSET_DATABASE_SIZE, self.database_size);
        write_u32_be(page, HEADER_OFFSET_FREELIST_TRUNK, self.freelist_trunk);
        write_u32_be(page, HEADER_OFFSET_FREELIST_COUNT, self.freelist_count);
        write_u32_be(page, HEADER_OFFSET_SCHEMA_COOKIE, self.schema_cookie);
        write_u32_be(page, HEADER_OFFSET_SCHEMA_FORMAT, self.schema_format);
        write_u32_be(page, HEADER_OFFSET_DEFAULT_CACHE, self.default_cache_size);
        write_u32_be(page, HEADER_OFFSET_LARGEST_ROOT, self.largest_root);
        write_u32_be(page, HEADER_OFFSET_TEXT_ENCODING, self.text_encoding);
        write_u32_be(page, HEADER_OFFSET_USER_VERSION, self.user_version);
        write_u32_be(page, HEADER_OFFSET_INCR_VACUUM, self.incr_vacuum);
        write_u32_be(page, HEADER_OFFSET_APPLICATION_ID, self.application_id);
        write_u32_be(page, HEADER_OFFSET_VERSION_VALID, self.version_valid_for);
        write_u32_be(page, HEADER_OFFSET_SQLITE_VERSION, self.sqlite_version);
        assert(page@.subrange(0, 16) =~= header_magic());
    }

    pub fn usable_page_size(&self) -> (n: u32)
        requires
            self.reserved_bytes <= self.page_size,
        ensures
            n == self.page_size - self.reserved_bytes,
    {
        self.page_size - self.reserved_bytes as u32
    }
}

fn read_u16_be(data: &[u8], offset: usize) -> (v: u16)
    requires
        offset + 2 <= data@.len(),
    ensures
        v == be_u16(data@, offset as int),
{
    (data[offset] as u16) * 256 + data[offset + 1] as u16
}

/// Parsing what `write` wrote gives back the header written, whenever its page
/// size is one the format accepts.
pub proof fn lemma_header_roundtrip(h: DatabaseHeader, p: Seq<u8>)
    requires
        valid_page_size(h.page_size as int),
        encodes_header(h, p),
    ensures
        header_ok(p),
        decoded_header(p) == h,
{
}

/// The header read from the first hundred bytes of a page is the header of
/// the whole page.
pub proof fn lemma_header_prefix(prefix: Seq<u8>, p: Seq<u8>)
    requires
        prefix.len() == 100,
        p.len() >= 100,
        p.subrange(0, 100) == prefix,
    ensures
        header_ok(prefix) == header_ok(p),
        decoded_header(prefix) == decoded_header(p),
{
    assert forall|i: int| 0 <= i < 100 implies p[i] == prefix[i] by {
        assert(p.subrange(0, 100)[i] == p[i]);
    }
    assert(p.subrange(0, 16) =~= prefix.subrange(0, 16));
}

/// Whether a page encodes a header depends on its first hundred bytes only.
pub proof fn lemma_encodes_header_same(h: DatabaseHeader, p: Seq<u8>, q: Seq<u8>)
    requires
        p.len() >= 100,
        q.len() >= 100,
        forall|i: int| 0 <= i < 100 ==> #[trigger] p[i] == q[i],
    ensures
        encodes_header(h, p) == encodes_header(h, q),
{
    assert(p.subrange(0, 16) =~= q.subrange(0, 16));
}

} // verus!
