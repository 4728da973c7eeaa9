//! Virtual file system abstraction and big-endian helpers.

use vstd::prelude::*;
use vstd::slice::slice_subrange;

use std::path::{Path, PathBuf};

use crate::error::{is_sql_error, ResultCode, SqlliteError};

verus! {

#[verifier::external_type_specification]
#[verifier::external_body]
pub struct ExPathBuf(PathBuf);

#[verifier::external_type_specification]
#[verifier::external_body]
pub struct ExPath(Path);

/// Borrows the path that a `PathBuf` owns (std's `PathBuf::as_path`).
/// Nothing is claimed of the result: the library only hands it on.
#[verifier::external_body]
fn path_buf_as_path(p: &PathBuf) -> &Path {
    p.as_path()
}

/// Copies a path into an owned `PathBuf` (std's `Path::to_path_buf`).
/// Nothing is claimed of the result: the library only keeps it.
#[verifier::external_body]
pub(crate) fn path_to_path_buf(p: &Path) -> PathBuf {
    p.to_path_buf()
}

/// Open flags for database files.
#[derive(Debug, Clone, Copy, Default)]
pub struct OpenFlags {
    pub read_only: bool,
    pub create: bool,
    pub memory: bool,
}

/// `contents` with `bytes` written at `offset`; a gap past the end is filled with zeros.
pub open spec fn overwrite(contents: Seq<u8>, offset: int, bytes: Seq<u8>) -> Seq<u8> {
    let end = offset + bytes.len();
    let len = if end > contents.len() {
        end
    } else {
        contents.len() as int
    };
    Seq::new(
        len as nat,
        |i: int|
            if offset <= i < end {
                bytes[i - offset]
            } else if i < contents.len() {
                contents[i]
            } else {
                0u8
            },
    )
}

/// Whether `new` keeps every byte of `old` that lies before `offset`.
pub open spec fn keeps_prefix(old: Seq<u8>, new: Seq<u8>, offset: int) -> bool {
    &&& (offset <= old.len() ==> new.len() >= offset)
    &&& (offset > old.len() ==> new.len() >= old.len())
    &&& forall|i: int| 0 <= i < old.len() && i < offset ==> #[trigger] new[i] == old[i]
}

/// A file handle opened through the VFS.
///
/// `contents` is the sequence of bytes the file holds. A file type written
/// in the verified code (the in-memory file) defines it and is checked
/// against the contracts below. A file type written outside it, such as a
/// file on disk, cannot define it and keeps the default, the empty
/// sequence; for such a type these contracts do not describe its bytes, and
/// what is proved of code generic over the file type does not extend to it.
pub trait VfsFile {
    closed spec fn contents(&self) -> Seq<u8> {
        Seq::empty()
    }

    /// Whether every operation on the file succeeds (a file in memory);
    /// an implementation outside the verified code keeps the default, no.
    closed spec fn never_fails(&self) -> bool {
        false
    }

    /// Reads up to `buf.len()` bytes at `offset`: the bytes read are those of
    /// the file there, and none are read only at or past the end of the file.
    fn read_at(&mut self, offset: u64, buf: &mut [u8]) -> (r: Result<usize, SqlliteError>)
        ensures
            final(self).contents() == old(self).contents(),
            final(self).never_fails() == old(self).never_fails(),
            final(buf)@.len() == old(buf)@.len(),
            old(self).never_fails() ==> (r matches Ok(n) && n == if offset >= old(
                self,
            ).contents().len() {
                0
            } else if old(buf)@.len() <= old(self).contents().len() - offset {
                old(buf)@.len() as int
            } else {
                old(self).contents().len() - offset
            }),
            r matches Ok(n) ==> {
                &&& n <= old(buf)@.len()
                &&& n > 0 ==> offset + n <= old(self).contents().len() && final(buf)@.subrange(
                    0,
                    n as int,
                ) == old(self).contents().subrange(offset as int, offset + n)
                &&& (n == 0 && old(buf)@.len() > 0 ==> offset >= old(self).contents().len())
            },
    ;

    /// Writes a prefix of `buf` at `offset`.
    fn write_at(&mut self, offset: u64, buf: &[u8]) -> (r: Result<usize, SqlliteError>)
        requires
            offset + buf@.len() <= usize::MAX,
        ensures
            r matches Ok(n) ==> n <= buf@.len() && final(self).contents() == overwrite(
                old(self).contents(),
                offset as int,
                buf@.subrange(0, n as int),
            ),
            keeps_prefix(old(self).contents(), final(self).contents(), offset as int),
            final(self).never_fails() == old(self).never_fails(),
            old(self).never_fails() ==> r == Ok::<usize, SqlliteError>(buf@.len() as usize),
    ;

    /// Shrinks the file to `size` bytes; a larger `size` keeps what the file holds.
    fn truncate(&mut self, size: u64) -> (r: Result<(), SqlliteError>)
        ensures
            final(self).never_fails() == old(self).never_fails(),
            old(self).never_fails() ==> r is Ok,
            r is Ok ==> {
                &&& size <= old(self).contents().len() ==> final(self).contents()
                    == old(self).contents().subrange(0, size as int)
                &&& size > old(self).contents().len() ==> final(self).contents().subrange(
                    0,
                    old(self).contents().len() as int,
                ) == old(self).contents()
            },
    ;

    fn sync(&mut self) -> (r: Result<(), SqlliteError>)
        ensures
            final(self).contents() == old(self).contents(),
            final(self).never_fails() == old(self).never_fails(),
            old(self).never_fails() ==> r is Ok,
    ;

    fn size(&self) -> (r: Result<u64, SqlliteError>)
        ensures
            r matches Ok(n) ==> n == self.contents().len(),
            self.never_fails() ==> r is Ok,
    ;

    fn path(&self) -> Option<&Path>;
}

/// Virtual file system: opens, deletes and probes files by path.
pub trait Vfs {
    type File: VfsFile;

    fn open(&self, path: &Path, flags: OpenFlags) -> Result<Self::File, SqlliteError>;

    fn delete(&self, path: &Path) -> Result<(), SqlliteError>;

    /// Whether a file exists at `path`.
    fn path_exists(&self, path: &Path) -> bool;

    fn name(&self) -> &str;
}

/// In-memory file for testing and :memory: databases.
pub struct MemoryFile {
    data: Vec<u8>,
    path: Option<PathBuf>,
}

impl MemoryFile {
    pub closed spec fn has_path(&self) -> bool {
        self.path is Some
    }

    pub fn new() -> (f: Self)
        ensures
            f.contents() == Seq::<u8>::empty(),
            !f.has_path(),
    {
        Self { data: Vec::new(), path: None }
    }

    pub fn with_path(path: PathBuf) -> (f: Self)
        ensures
            f.contents() == Seq::<u8>::empty(),
            f.has_path(),
    {
        Self { data: Vec::new(), path: Some(path) }
    }

    pub fn data(&self) -> (d: &[u8])
        ensures
            d@ == self.contents(),
    {
        self.data.as_slice()
    }
}

impl Default for MemoryFile {
    fn default() -> (f: Self)
        ensures
            f.contents() == Seq::<u8>::empty(),
            !f.has_path(),
    {
        Self::new()
    }
}

impl VfsFile for MemoryFile {
    closed spec fn contents(&self) -> Seq<u8> {
        self.data@
    }

    open spec fn never_fails(&self) -> bool {
        true
    }

    fn read_at(&mut self, offset: u64, buf: &mut [u8]) -> (r: Result<usize, SqlliteError>)
        ensures
            r matches Ok(n) && n == if offset >= old(self).contents().len() {
                0
            } else if old(buf)@.len() <= old(self).contents().len() - offset {
                old(buf)@.len() as int
            } else {
                old(self).contents().len() - offset
            },
    {
        let len = self.data.len();
        if offset >= len as u64 {
            return Ok(0);
        }
        let off = offset as usize;
        let avail = len - off;
        let n = if buf.len() <= avail {
            buf.len()
        } else {
            avail
        };
        let mut i: usize = 0;
        while i < n
            invariant
                off == offset,
                len == self.data@.len(),
                off + n <= self.data@.len(),
                n <= buf@.len(),
                i <= n,
                buf@.len() == old(buf)@.len(),
                self.data@ == old(self).data@,
                forall|j: int| 0 <= j < i ==> buf@[j] == self.data@[off + j],
            decreases n - i,
        {
            buf[i] = self.data[off + i];
            i = i + 1;
        }
        assert(buf@.subrange(0, n as int) =~= self.data@.subrange(offset as int, offset + n));
        Ok(n)
    }

    fn write_at(&mut self, offset: u64, buf: &[u8]) -> (r: Result<usize, SqlliteError>)
        ensures
            r == Ok::<usize, SqlliteError>(buf@.len() as usize),
    {
        let off = offset as usize;
        let end = off + buf.len();
        if end > self.data.len() {
            self.data.resize(end, 0);
        }
        let ghost before = self.data@;
        let mut i: usize = 0;
        while i < buf.len()
            invariant
                off == offset,
                end == off + buf@.len(),
                self.data@.len() == before.len(),
                before.len() >= end,
                i <= buf@.len(),
                forall|j: int| 0 <= j < off ==> self.data@[j] == before[j],
                forall|j: int| end <= j < before.len() ==> self.data@[j] == before[j],
                forall|j: int| off <= j < off + i ==> self.data@[j] == buf@[j - off],
            decreases buf@.len() - i,
        {
            self.data[off + i] = buf[i];
            i = i + 1;
        }
        proof {
            let o = old(self).data@;
            let w = overwrite(o, offset as int, buf@.subrange(0, buf@.len() as int));
            assert forall|j: int| 0 <= j < w.len() implies self.data@[j] == w[j] by {
                if off <= j < end {
                } else if j < o.len() {
                    if end > o.len() {
                        assert(before.subrange(0, o.len() as int) == o);
                        assert(before[j] == o[j]);
                    }
                } else {
                    assert(before[j] == 0u8);
                }
            }
            assert(self.data@ =~= w);
        }
        Ok(buf.len())
    }

    fn truncate(&mut self, size: u64) -> (r: Result<(), SqlliteError>)
        ensures
            r is Ok,
            size <= old(self).contents().len() ==> final(self).contents()
                == old(self).contents().subrange(0, size as int),
            size > old(self).contents().len() ==> final(self).contents()
                == old(self).contents(),
    {
        if size < self.data.len() as u64 {
            self.data.truncate(size as usize);
        }
        proof {
            if size == old(self).data@.len() {
                assert(old(self).data@.subrange(0, size as int) =~= old(self).data@);
            }
        }
        Ok(())
    }

    fn sync(&mut self) -> (r: Result<(), SqlliteError>)
        ensures
            r is Ok,
    {
        Ok(())
    }

    fn size(&self) -> (r: Result<u64, SqlliteError>)
        ensures
            r is Ok,
    {
        Ok(self.data.len() as u64)
    }

    fn path(&self) -> (r: Option<&Path>)
        ensures
            r is Some <==> self.has_path(),
    {
        match &self.path {
            Some(p) => Some(path_buf_as_path(p)),
            None => None,
        }
    }
}

/// Helper to read an exact number of bytes.
///
/// Fails with `IoErr` "unexpected EOF" when the file ends before `buf` is full.
pub fn read_exact_at<F: VfsFile>(file: &mut F, offset: u64, buf: &mut [u8]) -> (r: Result<
    (),
    SqlliteError,
>)
    requires
        offset + old(buf)@.len() <= u64::MAX,
    ensures
        final(file).contents() == old(file).contents(),
        final(file).never_fails() == old(file).never_fails(),
        final(buf)@.len() == old(buf)@.len(),
        old(file).never_fails() && offset + old(buf)@.len() <= old(file).contents().len() ==> r is Ok,
        old(file).never_fails() && old(buf)@.len() > 0 && offset + old(buf)@.len() > old(
            file,
        ).contents().len() ==> (r matches Err(e) && is_sql_error(
            e,
            ResultCode::IoErr,
            "unexpected EOF"@,
        )),
        r is Ok ==> old(buf)@.len() == 0 || (offset + old(buf)@.len()
            <= old(file).contents().len() && final(buf)@ == old(file).contents().subrange(
            offset as int,
            offset + old(buf)@.len(),
        )),
{
    let ghost contents = file.contents();
    let len = buf.len();
    let mut read: usize = 0;
    while read < len
        invariant
            len == buf@.len(),
            buf@.len() == old(buf)@.len(),
            offset + len <= u64::MAX,
            file.contents() == contents,
            contents == old(file).contents(),
            file.never_fails() == old(file).never_fails(),
            read <= len,
            read > 0 ==> offset + read <= contents.len() && buf@.subrange(0, read as int)
                == contents.subrange(offset as int, offset + read),
        decreases len - read,
    {
        let remaining = len - read;
        let mut tmp: Vec<u8> = vec![0u8; remaining];
        let n = match file.read_at(offset + read as u64, tmp.as_mut_slice()) {
            Ok(n) => n,
            Err(e) => return Err(e),
        };
        if n == 0 {
            return Err(SqlliteError::sql(ResultCode::IoErr, "unexpected EOF"));
        }
        let ghost before = buf@;
        let mut k: usize = 0;
        while k < n
            invariant
                n <= tmp@.len(),
                tmp@.len() == len - read,
                read + n <= len,
                len == buf@.len(),
                k <= n,
                forall|j: int| 0 <= j < read ==> buf@[j] == before[j],
                forall|j: int| 0 <= j < k ==> buf@[read + j] == tmp@[j],
            decreases n - k,
        {
            buf[read + k] = tmp[k];
            k = k + 1;
        }
        proof {
            assert(tmp@.subrange(0, n as int) == contents.subrange(offset + read, offset + read + n));
            assert forall|j: int| 0 <= j < read + n implies buf@[j] == contents[offset + j] by {
                if j < read {
                    assert(before.subrange(0, read as int)[j] == contents.subrange(
                        offset as int,
                        offset + read,
                    )[j]);
                } else {
                    assert(tmp@.subrange(0, n as int)[j - read] == contents.subrange(
                        offset + read,
                        offset + read + n,
                    )[j - read]);
                }
            }
            assert(buf@.subrange(0, (read + n) as int) =~= contents.subrange(
                offset as int,
                offset + read + n,
            ));
        }
        read = read + n;
    }
    assert(buf@.subrange(0, len as int) =~= buf@);
    Ok(())
}

/// Helper to write an exact number of bytes.
///
/// Fails with `IoErr` "write failed" when the file accepts no byte.
pub fn write_exact_at<F: VfsFile>(file: &mut F, offset: u64, buf: &[u8]) -> (r: Result<
    (),
    SqlliteError,
>)
    requires
        offset + buf@.len() <= usize::MAX,
    ensures
        keeps_prefix(old(file).contents(), final(file).contents(), offset as int),
        final(file).never_fails() == old(file).never_fails(),
        old(file).never_fails() ==> r is Ok,
        r is Ok ==> final(file).contents() == if buf@.len() == 0 {
            old(file).contents()
        } else {
            overwrite(old(file).contents(), offset as int, buf@)
        },
{
    let len = buf.len();
    let mut written: usize = 0;
    while written < len
        invariant
            len == buf@.len(),
            offset + len <= usize::MAX,
            written <= len,
            file.never_fails() == old(file).never_fails(),
            keeps_prefix(old(file).contents(), file.contents(), offset as int),
            written == 0 ==> file.contents() == old(file).contents(),
            written > 0 ==> file.contents() == overwrite(
                old(file).contents(),
                offset as int,
                buf@.subrange(0, written as int),
            ),
        decreases len - written,
    {
        let rest = slice_subrange(buf, written, len);
        let ghost before = file.contents();
        let n = match file.write_at(offset + written as u64, rest) {
            Ok(n) => n,
            Err(e) => return Err(e),
        };
        if n == 0 {
            return Err(SqlliteError::sql(ResultCode::IoErr, "write failed"));
        }
        proof {
            assert(rest@.subrange(0, n as int) =~= buf@.subrange(written as int, written + n));
            if written > 0 {
                lemma_overwrite_extend(
                    old(file).contents(),
                    offset as int,
                    buf@,
                    written as int,
                    (written + n) as int,
                );
            }
        }
        written = written + n;
    }
    assert(buf@.subrange(0, len as int) =~= buf@);
    Ok(())
}

/// Writing `bytes[..a]` and then `bytes[a..b]` right after it writes `bytes[..b]`.
pub proof fn lemma_overwrite_extend(c: Seq<u8>, offset: int, bytes: Seq<u8>, a: int, b: int)
    requires
        0 <= offset,
        0 <= a <= b <= bytes.len(),
    ensures
        overwrite(overwrite(c, offset, bytes.subrange(0, a)), offset + a, bytes.subrange(a, b))
            =~= overwrite(c, offset, bytes.subrange(0, b)),
{
}

/// The written range of an overwrite holds the written bytes.
pub proof fn lemma_overwrite_inside(c: Seq<u8>, offset: int, bytes: Seq<u8>)
    requires
        0 <= offset,
    ensures
        overwrite(c, offset, bytes).len() >= offset + bytes.len(),
        overwrite(c, offset, bytes).subrange(offset, offset + bytes.len()) =~= bytes,
{
}

/// A range that an overwrite does not touch keeps its bytes.
pub proof fn lemma_overwrite_outside(c: Seq<u8>, offset: int, bytes: Seq<u8>, lo: int, hi: int)
    requires
        0 <= offset,
        0 <= lo <= hi <= c.len(),
        hi <= offset || offset + bytes.len() <= lo,
    ensures
        overwrite(c, offset, bytes).subrange(lo, hi) =~= c.subrange(lo, hi),
{
}

/// Read a big-endian u16 from a buffer.
pub fn read_u16_be(data: &[u8], offset: usize) -> (v: u16)
    requires
        offset + 2 <= data@.len(),
    ensures
        v == be_u16(data@, offset as int),
{
    (data[offset] as u16) * 256 + data[offset + 1] as u16
}

/// Write a big-endian u16 to a buffer.
pub fn write_u16_be(data: &mut [u8], offset: usize, value: u16)
    requires
        offset + 2 <= old(data)@.len(),
    ensures
        final(data)@.len() == old(data)@.len(),
        be_u16(final(data)@, offset as int) == value,
        forall|i: int|
            0 <= i < old(data)@.len() && !(offset <= i < offset + 2) ==> #[trigger] final(data)@[i]
                == old(data)@[i],
{
    data[offset] = (value / 256) as u8;
    data[offset + 1] = (value % 256) as u8;
}

/// Read a big-endian u32 from a buffer.
pub fn read_u32_be(data: &[u8], offset: usize) -> (v: u32)
    requires
        offset + 4 <= data@.len(),
    ensures
        v == be_u32(data@, offset as int),
{
    (data[offset] as u32) * 0x1000000 + (data[offset + 1] as u32) * 0x10000 + (data[offset
        + 2] as u32) * 0x100 + data[offset + 3] as u32
}

/// Write a big-endian u32 to a buffer.
pub fn write_u32_be(data: &mut [u8], offset: usize, value: u32)
    requires
        offset + 4 <= old(data)@.len(),
    ensures
        final(data)@.len() == old(data)@.len(),
        be_u32(final(data)@, offset as int) == value,
        forall|i: int|
            0 <= i < old(data)@.len() && !(offset <= i < offset + 4) ==> #[trigger] final(data)@[i]
                == old(data)@[i],
{
    data[offset] = (value / 0x1000000) as u8;
    data[offset + 1] = ((value / 0x10000) % 256) as u8;
    data[offset + 2] = ((value / 0x100) % 256) as u8;
    data[offset + 3] = (value % 256) as u8;
}

/// The big-endian 16-bit number at `offset`.
pub open spec fn be_u16(data: Seq<u8>, offset: int) -> int {
    data[offset] * 256 + data[offset + 1]
}

/// The big-endian 32-bit number at `offset`.
pub open spec fn be_u32(data: Seq<u8>, offset: int) -> int {
    data[offset] * 0x1000000 + data[offset + 1] * 0x10000 + data[offset + 2] * 0x100 + data[offset
        + 3]
}

} // verus!
