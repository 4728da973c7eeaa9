//! SQLite record format encoding and decoding.
//!
//! A record is a header followed by a body. The header is its own length as a
//! varint, then the number of values and the serial type of each value, all
//! varints. The body holds the bytes of each value in turn: integers as
//! little-endian two's complement in 1, 2, 3, 4, 6 or 8 bytes, reals as the
//! eight little-endian bytes of their bit pattern, text as UTF-8, blobs as is.

use vstd::prelude::*;

use vstd::slice::{slice_subrange, slice_to_vec};

use vstd::arithmetic::div_mod::{
    lemma_breakdown, lemma_div_denominator, lemma_fundamental_div_mod,
    lemma_fundamental_div_mod_converse,
};
use vstd::utf8::{decode_utf8, encode_utf8, encode_utf8_decode_utf8, encode_utf8_valid_utf8, valid_utf8};
use crate::error::{is_sql_error, ResultCode, SqlliteError};
use crate::types::{Value, ValueView};
use crate::varint::{
    groups, lemma_varint_at_bound, lemma_varint_roundtrip, read_varint, varint_at, varint_bytes, varint_len, write_varint,
};

verus! {

/// Serial type constants from SQLite record format.
pub const SERIAL_NULL: u64 = 0;

pub const SERIAL_INT8: u64 = 1;

pub const SERIAL_INT16: u64 = 2;

pub const SERIAL_INT24: u64 = 3;

pub const SERIAL_INT32: u64 = 4;

pub const SERIAL_INT48: u64 = 5;

pub const SERIAL_INT64: u64 = 6;

pub const SERIAL_FLOAT64: u64 = 7;

/// Reserved.
pub const SERIAL_TEXT0: u64 = 8;

pub const SERIAL_TEXT_MIN: u64 = 12;

pub const SERIAL_BLOB_MIN: u64 = 13;

/// `256` to the power `k`.
pub open spec fn pow256(k: nat) -> nat
    decreases k,
{
    if k == 0 {
        1
    } else {
        256 * pow256((k - 1) as nat)
    }
}

/// The `n` low-order bytes of `u`, least significant first.
pub open spec fn le_bytes(u: nat, n: nat) -> Seq<u8>
    decreases n,
{
    if n == 0 {
        seq![]
    } else {
        seq![(u % 256) as u8] + le_bytes(u / 256, (n - 1) as nat)
    }
}

/// The number whose little-endian bytes are `s`.
pub open spec fn le_uint(s: Seq<u8>) -> nat
    decreases s.len(),
{
    if s.len() == 0 {
        0
    } else {
        s[0] as nat + 256 * le_uint(s.drop_first())
    }
}

/// The two's-complement number whose little-endian bytes are `s`: a last byte
/// with its high bit set makes it negative.
pub open spec fn le_int(s: Seq<u8>) -> int {
    if s.len() > 0 && s.last() >= 128 {
        le_uint(s) - pow256(s.len())
    } else {
        le_uint(s) as int
    }
}

proof fn lemma_pow256_values()
    ensures
        pow256(0) == 1,
        pow256(1) == 0x100,
        pow256(2) == 0x10000,
        pow256(3) == 0x1000000,
        pow256(4) == 0x100000000,
        pow256(5) == 0x10000000000,
        pow256(6) == 0x1000000000000,
        pow256(7) == 0x100000000000000,
        pow256(8) == 0x10000000000000000,
{
    reveal_with_fuel(pow256, 9);
}

proof fn lemma_pow256_pos(k: nat)
    ensures
        pow256(k) >= 1,
    decreases k,
{
    if k > 0 {
        lemma_pow256_pos((k - 1) as nat);
    }
}

proof fn lemma_le_bytes_len(u: nat, n: nat)
    ensures
        le_bytes(u, n).len() == n,
    decreases n,
{
    if n > 0 {
        lemma_le_bytes_len(u / 256, (n - 1) as nat);
    }
}

/// Reading back `n` written bytes gives the value modulo `256^n`.
proof fn lemma_le_roundtrip(u: nat, n: nat)
    ensures
        le_uint(le_bytes(u, n)) == u % pow256(n),
    decreases n,
{
    lemma_le_bytes_len(u, n);
    if n > 0 {
        let s = le_bytes(u, n);
        assert(s.drop_first() =~= le_bytes(u / 256, (n - 1) as nat));
        lemma_le_roundtrip(u / 256, (n - 1) as nat);
        lemma_pow256_pos((n - 1) as nat);
        lemma_breakdown(u as int, 256, pow256((n - 1) as nat) as int);
    }
}

/// The last of `n` written bytes is the digit of weight `256^(n-1)`.
#[verifier::spinoff_prover]
proof fn lemma_le_last(u: nat, n: nat)
    requires
        n > 0,
    ensures
        le_bytes(u, n).last() == (u / pow256((n - 1) as nat)) % 256,
    decreases n,
{
    lemma_le_bytes_len(u, n);
    if n == 1 {
        assert(le_bytes(u, n) =~= seq![(u % 256) as u8]);
        assert(pow256(0) == 1);
        assert(u / 1 == u);
    } else {
        let s = le_bytes(u, n);
        let t = le_bytes(u / 256, (n - 1) as nat);
        lemma_le_bytes_len(u / 256, (n - 1) as nat);
        assert(s.last() == t.last());
        lemma_le_last(u / 256, (n - 1) as nat);
        let p = pow256((n - 2) as nat);
        lemma_pow256_pos((n - 2) as nat);
        assert(pow256((n - 1) as nat) == 256 * p);
        lemma_div_denominator(u as int, 256, p as int);
        assert((u / 256) / p == u / (256 * p));
    }
}

/// A byte string is below `256` to the power of its length.
proof fn lemma_le_uint_bound(s: Seq<u8>)
    ensures
        le_uint(s) < pow256(s.len()),
    decreases s.len(),
{
    if s.len() > 0 {
        lemma_le_uint_bound(s.drop_first());
    }
}

/// Reads the `n` bytes of `data` at `offset` as a little-endian number.
fn read_le(data: &[u8], offset: usize, n: usize) -> (u: u64)
    requires
        n <= 8,
        offset + n <= data@.len(),
    ensures
        u == le_uint(data@.subrange(offset as int, offset + n)),
{
    let mut u: u64 = 0;
    let mut j: usize = n;
    let dl = data.len();
    proof {
        lemma_pow256_values();
    }
    while j > 0
        invariant
            j <= n <= 8,
            dl == data@.len(),
            offset + n <= data@.len(),
            u == le_uint(data@.subrange(offset + j, offset + n)),
            u < pow256((n - j) as nat),
            pow256(7) == 0x100000000000000,
        decreases j,
    {
        let ghost prev = data@.subrange(offset + j, offset + n);
        j = j - 1;
        let b = data[offset + j];
        proof {
            let s = data@.subrange(offset + j, offset + n);
            assert(s.drop_first() =~= prev);
            lemma_pow_mono((n - j - 1) as nat, 7);
        }
        u = b as u64 + 256 * u;
        proof {
            assert(pow256((n - j) as nat) == 256 * pow256((n - j - 1) as nat));
        }
    }
    u
}

proof fn lemma_pow_mono(a: nat, b: nat)
    requires
        a <= b,
    ensures
        pow256(a) <= pow256(b),
    decreases b - a,
{
    if a < b {
        lemma_pow_mono(a, (b - 1) as nat);
        lemma_pow256_pos((b - 1) as nat);
    }
}

/// Reads a little-endian two's-complement integer of `nbytes` bytes at `offset`.
///
/// Fails with `Corrupt` "truncated integer" when the bytes run past the end of `data`.
pub fn read_int(data: &[u8], offset: usize, nbytes: usize) -> (r: Result<i64, SqlliteError>)
    requires
        1 <= nbytes <= 8,
        offset + nbytes <= usize::MAX,
    ensures
        offset + nbytes > data@.len() ==> r is Err && is_sql_error(
            r->Err_0,
            ResultCode::Corrupt,
            "truncated integer"@,
        ),
        offset + nbytes <= data@.len() ==> r is Ok && r->Ok_0 as int == le_int(
            data@.subrange(offset as int, offset + nbytes),
        ),
{
    if offset + nbytes > data.len() {
        return Err(SqlliteError::sql(ResultCode::Corrupt, "truncated integer"));
    }
    let u = read_le(data, offset, nbytes);
    let top = data[offset + nbytes - 1];
    let ghost s = data@.subrange(offset as int, offset + nbytes);
    proof {
        lemma_pow256_values();
        lemma_le_uint_bound(s);
        lemma_pow_mono(nbytes as nat, 8);
        assert(s.last() == top);
        assert((top & 0x80 != 0) == (top >= 128)) by (bit_vector);
    }
    if nbytes < 8 && (top & 0x80) != 0 {
        let mut p: u64 = 1;
        let mut k: usize = 0;
        while k < nbytes
            invariant
                k <= nbytes < 8,
                p == pow256(k as nat),
                pow256(7) == 0x100000000000000,
            decreases nbytes - k,
        {
            proof {
                lemma_pow_mono(k as nat, 6);
                lemma_pow256_values();
            }
            p = p * 256;
            k = k + 1;
        }
        proof {
            lemma_pow_mono(nbytes as nat, 7);
        }
        Ok(u as i64 - p as i64)
    } else if nbytes < 8 {
        proof {
            lemma_pow_mono(nbytes as nat, 7);
        }
        Ok(u as i64)
    } else {
        proof {
            lemma_le_roundtrip_last_full(s);
            assert((u as i64) as int == if u >= 0x8000000000000000u64 {
                u - 0x10000000000000000
            } else {
                u as int
            }) by (bit_vector);
        }
        Ok(u as i64)
    }
}

/// In eight bytes the last one has its high bit set exactly when the number
/// reaches `2^63`.
proof fn lemma_le_roundtrip_last_full(s: Seq<u8>)
    requires
        s.len() == 8,
    ensures
        (s.last() >= 128) == (le_uint(s) >= 0x8000000000000000),
{
    lemma_pow256_values();
    lemma_le_uint_bound(s);
    let u = le_uint(s);
    lemma_le_split_last(s);
    assert(u == le_uint(s.drop_last()) + 0x100000000000000 * s.last());
    lemma_le_uint_bound(s.drop_last());
}

/// The last byte of a little-endian number carries the highest weight.
#[verifier::spinoff_prover]
proof fn lemma_le_split_last(s: Seq<u8>)
    requires
        s.len() > 0,
    ensures
        le_uint(s) == le_uint(s.drop_last()) + pow256((s.len() - 1) as nat) * s.last(),
    decreases s.len(),
{
    if s.len() == 1 {
        assert(s.drop_last() =~= Seq::<u8>::empty());
        assert(s.drop_first() =~= Seq::<u8>::empty());
        assert(le_uint(s.drop_first()) == 0);
        assert(le_uint(s.drop_last()) == 0);
        assert(pow256(0) == 1);
        assert(le_uint(s) == s[0] as nat);
        let z = (s.len() - 1) as nat;
        assert(z == 0);
        assert(pow256(z) == 1);
        let w = s.last();
        assert(pow256(z) * w == w as int) by (nonlinear_arith)
            requires
                pow256(z) == 1,
        ;
    } else {
        let t = s.drop_first();
        lemma_le_split_last(t);
        assert(t.drop_last() =~= s.drop_last().drop_first());
        assert(t.last() == s.last());
        let p = pow256((t.len() - 1) as nat);
        let d = s.drop_last();
        assert(d[0] == s[0]);
        assert(le_uint(d) == d[0] as nat + 256 * le_uint(d.drop_first()));
        assert(pow256((s.len() - 1) as nat) == 256 * p);
        assert(le_uint(s) == s[0] as nat + 256 * le_uint(t));
        assert(256 * (le_uint(t.drop_last()) + p * t.last()) == 256 * le_uint(t.drop_last()) + (256
            * p) * t.last()) by (nonlinear_arith);
        assert(le_uint(s) == le_uint(d) + (256 * p) * s.last());
        let q = pow256((s.len() - 1) as nat);
        assert(q * s.last() == (256 * p) * s.last()) by (nonlinear_arith)
            requires
                q == 256 * p,
        ;
    }
}

/// The number of body bytes of a text or blob value (none for other kinds).
pub open spec fn payload_len(v: ValueView) -> nat {
    match v {
        ValueView::Text(s) => encode_utf8(s).len(),
        ValueView::Blob(b) => b.len(),
        _ => 0,
    }
}

/// The serial type a value is stored under: the narrowest integer width that
/// holds an integer, `7` for a real, `2n + 12` for text of `n` UTF-8 bytes and
/// `2n + 13` for a blob of `n` bytes.
pub open spec fn serial_type_of(v: ValueView) -> nat {
    match v {
        ValueView::Null => 0,
        ValueView::Integer(i) => if -0x80 <= i < 0x80 {
            1
        } else if -0x8000 <= i < 0x8000 {
            2
        } else if -0x800000 <= i < 0x800000 {
            3
        } else if -0x80000000 <= i < 0x80000000 {
            4
        } else if -0x800000000000 <= i < 0x800000000000 {
            5
        } else {
            6
        },
        ValueView::Real(_) => 7,
        ValueView::Text(s) => 2 * encode_utf8(s).len() + 12,
        ValueView::Blob(b) => 2 * b.len() + 13,
    }
}

/// The body width of an integer stored under `serial`: 1, 2, 3, 4 and 6 bytes
/// for serial types 1 to 5, eight bytes otherwise.
pub open spec fn int_width(serial: nat) -> nat {
    if 1 <= serial <= 4 {
        serial
    } else if serial == 5 {
        6
    } else {
        8
    }
}

/// The body bytes of a value written under `serial`.
pub open spec fn value_bytes_as(v: ValueView, serial: nat) -> Seq<u8> {
    match v {
        ValueView::Null => seq![],
        ValueView::Integer(i) => le_bytes(i as u64 as nat, int_width(serial)),
        ValueView::Real(r) => le_bytes(r as nat, 8),
        ValueView::Text(s) => encode_utf8(s),
        ValueView::Blob(b) => b,
    }
}

/// The body bytes of a value under its own serial type.
pub open spec fn value_bytes(v: ValueView) -> Seq<u8> {
    value_bytes_as(v, serial_type_of(v))
}

/// The serial type varints of the values, in order.
pub open spec fn serials_bytes(vs: Seq<ValueView>) -> Seq<u8>
    decreases vs.len(),
{
    if vs.len() == 0 {
        seq![]
    } else {
        varint_bytes(serial_type_of(vs[0])) + serials_bytes(vs.drop_first())
    }
}

/// The body bytes of the values, in order.
pub open spec fn body_bytes(vs: Seq<ValueView>) -> Seq<u8>
    decreases vs.len(),
{
    if vs.len() == 0 {
        seq![]
    } else {
        value_bytes(vs[0]) + body_bytes(vs.drop_first())
    }
}

/// The header of a record without its leading length: the count, then the serial types.
pub open spec fn record_header(vs: Seq<ValueView>) -> Seq<u8> {
    varint_bytes(vs.len()) + serials_bytes(vs)
}

/// The record that holds `vs`.
pub open spec fn record_bytes(vs: Seq<ValueView>) -> Seq<u8> {
    varint_bytes(record_header(vs).len()) + record_header(vs) + body_bytes(vs)
}

/// The views of a slice of values.
pub open spec fn views(vs: Seq<Value>) -> Seq<ValueView> {
    vs.map_values(|v: Value| v@)
}

proof fn lemma_serials_push(vs: Seq<ValueView>, v: ValueView)
    ensures
        serials_bytes(vs.push(v)) =~= serials_bytes(vs) + varint_bytes(serial_type_of(v)),
    decreases vs.len(),
{
    if vs.len() > 0 {
        assert(vs.push(v).drop_first() =~= vs.drop_first().push(v));
        lemma_serials_push(vs.drop_first(), v);
        assert(vs.push(v)[0] == vs[0]);
    } else {
        assert(vs.push(v).drop_first() =~= Seq::<ValueView>::empty());
        assert(serials_bytes(vs.push(v).drop_first()) == Seq::<u8>::empty());
        assert(serials_bytes(vs) == Seq::<u8>::empty());
        assert(vs.push(v)[0] == v);
    }
}

proof fn lemma_body_push(vs: Seq<ValueView>, v: ValueView)
    ensures
        body_bytes(vs.push(v)) =~= body_bytes(vs) + value_bytes(v),
    decreases vs.len(),
{
    if vs.len() > 0 {
        assert(vs.push(v).drop_first() =~= vs.drop_first().push(v));
        lemma_body_push(vs.drop_first(), v);
        assert(vs.push(v)[0] == vs[0]);
    } else {
        assert(vs.push(v).drop_first() =~= Seq::<ValueView>::empty());
        assert(body_bytes(vs.push(v).drop_first()) == Seq::<u8>::empty());
        assert(body_bytes(vs) == Seq::<u8>::empty());
        assert(vs.push(v)[0] == v);
    }
}

/// The serial type of a value.
pub fn serial_type(value: &Value) -> (st: u64)
    requires
        serial_type_of(value@) <= usize::MAX,
    ensures
        st == serial_type_of(value@),
{
    match value {
        Value::Null => SERIAL_NULL,
        Value::Integer(i) => {
            if *i >= -128 && *i <= 127 {
                SERIAL_INT8
            } else if *i >= -32768 && *i <= 32767 {
                SERIAL_INT16
            } else if *i >= -8388608 && *i < 8388608 {
                SERIAL_INT24
            } else if *i >= -2147483648 && *i <= 2147483647 {
                SERIAL_INT32
            } else if *i >= -140737488355328 && *i < 140737488355328 {
                SERIAL_INT48
            } else {
                SERIAL_INT64
            }
        },
        Value::Real(_) => SERIAL_FLOAT64,
        Value::Text(s) => ((s.as_str().len() * 2) as u64) + SERIAL_TEXT_MIN,
        Value::Blob(b) => ((b.len() * 2) as u64) + SERIAL_BLOB_MIN,
    }
}

/// Appends `bytes` to `buf`.
pub fn append_bytes(buf: &mut Vec<u8>, bytes: &[u8])
    ensures
        final(buf)@ == old(buf)@ + bytes@,
{
    let mut k: usize = 0;
    while k < bytes.len()
        invariant
            k <= bytes@.len(),
            buf@ == old(buf)@ + bytes@.subrange(0, k as int),
        decreases bytes@.len() - k,
    {
        buf.push(bytes[k]);
        k = k + 1;
        proof {
            assert(bytes@.subrange(0, k as int) =~= bytes@.subrange(0, k - 1).push(bytes@[k - 1]));
        }
    }
    assert(bytes@.subrange(0, bytes@.len() as int) =~= bytes@);
}

/// Appends the `n` low-order bytes of `u`, least significant first.
fn push_le(buf: &mut Vec<u8>, u: u64, n: usize)
    ensures
        final(buf)@ == old(buf)@ + le_bytes(u as nat, n as nat),
{
    let mut rest: u64 = u;
    let mut k: usize = 0;
    while k < n
        invariant
            k <= n,
            old(buf)@ + le_bytes(u as nat, n as nat) == buf@ + le_bytes(rest as nat, (n - k) as nat),
        decreases n - k,
    {
        let ghost before = buf@;
        buf.push((rest % 256) as u8);
        proof {
            assert(le_bytes(rest as nat, (n - k) as nat) =~= seq![(rest % 256) as u8] + le_bytes(
                (rest / 256) as nat,
                (n - k - 1) as nat,
            ));
            assert(before + le_bytes(rest as nat, (n - k) as nat) =~= buf@ + le_bytes(
                (rest / 256) as nat,
                (n - k - 1) as nat,
            ));
        }
        rest = rest / 256;
        k = k + 1;
    }
    assert(le_bytes(rest as nat, 0) =~= Seq::<u8>::empty());
    assert(buf@ + Seq::<u8>::empty() =~= buf@);
}

/// Appends the body bytes of `value` written under `serial`.
pub fn encode_value(value: &Value, serial: u64, buf: &mut Vec<u8>)
    ensures
        final(buf)@ == old(buf)@ + value_bytes_as(value@, serial as nat),
{
    match value {
        Value::Null => {
            assert(old(buf)@ + Seq::<u8>::empty() =~= old(buf)@);
        },
        Value::Integer(i) => {
            let n: usize = match serial {
                SERIAL_INT8 => 1,
                SERIAL_INT16 => 2,
                SERIAL_INT24 => 3,
                SERIAL_INT32 => 4,
                SERIAL_INT48 => 6,
                _ => 8,
            };
            push_le(buf, *i as u64, n);
        },
        Value::Real(r) => push_le(buf, *r, 8),
        Value::Text(s) => append_bytes(buf, s.as_str().as_bytes()),
        Value::Blob(b) => append_bytes(buf, b.as_slice()),
    }
}

/// Encode a list of values into a SQLite record blob.
pub fn encode_record(values: &[Value]) -> (record: Vec<u8>)
    requires
        values@.len() < 0x800000000000000,
        forall|i: int|
            0 <= i < values@.len() ==> serial_type_of(#[trigger] values@[i]@) < 0x8000000000000000
                && serial_type_of(values@[i]@) <= usize::MAX,
    ensures
        record@ == record_bytes(views(values@)),
{
    let mut header_buf: Vec<u8> = Vec::new();
    let mut body: Vec<u8> = Vec::new();
    let mut buf = [0u8; 9];
    proof {
        lemma_groups_le9(values@.len());
    }
    let n = write_varint(values.len() as u64, &mut buf);
    append_bytes(&mut header_buf, slice_subrange(buf.as_slice(), 0, n));
    let ghost vs = views(values@);
    let mut k: usize = 0;
    while k < values.len()
        invariant
            k <= values@.len(),
            vs == views(values@),
            values@.len() < 0x800000000000000,
            forall|i: int|
                0 <= i < values@.len() ==> serial_type_of(#[trigger] values@[i]@) < 0x8000000000000000
                    && serial_type_of(values@[i]@) <= usize::MAX,
            buf@.len() == 9,
            header_buf@ == varint_bytes(values@.len() as nat) + serials_bytes(vs.subrange(0, k as int)),
            header_buf@.len() <= 9 * (k + 1),
            body@ == body_bytes(vs.subrange(0, k as int)),
        decreases values@.len() - k,
    {
        let v = &values[k];
        proof {
            assert(v@ == vs[k as int]);
            lemma_groups_le9(serial_type_of(v@));
        }
        let st = serial_type(v);
        let m = write_varint(st, &mut buf);
        append_bytes(&mut header_buf, slice_subrange(buf.as_slice(), 0, m));
        encode_value(v, st, &mut body);
        proof {
            lemma_serials_push(vs.subrange(0, k as int), vs[k as int]);
            lemma_body_push(vs.subrange(0, k as int), vs[k as int]);
            assert(vs.subrange(0, k + 1) =~= vs.subrange(0, k as int).push(vs[k as int]));
        }
        k = k + 1;
    }
    proof {
        assert(vs.subrange(0, values@.len() as int) =~= vs);
        lemma_groups_le9(header_buf@.len() as nat);
    }
    let header_len = header_buf.len();
    let mut record: Vec<u8> = Vec::new();
    let h = write_varint(header_len as u64, &mut buf);
    append_bytes(&mut record, slice_subrange(buf.as_slice(), 0, h));
    append_bytes(&mut record, header_buf.as_slice());
    append_bytes(&mut record, body.as_slice());
    proof {
        assert(views(values@).len() == values@.len());
    }
    record
}

/// A value below `2^63` takes at most nine base-128 digits.
proof fn lemma_groups_le9(v: nat)
    requires
        v < 0x8000000000000000,
    ensures
        groups(v) <= 9,
{
    crate::varint::lemma_groups_below(v);
}

/// The characters that `String::from_utf8_lossy` makes of a byte string.
pub uninterp spec fn utf8_lossy(bytes: Seq<u8>) -> Seq<char>;

/// The text stored in `bytes`: their UTF-8 decoding when they are valid UTF-8.
pub open spec fn text_of(bytes: Seq<u8>) -> Seq<char> {
    if valid_utf8(bytes) {
        decode_utf8(bytes)
    } else {
        utf8_lossy(bytes)
    }
}

/// `String::from_utf8_lossy`: the text of valid UTF-8 is its decoding; any
/// other byte string gives the named result (with replacement characters).
#[verifier::external_body]
pub(crate) fn string_from_utf8_lossy(bytes: &[u8]) -> (s: String)
    ensures
        valid_utf8(bytes@) ==> s@ == decode_utf8(bytes@),
        !valid_utf8(bytes@) ==> s@ == utf8_lossy(bytes@),
{
    String::from_utf8_lossy(bytes).into_owned()
}

/// The message for a serial type that names no kind of value (8 to 11).
pub open spec fn invalid_serial_message(serial: nat) -> Seq<char> {
    if serial == 8 {
        "invalid serial type 8"@
    } else if serial == 9 {
        "invalid serial type 9"@
    } else if serial == 10 {
        "invalid serial type 10"@
    } else {
        "invalid serial type 11"@
    }
}

/// What decoding the value of serial type `serial` at `offset` in `data`
/// gives: the value and the number of bytes it takes, or the error message.
pub open spec fn serial_value(serial: nat, data: Seq<u8>, offset: int) -> Result<
    (ValueView, nat),
    Seq<char>,
> {
    if serial == 0 {
        Ok((ValueView::Null, 0))
    } else if serial <= 6 {
        let w = int_width(serial);
        if offset + w > data.len() {
            Err("truncated integer"@)
        } else {
            Ok((ValueView::Integer(le_int(data.subrange(offset, offset + w)) as i64), w))
        }
    } else if serial == 7 {
        if offset + 8 > data.len() {
            Err("truncated float"@)
        } else {
            Ok((ValueView::Real(le_uint(data.subrange(offset, offset + 8)) as u64), 8))
        }
    } else if serial >= 12 && serial % 2 == 0 {
        let len = ((serial - 12) / 2) as nat;
        if offset + len > data.len() {
            Err("truncated text"@)
        } else {
            Ok((ValueView::Text(text_of(data.subrange(offset, offset + len))), len))
        }
    } else if serial >= 13 && serial % 2 == 1 {
        let len = ((serial - 13) / 2) as nat;
        if offset + len > data.len() {
            Err("truncated blob"@)
        } else {
            Ok((ValueView::Blob(data.subrange(offset, offset + len)), len))
        }
    } else {
        Err(invalid_serial_message(serial))
    }
}

/// The `count` serial types read as varints from `offset` on.
pub open spec fn serials_at(data: Seq<u8>, offset: int, count: nat) -> Result<Seq<nat>, Seq<char>>
    decreases count,
{
    if count == 0 {
        Ok(seq![])
    } else {
        match varint_at(data, offset) {
            None => Err("truncated varint"@),
            Some((st, k)) => match serials_at(data, offset + k, (count - 1) as nat) {
                Ok(rest) => Ok(seq![st] + rest),
                Err(e) => Err(e),
            },
        }
    }
}

/// The values of the serial types `sts` decoded in turn from `offset` in `body`.
pub open spec fn values_at(body: Seq<u8>, offset: int, sts: Seq<nat>) -> Result<
    Seq<ValueView>,
    Seq<char>,
>
    decreases sts.len(),
{
    if sts.len() == 0 {
        Ok(seq![])
    } else {
        match serial_value(sts[0], body, offset) {
            Err(e) => Err(e),
            Ok((v, n)) => match values_at(body, offset + n, sts.drop_first()) {
                Ok(rest) => Ok(seq![v] + rest),
                Err(e) => Err(e),
            },
        }
    }
}

/// What decoding a record gives: its values, or the error message.
pub open spec fn decoded_record(data: Seq<u8>) -> Result<Seq<ValueView>, Seq<char>> {
    match varint_at(data, 0) {
        None => Err("truncated varint"@),
        Some((h, n)) => if n + h > data.len() {
            Err("truncated record header"@)
        } else {
            match varint_at(data, n as int) {
                None => Err("truncated varint"@),
                Some((c, m)) => match serials_at(data, (n + m) as int, c) {
                    Err(e) => Err(e),
                    Ok(sts) => values_at(data.subrange((n + h) as int, data.len() as int), 0, sts),
                },
            }
        }
    }
}

/// Decodes the value of serial type `serial` at `offset` in `data`; returns it
/// with the number of bytes it takes.
pub fn decode_serial(serial: u64, data: &[u8], offset: usize) -> (r: Result<(Value, usize), SqlliteError>)
    requires
        offset <= data@.len(),
    ensures
        match r {
            Ok((v, n)) => serial_value(serial as nat, data@, offset as int) == Ok::<
                (ValueView, nat),
                Seq<char>,
            >((v@, n as nat)),
            Err(e) => serial_value(serial as nat, data@, offset as int) matches Err(m)
                && is_sql_error(e, ResultCode::Corrupt, m),
        },
{
    let avail = data.len() - offset;
    if serial == SERIAL_NULL {
        return Ok((Value::Null, 0));
    }
    if serial <= SERIAL_INT64 {
        let w: usize = if serial == SERIAL_INT48 {
            6
        } else if serial == SERIAL_INT64 {
            8
        } else {
            serial as usize
        };
        if w > avail {
            return Err(SqlliteError::sql(ResultCode::Corrupt, "truncated integer"));
        }
        match read_int(data, offset, w) {
            Ok(v) => return Ok((Value::Integer(v), w)),
            Err(e) => return Err(e),
        }
    }
    if serial == SERIAL_FLOAT64 {
        if 8 > avail {
            return Err(SqlliteError::sql(ResultCode::Corrupt, "truncated float"));
        }
        let bits = read_le(data, offset, 8);
        return Ok((Value::Real(bits), 8));
    }
    if serial >= SERIAL_TEXT_MIN && serial % 2 == 0 {
        let len = (serial - SERIAL_TEXT_MIN) / 2;
        if len > avail as u64 {
            return Err(SqlliteError::sql(ResultCode::Corrupt, "truncated text"));
        }
        let len = len as usize;
        let text = string_from_utf8_lossy(slice_subrange(data, offset, offset + len));
        return Ok((Value::Text(text), len));
    }
    if serial >= SERIAL_BLOB_MIN && serial % 2 == 1 {
        let len = (serial - SERIAL_BLOB_MIN) / 2;
        if len > avail as u64 {
            return Err(SqlliteError::sql(ResultCode::Corrupt, "truncated blob"));
        }
        let len = len as usize;
        let blob = slice_to_vec(slice_subrange(data, offset, offset + len));
        return Ok((Value::Blob(blob), len));
    }
    let msg = if serial == 8 {
        "invalid serial type 8"
    } else if serial == 9 {
        "invalid serial type 9"
    } else if serial == 10 {
        "invalid serial type 10"
    } else {
        "invalid serial type 11"
    };
    Err(SqlliteError::sql(ResultCode::Corrupt, msg))
}

proof fn lemma_serial_value_len(serial: nat, data: Seq<u8>, offset: int)
    requires
        0 <= offset <= data.len(),
    ensures
        serial_value(serial, data, offset) is Ok ==> offset + serial_value(
            serial,
            data,
            offset,
        )->Ok_0.1 <= data.len(),
{
}

/// The serial types as numbers.
pub open spec fn nats(s: Seq<u64>) -> Seq<nat> {
    s.map_values(|x: u64| x as nat)
}

/// Decode a SQLite record blob into values.
///
/// Every failure is a `Corrupt` error whose message says what ran short:
/// "truncated varint", "truncated record header", "truncated integer", "truncated
/// float", "truncated text", "truncated blob", or "invalid serial type N".
pub fn decode_record(data: &[u8]) -> (r: Result<Vec<Value>, SqlliteError>)
    requires
        varint_at(data@, 0) matches Some((h, n)) ==> n + h <= u64::MAX,
    ensures
        match r {
            Ok(vs) => decoded_record(data@) == Ok::<Seq<ValueView>, Seq<char>>(views(vs@)),
            Err(e) => decoded_record(data@) matches Err(m) && is_sql_error(e, ResultCode::Corrupt, m),
        },
{
    let (header_size, n) = match read_varint(data, 0) {
        Ok(p) => p,
        Err(e) => return Err(e),
    };
    proof {
        crate::varint::lemma_varint_at_bound(data@, 0);
    }
    let header_end_u = n as u64 + header_size;
    if header_end_u > data.len() as u64 {
        return Err(SqlliteError::sql(ResultCode::Corrupt, "truncated record header"));
    }
    let header_end = header_end_u as usize;
    let (col_count, m) = match read_varint(data, n) {
        Ok(p) => p,
        Err(e) => return Err(e),
    };
    proof {
        crate::varint::lemma_varint_at_bound(data@, n as int);
    }
    let mut serial_types: Vec<u64> = Vec::new();
    let mut offset: usize = n + m;
    let mut i: u64 = 0;
    let ghost start = (n + m) as int;
    let ghost body_spec = data@.subrange(header_end as int, data@.len() as int);
    while i < col_count
        invariant
            i <= col_count,
            offset <= data@.len(),
            data@.len() <= usize::MAX,
            decoded_record(data@) == match serials_at(data@, start, col_count as nat) {
                Err(e) => Err(e),
                Ok(sts) => values_at(body_spec, 0, sts),
            },
            serials_at(data@, start, col_count as nat) == match serials_at(
                data@,
                offset as int,
                (col_count - i) as nat,
            ) {
                Ok(rest) => Ok(nats(serial_types@) + rest),
                Err(e) => Err(e),
            },
        decreases col_count - i,
    {
        let (st, k) = match read_varint(data, offset) {
            Ok(p) => p,
            Err(e) => return Err(e),
        };
        proof {
            crate::varint::lemma_varint_at_bound(data@, offset as int);
            assert(nats(serial_types@.push(st)) =~= nats(serial_types@) + seq![st as nat]);
            let tail = serials_at(data@, offset + k, (col_count - i - 1) as nat);
            if tail is Ok {
                assert(nats(serial_types@) + (seq![st as nat] + tail->Ok_0) =~= nats(
                    serial_types@.push(st),
                ) + tail->Ok_0);
            }
        }
        serial_types.push(st);
        offset = offset + k;
        i = i + 1;
    }
    let ghost sts = nats(serial_types@);
    proof {
        assert(nats(serial_types@) + Seq::<nat>::empty() =~= nats(serial_types@));
    }
    let body = slice_subrange(data, header_end, data.len());
    let mut values: Vec<Value> = Vec::new();
    let mut body_offset: usize = 0;
    let mut j: usize = 0;
    let _ = body.len();
    proof {
        assert(sts.subrange(0, sts.len() as int) =~= sts);
        assert(forall|rest: Seq<ValueView>| views(values@) + rest =~= rest);
    }
    while j < serial_types.len()
        invariant
            j <= serial_types@.len(),
            body@.len() <= usize::MAX,
            decoded_record(data@) == values_at(body@, 0, sts),
            sts == nats(serial_types@),
            body_offset <= body@.len(),
            values_at(body@, 0, sts) == match values_at(
                body@,
                body_offset as int,
                sts.subrange(j as int, sts.len() as int),
            ) {
                Ok(rest) => Ok(views(values@) + rest),
                Err(e) => Err(e),
            },
        decreases serial_types@.len() - j,
    {
        let ghost rest_sts = sts.subrange(j as int, sts.len() as int);
        proof {
            assert(rest_sts[0] == serial_types@[j as int] as nat);
            assert(rest_sts.drop_first() =~= sts.subrange(j + 1, sts.len() as int));
        }
        let (value, consumed) = match decode_serial(serial_types[j], body, body_offset) {
            Ok(p) => p,
            Err(e) => return Err(e),
        };
        proof {
            lemma_serial_value_len(serial_types@[j as int] as nat, body@, body_offset as int);
            assert(views(values@.push(value)) =~= views(values@) + seq![value@]);
            let tail = values_at(body@, body_offset + consumed, rest_sts.drop_first());
            if tail is Ok {
                assert(views(values@) + (seq![value@] + tail->Ok_0) =~= views(values@.push(value))
                    + tail->Ok_0);
            }
        }
        values.push(value);
        body_offset = body_offset + consumed;
        j = j + 1;
    }
    proof {
        assert(sts.subrange(j as int, sts.len() as int) =~= Seq::<nat>::empty());
        assert(views(values@) + Seq::<ValueView>::empty() =~= views(values@));
    }
    Ok(values)
}

/// The serial types of the values, in order.
pub open spec fn serial_types_of(vs: Seq<ValueView>) -> Seq<nat> {
    vs.map_values(|v: ValueView| serial_type_of(v))
}

/// For `i` within `128 * q` of zero and `u` its two's complement modulo `p * k`
/// (with `p == 256 * q`): `u` modulo `p` is `i` modulo `p`, and the digit of
/// weight `q` reaches 128 exactly when `i` is negative.
proof fn lemma_width_facts(i: int, u: int, p: int, q: int, k: int)
    requires
        q > 0,
        p == 256 * q,
        k >= 1,
        -128 * q <= i < 128 * q,
        u == if i >= 0 {
            i
        } else {
            i + p * k
        },
    ensures
        u % p == if i >= 0 {
            i
        } else {
            i + p
        },
        ((u / q) % 256 >= 128) == (i < 0),
{
    if i >= 0 {
        lemma_fundamental_div_mod_converse(u, p, 0, u);
        let t = u / q;
        let r0 = u % q;
        lemma_fundamental_div_mod(u, q);
        assert(t < 128) by (nonlinear_arith)
            requires
                u == q * t + r0,
                0 <= r0,
                u < 128 * q,
                q > 0,
        ;
        assert(t >= 0) by (nonlinear_arith)
            requires
                u == q * t + r0,
                r0 < q,
                u >= 0,
                q > 0,
        ;
        lemma_fundamental_div_mod_converse(t, 256, 0, t);
    } else {
        let a = i + p;
        assert(u == (k - 1) * p + a) by (nonlinear_arith)
            requires
                u == i + p * k,
                a == i + p,
        ;
        lemma_fundamental_div_mod_converse(u, p, k - 1, a);
        let t = a / q;
        let r0 = a % q;
        lemma_fundamental_div_mod(a, q);
        assert(128 <= t < 256) by (nonlinear_arith)
            requires
                a == q * t + r0,
                0 <= r0 < q,
                128 * q <= a < 256 * q,
                q > 0,
        ;
        assert(u == (256 * (k - 1) + t) * q + r0) by (nonlinear_arith)
            requires
                u == (k - 1) * p + a,
                a == q * t + r0,
                p == 256 * q,
        ;
        lemma_fundamental_div_mod_converse(u, q, 256 * (k - 1) + t, r0);
        lemma_fundamental_div_mod_converse(256 * (k - 1) + t, 256, k - 1, t);
    }
}

/// An integer written in the width of its serial type reads back as itself.
proof fn lemma_int_roundtrip(i: i64)
    ensures
        ({
            let w = int_width(serial_type_of(ValueView::Integer(i)));
            &&& le_bytes(i as u64 as nat, w).len() == w
            &&& le_int(le_bytes(i as u64 as nat, w)) == i
        }),
{
    let w = int_width(serial_type_of(ValueView::Integer(i)));
    let u = i as u64 as nat;
    lemma_pow256_values();
    lemma_le_bytes_len(u, w);
    lemma_le_roundtrip(u, w);
    lemma_le_last(u, w);
    assert((i as u64) as int == if i >= 0 {
        i as int
    } else {
        i + 0x10000000000000000
    }) by (bit_vector);
    let p = pow256(w) as int;
    let q = pow256((w - 1) as nat) as int;
    let k = pow256((8 - w) as nat) as int;
    if w == 1 {
        lemma_width_facts(i as int, u as int, p, q, k);
    } else if w == 2 {
        lemma_width_facts(i as int, u as int, p, q, k);
    } else if w == 3 {
        lemma_width_facts(i as int, u as int, p, q, k);
    } else if w == 4 {
        lemma_width_facts(i as int, u as int, p, q, k);
    } else if w == 6 {
        lemma_width_facts(i as int, u as int, p, q, k);
    } else {
        lemma_width_facts(i as int, u as int, p, q, k);
    }
}

/// The bytes of a value, read back under its serial type, give the value and
/// their own length.
proof fn lemma_value_roundtrip(v: ValueView, data: Seq<u8>, offset: int)
    requires
        0 <= offset,
        offset + value_bytes(v).len() <= data.len(),
        data.subrange(offset, offset + value_bytes(v).len()) == value_bytes(v),
    ensures
        serial_value(serial_type_of(v), data, offset) == Ok::<(ValueView, nat), Seq<char>>(
            (v, value_bytes(v).len()),
        ),
{
    match v {
        ValueView::Null => {},
        ValueView::Integer(i) => {
            lemma_int_roundtrip(i);
        },
        ValueView::Real(r) => {
            lemma_pow256_values();
            lemma_le_bytes_len(r as nat, 8);
            lemma_le_roundtrip(r as nat, 8);
        },
        ValueView::Text(t) => {
            encode_utf8_valid_utf8(t);
            encode_utf8_decode_utf8(t);
        },
        ValueView::Blob(b) => {},
    }
}

proof fn lemma_serials_roundtrip(vs: Seq<ValueView>, data: Seq<u8>, offset: int, rest: Seq<u8>)
    requires
        0 <= offset <= data.len(),
        data.subrange(offset, data.len() as int) == serials_bytes(vs) + rest,
        forall|i: int| 0 <= i < vs.len() ==> serial_type_of(#[trigger] vs[i]) < 0x100000000000000,
    ensures
        serials_at(data, offset, vs.len()) == Ok::<Seq<nat>, Seq<char>>(serial_types_of(vs)),
    decreases vs.len(),
{
    if vs.len() == 0 {
        assert(serial_types_of(vs) =~= Seq::<nat>::empty());
    } else {
        let st = serial_type_of(vs[0]);
        let tail = vs.drop_first();
        let vb = varint_bytes(st);
        let g = groups(st);
        assert(vb.len() == g);
        assert(g >= 1);
        assert(data.subrange(offset, data.len() as int) =~= vb + (serials_bytes(tail) + rest));
        lemma_varint_roundtrip(st, serials_bytes(tail) + rest);
        assert(varint_at(data, offset) == Some((st, g)));
        assert(data.subrange(offset + g, data.len() as int) =~= serials_bytes(tail) + rest) by {
            assert(data.subrange(offset + g, data.len() as int) =~= data.subrange(
                offset,
                data.len() as int,
            ).subrange(g as int, data.len() - offset));
        }
        assert forall|i: int| 0 <= i < tail.len() implies serial_type_of(
            #[trigger] tail[i],
        ) < 0x100000000000000 by {
            assert(tail[i] == vs[i + 1]);
        }
        lemma_serials_roundtrip(tail, data, offset + g, rest);
        assert(seq![st] + serial_types_of(tail) =~= serial_types_of(vs));
    }
}

proof fn lemma_values_roundtrip(vs: Seq<ValueView>, body: Seq<u8>, offset: int, rest: Seq<u8>)
    requires
        0 <= offset <= body.len(),
        body.subrange(offset, body.len() as int) == body_bytes(vs) + rest,
    ensures
        values_at(body, offset, serial_types_of(vs)) == Ok::<Seq<ValueView>, Seq<char>>(vs),
    decreases vs.len(),
{
    let sts = serial_types_of(vs);
    if vs.len() == 0 {
        assert(sts.len() == 0);
        assert(vs =~= Seq::<ValueView>::empty());
    } else {
        let v = vs[0];
        let tail = vs.drop_first();
        let vb = value_bytes(v);
        let n = vb.len();
        let sub = body.subrange(offset, body.len() as int);
        assert(sub =~= vb + (body_bytes(tail) + rest));
        assert(body.subrange(offset, offset + n) =~= vb) by {
            assert(body.subrange(offset, offset + n) =~= sub.subrange(0, n as int));
        }
        lemma_value_roundtrip(v, body, offset);
        assert(sts[0] == serial_type_of(v));
        assert(body.subrange(offset + n, body.len() as int) =~= body_bytes(tail) + rest) by {
            assert(body.subrange(offset + n, body.len() as int) =~= sub.subrange(
                n as int,
                sub.len() as int,
            ));
        }
        lemma_values_roundtrip(tail, body, offset + n, rest);
        assert(sts.drop_first() =~= serial_types_of(tail));
        assert(seq![v] + tail =~= vs);
    }
}

proof fn lemma_serials_len(vs: Seq<ValueView>)
    requires
        forall|i: int| 0 <= i < vs.len() ==> serial_type_of(#[trigger] vs[i]) < 0x100000000000000,
    ensures
        serials_bytes(vs).len() <= 9 * vs.len(),
    decreases vs.len(),
{
    if vs.len() > 0 {
        let tail = vs.drop_first();
        assert forall|i: int| 0 <= i < tail.len() implies serial_type_of(
            #[trigger] tail[i],
        ) < 0x100000000000000 by {
            assert(tail[i] == vs[i + 1]);
        }
        lemma_serials_len(tail);
        lemma_groups_le9(serial_type_of(vs[0]));
    }
}

/// Decoding an encoded record gives back its values, for every list of fewer
/// than `2^52` values whose serial types are below `2^56`. (A varint of
/// `2^56` or more does not read back: its ninth byte counts all eight bits.)
pub proof fn lemma_record_roundtrip(vs: Seq<ValueView>)
    requires
        vs.len() < 0x10000000000000,
        forall|i: int| 0 <= i < vs.len() ==> serial_type_of(#[trigger] vs[i]) < 0x100000000000000,
    ensures
        decoded_record(record_bytes(vs)) == Ok::<Seq<ValueView>, Seq<char>>(vs),
{
    let hdr = record_header(vs);
    let body = body_bytes(vs);
    let r = record_bytes(vs);
    lemma_serials_len(vs);
    lemma_groups_le9(vs.len());
    let hl = hdr.len();
    assert(hl < 0x100000000000000);
    let g = groups(hl);
    lemma_varint_roundtrip(hl, hdr + body);
    assert(r =~= varint_bytes(hl) + (hdr + body));
    assert(r.subrange(0, r.len() as int) =~= r);
    assert(varint_at(r, 0) == Some((hl, g)));
    assert(r.subrange(g as int, r.len() as int) =~= hdr + body);
    let c = vs.len();
    let gc = groups(c);
    lemma_varint_roundtrip(c, serials_bytes(vs) + body);
    assert(hdr + body =~= varint_bytes(c) + (serials_bytes(vs) + body));
    assert(varint_at(r, g as int) == Some((c, gc)));
    assert(r.subrange((g + gc) as int, r.len() as int) =~= serials_bytes(vs) + body) by {
        assert(r.subrange((g + gc) as int, r.len() as int) =~= r.subrange(g as int, r.len() as int).subrange(
            gc as int,
            r.len() - g,
        ));
    }
    lemma_serials_roundtrip(vs, r, (g + gc) as int, body);
    let b = r.subrange((g + hl) as int, r.len() as int);
    assert(b =~= body);
    assert(b.subrange(0, b.len() as int) =~= body_bytes(vs) + Seq::<u8>::empty());
    lemma_values_roundtrip(vs, b, 0, Seq::<u8>::empty());
}

/// The number of body bytes a value of serial type `serial` takes, for the
/// serial types a record may hold.
pub open spec fn content_size(serial: nat) -> Option<nat> {
    if serial == 0 {
        Some(0)
    } else if serial <= 6 {
        Some(int_width(serial))
    } else if serial == 7 {
        Some(8)
    } else if serial >= 12 && serial % 2 == 0 {
        Some(((serial - 12) / 2) as nat)
    } else if serial >= 13 && serial % 2 == 1 {
        Some(((serial - 13) / 2) as nat)
    } else {
        None
    }
}

/// The body bytes taken by the `count` serial types read as varints from
/// `offset` on, when they can be read and are valid.
pub open spec fn body_size_at(data: Seq<u8>, offset: int, count: nat) -> Option<nat>
    decreases count,
{
    if count == 0 {
        Some(0)
    } else {
        match varint_at(data, offset) {
            None => None,
            Some((st, k)) => match content_size(st) {
                None => None,
                Some(sz) => match body_size_at(data, offset + k, (count - 1) as nat) {
                    Some(t) => Some(sz + t),
                    None => None,
                },
            },
        }
    }
}

/// The length of the record at the front of `data`: its header and the
/// bodies its serial types call for.
pub open spec fn record_length(data: Seq<u8>) -> Option<nat> {
    match varint_at(data, 0) {
        None => None,
        Some((h, n)) => if n + h > data.len() {
            None
        } else {
            match varint_at(data, n as int) {
                None => None,
                Some((c, m)) => match body_size_at(data, (n + m) as int, c) {
                    Some(b) => Some(n + h + b),
                    None => None,
                },
            }
        },
    }
}

/// The length of the record that `data` holds, which must span `data`
/// exactly; fails with `Corrupt` "malformed record" otherwise.
pub fn record_byte_length(data: &[u8]) -> (r: Result<usize, SqlliteError>)
    ensures
        match r {
            Ok(n) => n == data@.len() && record_length(data@) == Some(data@.len()),
            Err(e) => record_length(data@) != Some(data@.len()) && is_sql_error(
                e,
                ResultCode::Corrupt,
                "malformed record"@,
            ),
        },
{
    let len = data.len();
    let (h, n) = match read_varint(data, 0) {
        Ok(p) => p,
        Err(_) => return Err(SqlliteError::sql(ResultCode::Corrupt, "malformed record")),
    };
    proof {
        lemma_varint_at_bound(data@, 0);
    }
    if h > (len - n) as u64 {
        return Err(SqlliteError::sql(ResultCode::Corrupt, "malformed record"));
    }
    let (count, m) = match read_varint(data, n) {
        Ok(p) => p,
        Err(_) => return Err(SqlliteError::sql(ResultCode::Corrupt, "malformed record")),
    };
    proof {
        lemma_varint_at_bound(data@, n as int);
    }
    let head = n + h as usize;
    let mut offset = n + m;
    let mut left = count;
    let mut body: usize = 0;
    while left > 0
        invariant
            len == data@.len(),
            offset <= len,
            head <= len,
            body <= len,
            varint_at(data@, 0) == Some((h as nat, n as nat)),
            n + h <= len,
            head == n + h,
            varint_at(data@, n as int) == Some((count as nat, m as nat)),
            body_size_at(data@, (n + m) as int, count as nat) == match body_size_at(
                data@,
                offset as int,
                left as nat,
            ) {
                Some(t) => Some((t + body) as nat),
                None => None,
            },
        decreases left,
    {
        let (st, k) = match read_varint(data, offset) {
            Ok(p) => p,
            Err(_) => return Err(SqlliteError::sql(ResultCode::Corrupt, "malformed record")),
        };
        proof {
            lemma_varint_at_bound(data@, offset as int);
            lemma_body_size_step(data@, offset as int, left as nat);
        }
        let size: u64 = if st == 0 {
            0
        } else if st <= 4 {
            st
        } else if st == 5 {
            6
        } else if st <= 7 {
            8
        } else if st >= 12 && st % 2 == 0 {
            (st - 12) / 2
        } else if st >= 13 && st % 2 == 1 {
            (st - 13) / 2
        } else {
            return Err(SqlliteError::sql(ResultCode::Corrupt, "malformed record"));
        };
        assert(content_size(st as nat) == Some(size as nat));
        if size > (len - body) as u64 {
            proof {
                lemma_body_size_at_least(data@, offset + k, (left - 1) as nat);
            }
            return Err(SqlliteError::sql(ResultCode::Corrupt, "malformed record"));
        }
        body = body + size as usize;
        offset = offset + k;
        left = left - 1;
    }
    if body > len - head || head + body != len {
        return Err(SqlliteError::sql(ResultCode::Corrupt, "malformed record"));
    }
    Ok(len)
}

proof fn lemma_body_size_step(data: Seq<u8>, offset: int, count: nat)
    requires
        count > 0,
    ensures
        body_size_at(data, offset, count) == match varint_at(data, offset) {
            None => None,
            Some((st, k)) => match content_size(st) {
                None => None,
                Some(sz) => match body_size_at(data, offset + k, (count - 1) as nat) {
                    Some(t) => Some(sz + t),
                    None => None,
                },
            },
        },
{
}

proof fn lemma_body_size_at_least(data: Seq<u8>, offset: int, count: nat)
    ensures
        body_size_at(data, offset, count) matches Some(t) ==> t >= 0,
{
}

} // verus!
