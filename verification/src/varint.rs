//! SQLite variable-length integer encoding.
//!
//! A varint is written as base-128 digits, most significant first; every byte
//! but the last carries the high bit. It takes at most nine bytes: a value of
//! `2^56` or more is written as eight digits of its high bits followed by a
//! ninth byte that holds all eight of its low bits.

use vstd::prelude::*;

use crate::error::{is_sql_error, ResultCode, SqlliteError};

verus! {

/// Maximum bytes in a varint.
pub const MAX_VARINT_LEN: usize = 9;

/// `128` to the power `k`.
pub open spec fn pow128(k: nat) -> nat
    decreases k,
{
    if k == 0 {
        1
    } else {
        pow128((k - 1) as nat) * 128
    }
}

/// The number of bytes of the varint of `v`: its base-128 digits below
/// `2^56`, else nine.
pub open spec fn groups(v: nat) -> nat {
    if v < 0x100000000000000 {
        digits(v)
    } else {
        9
    }
}

/// Number of base-128 digits of `v` (at least one).
pub open spec fn digits(v: nat) -> nat
    decreases v,
{
    if v < 128 {
        1
    } else {
        1 + digits(v / 128)
    }
}

/// The `k`-th base-128 digit of `v`, counting from the least significant.
pub open spec fn digit(v: nat, k: nat) -> nat {
    (v / pow128(k)) % 128
}

/// The bytes of `v` as base-128 digits, most significant first, every byte
/// but the last with its high bit set.
pub open spec fn digit_bytes(v: nat) -> Seq<u8> {
    let n = digits(v);
    Seq::new(
        n,
        |j: int|
            (digit(v, (n - 1 - j) as nat) + if j < n - 1 {
                128nat
            } else {
                0nat
            }) as u8,
    )
}

/// The bytes that `write_varint` produces for `v`: its digits below `2^56`;
/// else nine bytes, the first eight holding the base-128 digits of `v / 256`
/// with their high bits set, the ninth the low eight bits of `v`.
pub open spec fn varint_bytes(v: nat) -> Seq<u8> {
    if v < 0x100000000000000 {
        digit_bytes(v)
    } else {
        Seq::new(
            9,
            |j: int|
                if j < 8 {
                    (digit(v / 256, (7 - j) as nat) + 128) as u8
                } else {
                    (v % 256) as u8
                },
        )
    }
}

/// Decoding of the bytes `s[i..]`, `acc` being the value of the digits read before.
pub open spec fn decode_varint_from(s: Seq<u8>, i: nat, acc: nat) -> Option<(nat, nat)>
    decreases 9 - i,
{
    if i >= s.len() || i >= 9 {
        None
    } else if i == 8 {
        Some((acc * 256 + s[8] as nat, 9nat))
    } else {
        let acc2 = acc * 128 + (s[i as int] % 128) as nat;
        if s[i as int] < 128 {
            Some((acc2, (i + 1) as nat))
        } else {
            decode_varint_from(s, (i + 1) as nat, acc2)
        }
    }
}

/// The value and length of the varint at the front of `s`, if there is one.
pub open spec fn decode_varint(s: Seq<u8>) -> Option<(nat, nat)> {
    decode_varint_from(s, 0, 0)
}

/// The varint that starts at `offset` in `data`.
pub open spec fn varint_at(data: Seq<u8>, offset: int) -> Option<(nat, nat)> {
    if 0 <= offset < data.len() {
        decode_varint(data.subrange(offset, data.len() as int))
    } else {
        None
    }
}

/// Zigzag mapping of a signed value to an unsigned one.
pub open spec fn zigzag_encode(v: int) -> nat {
    if v < 0 {
        (2 * (-v - 1) + 1) as nat
    } else {
        (2 * v) as nat
    }
}

/// Inverse of the zigzag mapping.
pub open spec fn zigzag_decode(u: nat) -> int {
    if u % 2 == 1 {
        -((u / 2) as int) - 1
    } else {
        (u / 2) as int
    }
}

proof fn lemma_pow128_pos(k: nat)
    ensures
        pow128(k) >= 1,
    decreases k,
{
    if k > 0 {
        lemma_pow128_pos((k - 1) as nat);
    }
}

proof fn lemma_pow128_values()
    ensures
        pow128(8) == 0x100000000000000,
        pow128(9) == 0x8000000000000000,
{
    reveal_with_fuel(pow128, 10);
}

proof fn lemma_div_step(v: nat, k: nat)
    ensures
        (v / pow128(k)) / 128 == v / pow128(k + 1),
{
    lemma_pow128_pos(k);
    vstd::arithmetic::div_mod::lemma_div_denominator(v as int, pow128(k) as int, 128);
}

/// A value below `128^k` (with `k >= 1`) has at most `k` digits.
proof fn lemma_groups_bound(v: nat, k: nat)
    requires
        k >= 1,
        v < pow128(k),
    ensures
        digits(v) <= k,
    decreases k,
{
    if v >= 128 {
        if k == 1 {
            assert(pow128(1) == 128) by {
                reveal_with_fuel(pow128, 2);
            }
        } else {
            let p = pow128((k - 1) as nat);
            assert(v / 128 < p) by (nonlinear_arith)
                requires
                    v < p * 128,
            ;
            lemma_groups_bound(v / 128, (k - 1) as nat);
        }
    }
}

/// A value with `n` digits lies below `128^n`.
proof fn lemma_groups_upper(v: nat)
    ensures
        v < pow128(digits(v)),
    decreases v,
{
    if v >= 128 {
        lemma_groups_upper(v / 128);
        let p = pow128(digits(v / 128));
        assert(v < p * 128) by (nonlinear_arith)
            requires
                v / 128 < p,
        ;
    } else {
        assert(pow128(1) == 128) by {
            reveal_with_fuel(pow128, 2);
        }
    }
}

proof fn lemma_decode_suffix(v: nat, s: Seq<u8>, j: nat)
    requires
        digits(v) <= 8,
        j < digits(v),
        s.len() >= digits(v),
        s.subrange(0, digits(v) as int) == digit_bytes(v),
    ensures
        decode_varint_from(s, j, v / pow128((digits(v) - j) as nat)) == Some((v, digits(v))),
    decreases digits(v) - j,
{
    let n = digits(v);
    let k = (n - 1 - j) as nat;
    let q = v / pow128(k);
    lemma_div_step(v, k);
    assert(k + 1 == n - j);
    let acc = v / pow128((n - j) as nat);
    assert(acc == q / 128);
    assert(s[j as int] == digit_bytes(v)[j as int]);
    assert(digit(v, k) == q % 128);
    assert(s[j as int] % 128 == q % 128);
    assert(acc * 128 + q % 128 == q) by (nonlinear_arith)
        requires
            acc == q / 128,
    ;
    assert(j < 8 && j < s.len());
    if j + 1 < n {
        assert(s[j as int] >= 128);
        assert(decode_varint_from(s, j, acc) == decode_varint_from(s, j + 1, q));
        lemma_decode_suffix(v, s, j + 1);
        assert((n - (j + 1)) as nat == k);
    } else {
        assert(s[j as int] < 128);
        assert(k == 0);
        assert(pow128(0) == 1);
        assert(v / 1 == v) by (nonlinear_arith);
        assert(q == v);
        assert(decode_varint_from(s, j, acc) == Some((q, (j + 1) as nat)));
    }
}

/// Decoding the nine bytes of a value of `2^56` or more, from byte `j` on,
/// with the digits of `v / 256` before `j` already read.
proof fn lemma_decode_nine(v: nat, s: Seq<u8>, j: nat)
    requires
        0x100000000000000 <= v <= u64::MAX,
        j <= 8,
        s.len() >= 9,
        s.subrange(0, 9) == varint_bytes(v),
    ensures
        decode_varint_from(s, j, (v / 256) / pow128((8 - j) as nat)) == Some((v, 9nat)),
    decreases 8 - j,
{
    let w = v / 256;
    if j == 8 {
        assert(pow128(0) == 1);
        assert(w / 1 == w) by (nonlinear_arith);
        assert(s[8] == varint_bytes(v)[8]);
        assert(w * 256 + v % 256 == v) by (nonlinear_arith)
            requires
                w == v / 256,
        ;
    } else {
        let k = (7 - j) as nat;
        let q = w / pow128(k);
        lemma_div_step(w, k);
        assert(k + 1 == 8 - j);
        let acc = w / pow128((8 - j) as nat);
        assert(acc == q / 128);
        assert(s[j as int] == varint_bytes(v)[j as int]);
        assert(digit(w, k) == q % 128);
        assert(s[j as int] == q % 128 + 128);
        assert(s[j as int] % 128 == q % 128);
        assert(acc * 128 + q % 128 == q) by (nonlinear_arith)
            requires
                acc == q / 128,
        ;
        assert(decode_varint_from(s, j, acc) == decode_varint_from(s, j + 1, q));
        lemma_decode_nine(v, s, j + 1);
        assert((8 - (j + 1)) as nat == k);
    }
}

/// Reading back what `write_varint` wrote gives the value and the length
/// written, for every 64-bit value.
pub proof fn lemma_varint_roundtrip(v: nat, rest: Seq<u8>)
    requires
        v <= u64::MAX,
    ensures
        decode_varint(varint_bytes(v) + rest) == Some((v, groups(v))),
        varint_bytes(v).len() == groups(v),
        1 <= groups(v) <= 9,
{
    lemma_pow128_values();
    let s = varint_bytes(v) + rest;
    if v < 0x100000000000000 {
        lemma_groups_bound(v, 8);
        assert(s.subrange(0, digits(v) as int) == digit_bytes(v));
        lemma_decode_suffix(v, s, 0);
        lemma_groups_upper(v);
        assert(v / pow128(digits(v)) == 0) by (nonlinear_arith)
            requires
                v < pow128(digits(v)),
        ;
    } else {
        assert(s.subrange(0, 9) == varint_bytes(v));
        lemma_decode_nine(v, s, 0);
        assert(v / 256 < 0x100000000000000) by (nonlinear_arith)
            requires
                v <= u64::MAX,
        ;
        assert((v / 256) / pow128(8) == 0) by (nonlinear_arith)
            requires
                v / 256 < pow128(8),
        ;
    }
}

/// Zigzag decoding undoes zigzag encoding.
pub proof fn lemma_zigzag_roundtrip(v: int)
    ensures
        zigzag_decode(zigzag_encode(v)) == v,
{
}

proof fn lemma_decode_bound(s: Seq<u8>, i: nat, acc: nat)
    requires
        i <= 8,
        acc < pow128(i),
    ensures
        decode_varint_from(s, i, acc) matches Some((v, n)) ==> v < 0x10000000000000000 && n <= 9,
    decreases 9 - i,
{
    lemma_pow128_values();
    if i < s.len() && i < 9 {
        if i == 8 {
            assert(acc * 256 + (s[8] as nat) < 0x10000000000000000) by (nonlinear_arith)
                requires
                    acc < 0x100000000000000,
                    s[8] < 256,
            ;
        } else {
            let acc2 = acc * 128 + (s[i as int] % 128) as nat;
            assert(acc2 < pow128(i) * 128) by (nonlinear_arith)
                requires
                    acc < pow128(i),
                    s[i as int] % 128 < 128,
                    acc2 == acc * 128 + (s[i as int] % 128) as nat,
            ;
            assert(pow128(i + 1) == pow128(i) * 128);
            if i + 1 <= 7 {
                lemma_pow_mono(i + 1, 8);
            }
            if s[i as int] >= 128 {
                lemma_decode_bound(s, i + 1, acc2);
            } else {
                lemma_pow_mono(i + 1, 8);
            }
        }
    }
}

proof fn lemma_pow_mono(a: nat, b: nat)
    requires
        a <= b,
    ensures
        pow128(a) <= pow128(b),
    decreases b - a,
{
    if a < b {
        lemma_pow_mono(a, (b - 1) as nat);
        lemma_pow128_pos((b - 1) as nat);
    }
}

/// The varint at `offset` always fits a `u64`, takes at most nine bytes and
/// ends within the data.
pub proof fn lemma_varint_at_bound(data: Seq<u8>, offset: int)
    ensures
        varint_at(data, offset) matches Some((v, n)) ==> v <= u64::MAX && 1 <= n <= 9 && offset
            + n <= data.len(),
{
    if 0 <= offset < data.len() {
        let s = data.subrange(offset, data.len() as int);
        assert(pow128(0) == 1);
        lemma_decode_bound(s, 0, 0);
        lemma_decode_len(s, 0, 0);
    }
}

proof fn lemma_decode_len(s: Seq<u8>, i: nat, acc: nat)
    ensures
        decode_varint_from(s, i, acc) matches Some((v, n)) ==> n > i && n <= s.len(),
    decreases 9 - i,
{
    if i < s.len() && i < 8 && s[i as int] >= 128 {
        lemma_decode_len(s, i + 1, acc * 128 + (s[i as int] % 128) as nat);
    }
}

/// Read a varint from `data` starting at `offset`. Returns (value, bytes_consumed).
pub fn read_varint(data: &[u8], offset: usize) -> (r: Result<(u64, usize), SqlliteError>)
    ensures
        match r {
            Ok((v, n)) => varint_at(data@, offset as int) == Some((v as nat, n as nat)),
            Err(e) => varint_at(data@, offset as int) is None && is_sql_error(
                e,
                ResultCode::Corrupt,
                "truncated varint"@,
            ),
        },
{
    if offset >= data.len() {
        return Err(SqlliteError::sql(ResultCode::Corrupt, "truncated varint"));
    }
    let ghost s = data@.subrange(offset as int, data@.len() as int);
    let mut result: u64 = 0;
    let mut i: usize = 0;
    proof {
        lemma_pow128_values();
    }
    loop
        invariant
            offset < data.len(),
            s == data@.subrange(offset as int, data@.len() as int),
            i <= 8,
            result < pow128(i as nat),
            decode_varint(s) == decode_varint_from(s, i as nat, result as nat),
            pow128(8) == 0x100000000000000,
        decreases 9 - i,
    {
        if i >= data.len() - offset {
            return Err(SqlliteError::sql(ResultCode::Corrupt, "truncated varint"));
        }
        let byte = data[offset + i];
        assert(byte == s[i as int]);
        if i == MAX_VARINT_LEN - 1 {
            assert((result as nat) * 256 + (byte as nat) <= u64::MAX) by (nonlinear_arith)
                requires
                    result < 0x100000000000000,
                    byte < 256,
            ;
            let v = result * 256 + byte as u64;
            return Ok((v, MAX_VARINT_LEN));
        }
        assert((result as nat) * 128 + ((byte % 128) as nat) < pow128(i as nat) * 128) by (nonlinear_arith)
            requires
                result < pow128(i as nat),
                byte % 128 < 128,
        ;
        proof {
            lemma_pow_mono((i + 1) as nat, 8);
        }
        result = result * 128 + (byte % 128) as u64;
        if byte < 128 {
            return Ok((result, i + 1));
        }
        i = i + 1;
    }
}

/// Write a varint to `buf`. Returns number of bytes written.
pub fn write_varint(value: u64, buf: &mut [u8]) -> (n: usize)
    requires
        old(buf)@.len() >= groups(value as nat),
    ensures
        n == groups(value as nat),
        1 <= n <= MAX_VARINT_LEN,
        final(buf)@.len() == old(buf)@.len(),
        final(buf)@.subrange(0, n as int) == varint_bytes(value as nat),
        final(buf)@.subrange(n as int, old(buf)@.len() as int) == old(buf)@.subrange(
            n as int,
            old(buf)@.len() as int,
        ),
{
    let n = varint_len(value);
    let ghost bytes = varint_bytes(value as nat);
    proof {
        lemma_pow128_pos(0);
        lemma_pow128_values();
    }
    if value >= 0x100_0000_0000_0000 {
        let w0 = value / 256;
        buf[8] = (value % 256) as u8;
        let mut w = w0;
        let mut k: usize = 0;
        while k < 8
            invariant
                n == 9,
                bytes == varint_bytes(value as nat),
                value >= 0x100000000000000,
                w0 == value / 256,
                k <= 8,
                w as nat == w0 as nat / pow128(k as nat),
                buf@.len() == old(buf)@.len(),
                old(buf)@.len() >= 9,
                buf@[8] == bytes[8],
                forall|j: int| 8 - k <= j < 8 ==> buf@[j] == bytes[j],
                forall|j: int| 9 <= j < buf@.len() ==> buf@[j] == old(buf)@[j],
            decreases 8 - k,
        {
            let pos = 7 - k;
            let b: u8 = (w % 128) as u8 + 128;
            proof {
                assert(digit(w0 as nat, k as nat) == w % 128);
                assert(bytes[pos as int] == b);
                lemma_div_step(w0 as nat, k as nat);
            }
            buf[pos] = b;
            w = w / 128;
            k = k + 1;
        }
        assert(buf@.subrange(0, 9) =~= bytes);
        assert(buf@.subrange(9, old(buf)@.len() as int) =~= old(buf)@.subrange(
            9,
            old(buf)@.len() as int,
        ));
        return 9;
    }
    proof {
        lemma_groups_bound(value as nat, 8);
    }
    let mut v = value;
    let mut k: usize = 0;
    while k < n
        invariant
            n == digits(value as nat),
            n <= 8,
            value < 0x100000000000000,
            bytes == digit_bytes(value as nat),
            k <= n,
            v as nat == value as nat / pow128(k as nat),
            buf@.len() == old(buf)@.len(),
            old(buf)@.len() >= n,
            forall|j: int| n - k <= j < n ==> buf@[j] == bytes[j],
            forall|j: int| n <= j < buf@.len() ==> buf@[j] == old(buf)@[j],
        decreases n - k,
    {
        let pos = n - 1 - k;
        let d = (v % 128) as u8;
        let b: u8 = if pos < n - 1 { d + 128 } else { d };
        proof {
            assert(digit(value as nat, k as nat) == v % 128);
            assert(bytes[pos as int] == b);
            lemma_div_step(value as nat, k as nat);
        }
        buf[pos] = b;
        v = v / 128;
        k = k + 1;
    }
    assert(final(buf)@.subrange(0, n as int) =~= bytes);
    assert(final(buf)@.subrange(n as int, old(buf)@.len() as int) =~= old(buf)@.subrange(
        n as int,
        old(buf)@.len() as int,
    ));
    n
}

/// Compute the number of bytes needed to encode a varint.
pub fn varint_len(value: u64) -> (n: usize)
    ensures
        n == groups(value as nat),
        1 <= n <= MAX_VARINT_LEN,
{
    proof {
        lemma_pow128_values();
        if value < 0x100000000000000 {
            lemma_groups_bound(value as nat, 8);
        }
    }
    if value >= 0x100_0000_0000_0000 {
        return 9;
    }
    if value == 0 {
        return 1;
    }
    let mut v = value;
    let mut len: usize = 0;
    while v > 0
        invariant
            value > 0,
            digits(value as nat) <= 8,
            v > 0 ==> len + digits(v as nat) == digits(value as nat),
            v == 0 ==> len == digits(value as nat),
        decreases v,
    {
        v = v / 128;
        len = len + 1;
    }
    len
}

/// Every 64-bit value takes at most nine bytes.
pub(crate) proof fn lemma_groups_below(v: nat)
    requires
        v <= u64::MAX,
    ensures
        1 <= groups(v) <= 9,
{
    lemma_pow128_values();
    if v < 0x100000000000000 {
        lemma_groups_bound(v, 8);
    }
}

/// Read a signed varint (zigzag encoded).
pub fn read_signed_varint(data: &[u8], offset: usize) -> (r: Result<(i64, usize), SqlliteError>)
    ensures
        match r {
            Ok((v, n)) => varint_at(data@, offset as int) matches Some((u, m)) && m == n
                && v as int == zigzag_decode(u),
            Err(e) => varint_at(data@, offset as int) is None && is_sql_error(
                e,
                ResultCode::Corrupt,
                "truncated varint"@,
            ),
        },
{
    let (uv, n) = read_varint(data, offset)?;
    let half = uv / 2;
    let v = if uv % 2 == 1 {
        -(half as i64) - 1
    } else {
        half as i64
    };
    assert(varint_at(data@, offset as int) == Some((uv as nat, n as nat)));
    Ok((v, n))
}

/// Write a signed varint (zigzag encoded).
pub fn write_signed_varint(value: i64, buf: &mut [u8]) -> (n: usize)
    requires
        -0x4000000000000000 <= value < 0x4000000000000000,
        old(buf)@.len() >= groups(zigzag_encode(value as int)),
    ensures
        n == groups(zigzag_encode(value as int)),
        final(buf)@.len() == old(buf)@.len(),
        final(buf)@.subrange(0, n as int) == varint_bytes(zigzag_encode(value as int)),
        final(buf)@.subrange(n as int, old(buf)@.len() as int) == old(buf)@.subrange(
            n as int,
            old(buf)@.len() as int,
        ),
{
    let uv: u64 = if value < 0 {
        ((-value - 1) as u64) * 2 + 1
    } else {
        (value as u64) * 2
    };
    write_varint(uv, buf)
}

} // verus!
