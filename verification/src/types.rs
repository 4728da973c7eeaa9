//! SQL values, column affinity and page numbers.

use vstd::prelude::*;

use crate::text::{all_digits, digits_value, lemma_digits_nonneg, lemma_digits_step};

verus! {

/// Page number type.
pub type PageNo = u32;

/// Invalid page number.
pub const INVALID_PAGE: PageNo = 0;

/// Column affinity types.
#[derive(Debug, Clone, Copy, PartialEq, Eq, Hash, Default, Structural)]
pub enum Affinity {
    #[default]
    Text,
    Numeric,
    Integer,
    Real,
    Blob,
}

/// The affinity a type letter stands for; unknown letters mean `Numeric`.
pub open spec fn affinity_of_char(c: char) -> Affinity {
    if c == 't' || c == 'T' {
        Affinity::Text
    } else if c == 'i' || c == 'I' {
        Affinity::Integer
    } else if c == 'r' || c == 'R' {
        Affinity::Real
    } else if c == 'b' || c == 'B' {
        Affinity::Blob
    } else {
        Affinity::Numeric
    }
}

/// The lower-case letter of an affinity.
pub open spec fn char_of_affinity(a: Affinity) -> char {
    match a {
        Affinity::Text => 't',
        Affinity::Numeric => 'n',
        Affinity::Integer => 'i',
        Affinity::Real => 'r',
        Affinity::Blob => 'b',
    }
}

impl Affinity {
    pub fn from_char(c: char) -> (a: Affinity)
        ensures
            a == affinity_of_char(c),
    {
        match c {
            't' | 'T' => Affinity::Text,
            'i' | 'I' => Affinity::Integer,
            'r' | 'R' => Affinity::Real,
            'b' | 'B' => Affinity::Blob,
            _ => Affinity::Numeric,
        }
    }

    pub fn as_char(self) -> (c: char)
        ensures
            c == char_of_affinity(self),
    {
        match self {
            Affinity::Text => 't',
            Affinity::Numeric => 'n',
            Affinity::Integer => 'i',
            Affinity::Real => 'r',
            Affinity::Blob => 'b',
        }
    }
}

/// A SQL value stored in a register or column. A real number is held by the
/// bit pattern of its IEEE 754 double, so that records carry it exactly.
#[derive(Debug, Clone, PartialEq)]
pub enum Value {
    Null,
    Integer(i64),
    Real(u64),
    Text(String),
    Blob(Vec<u8>),
}

/// The mathematical value of a `Value`: text as its characters, a blob as its bytes.
pub enum ValueView {
    Null,
    Integer(i64),
    Real(u64),
    Text(Seq<char>),
    Blob(Seq<u8>),
}

impl View for Value {
    type V = ValueView;

    open spec fn view(&self) -> ValueView {
        match self {
            Value::Null => ValueView::Null,
            Value::Integer(i) => ValueView::Integer(*i),
            Value::Real(r) => ValueView::Real(*r),
            Value::Text(s) => ValueView::Text(s@),
            Value::Blob(b) => ValueView::Blob(b@),
        }
    }
}

/// The affinity a value has by its kind; NULL counts as text.
pub open spec fn affinity_of_value(v: ValueView) -> Affinity {
    match v {
        ValueView::Null => Affinity::Text,
        ValueView::Integer(_) => Affinity::Integer,
        ValueView::Real(_) => Affinity::Real,
        ValueView::Text(_) => Affinity::Text,
        ValueView::Blob(_) => Affinity::Blob,
    }
}

impl Default for Value {
    fn default() -> (v: Value)
        ensures
            v is Null,
    {
        Value::Null
    }
}

impl Value {
    pub fn is_null(&self) -> (b: bool)
        ensures
            b == (self is Null),
    {
        matches!(self, Value::Null)
    }

    /// The value as an integer: an integer as it is, a real toward zero as
    /// `as i64` converts it, a text as `str::parse::<i64>` reads it;
    /// `None` for NULL, a blob, or a text that is no integer.
    pub fn as_integer(&self) -> (r: Option<i64>)
        ensures
            r == match self@ {
                ValueView::Integer(i) => Some(i),
                ValueView::Real(b) => Some(double_to_i64(b)),
                ValueView::Text(t) => parsed_i64(t),
                _ => None,
            },
    {
        match self {
            Value::Integer(i) => Some(*i),
            Value::Real(b) => Some(double_bits_to_i64(*b)),
            Value::Text(t) => parse_i64(t.as_str()),
            Value::Null => None,
            Value::Blob(_) => None,
        }
    }

    /// The text of a text value; every other kind gives `None`.
    pub fn as_text(&self) -> (t: Option<&str>)
        ensures
            match self@ {
                ValueView::Text(s) => t is Some && t->0@ == s,
                _ => t is None,
            },
    {
        match self {
            Value::Text(s) => Some(s.as_str()),
            Value::Integer(_) => None,
            Value::Real(_) => None,
            Value::Null => None,
            Value::Blob(_) => None,
        }
    }

    pub fn affinity(&self) -> (a: Affinity)
        ensures
            a == affinity_of_value(self@),
    {
        match self {
            Value::Null => Affinity::Text,
            Value::Integer(_) => Affinity::Integer,
            Value::Real(_) => Affinity::Real,
            Value::Text(_) => Affinity::Text,
            Value::Blob(_) => Affinity::Blob,
        }
    }
}

/// Two to the power `k`.
pub open spec fn two_to(k: nat) -> nat
    decreases k,
{
    if k == 0 {
        1
    } else {
        2 * two_to((k - 1) as nat)
    }
}

proof fn lemma_two_to_grows(j: nat, k: nat)
    requires
        j <= k,
    ensures
        1 <= two_to(j) <= two_to(k),
    decreases k,
{
    if k > j {
        lemma_two_to_grows(j, (k - 1) as nat);
    } else if k > 0 {
        lemma_two_to_grows(0, (k - 1) as nat);
    }
}

/// The integer that the double with bits `bits` converts to, as `as i64`
/// converts it: toward zero, NaN as 0, saturating at the ends of `i64`.
pub open spec fn double_to_i64(bits: u64) -> i64 {
    let neg = bits >= 0x8000_0000_0000_0000u64;
    let e = (bits / 0x10_0000_0000_0000u64) % 0x800;
    let m = bits % 0x10_0000_0000_0000u64;
    if (e == 0x7FF && m != 0) || e < 1023 {
        0
    } else {
        let full = 0x10_0000_0000_0000int + m;
        let mag = if e >= 1075 {
            full * two_to((e - 1075) as nat)
        } else {
            full / (two_to((1075 - e) as nat) as int)
        };
        if neg {
            if mag >= 0x8000_0000_0000_0000int {
                i64::MIN
            } else {
                (-mag) as i64
            }
        } else {
            if mag >= 0x8000_0000_0000_0000int {
                i64::MAX
            } else {
                mag as i64
            }
        }
    }
}

/// Converts the double with bits `bits` as `as i64` does.
pub fn double_bits_to_i64(bits: u64) -> (r: i64)
    ensures
        r == double_to_i64(bits),
{
    let neg = bits >= 0x8000_0000_0000_0000u64;
    let e = (bits / 0x10_0000_0000_0000u64) % 0x800;
    let m = bits % 0x10_0000_0000_0000u64;
    if (e == 0x7FF && m != 0) || e < 1023 {
        return 0;
    }
    let full: u128 = 0x10_0000_0000_0000u128 + m as u128;
    let mag: u128 = if e >= 1075 {
        let shift = e - 1075;
        if shift >= 11 {
            proof {
                lemma_two_to_grows(11, shift as nat);
                reveal_with_fuel(two_to, 12);
                let t = two_to(shift as nat);
                assert(full * t >= 0x8000_0000_0000_0000int) by (nonlinear_arith)
                    requires
                        full >= 0x10_0000_0000_0000int,
                        t >= 2048,
                ;
            }
            0x8000_0000_0000_0000u128
        } else {
            let mut v: u128 = full;
            let mut k: u64 = 0;
            assert(two_to(0) == 1);
            while k < shift
                invariant
                    k <= shift <= 10,
                    full < 0x20_0000_0000_0000u128,
                    v == full * two_to(k as nat),
                    two_to(k as nat) <= 1024,
                    v <= 0x8000_0000_0000_0000u128,
                decreases shift - k,
            {
                proof {
                    lemma_two_to_grows((k + 1) as nat, 10);
                    reveal_with_fuel(two_to, 11);
                }
                v = v * 2;
                k = k + 1;
                proof {
                    assert(v == full * two_to(k as nat)) by (nonlinear_arith)
                        requires
                            v == 2 * (full * two_to((k - 1) as nat)),
                            two_to(k as nat) == 2 * two_to((k - 1) as nat),
                    ;
                    let t = two_to(k as nat);
                    assert(full * t <= 0x8000_0000_0000_0000int) by (nonlinear_arith)
                        requires
                            full < 0x20_0000_0000_0000int,
                            t <= 1024,
                    ;
                }
            }
            v
        }
    } else {
        let d = 1075 - e;
        let mut p: u64 = 1;
        let mut k: u64 = 0;
        assert(two_to(0) == 1);
        while k < d
            invariant
                k <= d <= 52,
                p == two_to(k as nat),
                p >= 1,
            decreases d - k,
        {
            proof {
                lemma_two_to_grows((k + 1) as nat, 52);
                reveal_with_fuel(two_to, 53);
            }
            p = p * 2;
            k = k + 1;
        }
        (full / p as u128)
    };
    if neg {
        if mag >= 0x8000_0000_0000_0000u128 {
            i64::MIN
        } else {
            -(mag as i64)
        }
    } else {
        if mag >= 0x8000_0000_0000_0000u128 {
            i64::MAX
        } else {
            mag as i64
        }
    }
}

/// The number a text reads as, as `str::parse::<i64>` reads it: an
/// optional sign and then one decimal digit or more, within `i64`.
pub open spec fn parsed_i64(s: Seq<char>) -> Option<i64> {
    let neg = s.len() > 0 && s[0] == '-';
    let d = if s.len() > 0 && (s[0] == '+' || s[0] == '-') {
        s.drop_first()
    } else {
        s
    };
    if d.len() > 0 && all_digits(d) {
        let v = if neg {
            -digits_value(d)
        } else {
            digits_value(d)
        };
        if i64::MIN <= v <= i64::MAX {
            Some(v as i64)
        } else {
            None
        }
    } else {
        None
    }
}

/// Reads a text as `str::parse::<i64>` does.
pub fn parse_i64(s: &str) -> (r: Option<i64>)
    ensures
        r == parsed_i64(s@),
{
    let cs = crate::text::chars_of(s);
    let n = cs.len();
    let neg = n > 0 && cs[0] == '-';
    let start: usize = if n > 0 && (cs[0] == '+' || cs[0] == '-') {
        1
    } else {
        0
    };
    let ghost d = if s@.len() > 0 && (s@[0] == '+' || s@[0] == '-') {
        s@.drop_first()
    } else {
        s@
    };
    assert(d =~= cs@.subrange(start as int, n as int));
    if start == n {
        return None;
    }
    let cap: u128 = 0x8000_0000_0000_0001;
    let mut acc: u128 = 0;
    let mut k = start;
    while k < n
        invariant
            start <= k <= n,
            n == cs@.len(),
            cs@ == s@,
            cap == 0x8000_0000_0000_0001,
            d == cs@.subrange(start as int, n as int),
            d == (if s@.len() > 0 && (s@[0] == '+' || s@[0] == '-') {
                s@.drop_first()
            } else {
                s@
            }),
            all_digits(cs@.subrange(start as int, k as int)),
            acc as int == (if digits_value(cs@.subrange(start as int, k as int)) < cap {
                digits_value(cs@.subrange(start as int, k as int))
            } else {
                cap as int
            }),
        decreases n - k,
    {
        let c = cs[k];
        if c < '0' || c > '9' {
            assert(d[k - start] == c);
            return None;
        }
        let digit = (c as u32 - '0' as u32) as u128;
        proof {
            lemma_digits_step(d, k - start);
            assert(d.subrange(0, k - start) =~= cs@.subrange(start as int, k as int));
            assert(d.subrange(0, k + 1 - start) =~= cs@.subrange(start as int, k + 1));
            lemma_digits_nonneg(cs@.subrange(start as int, k as int));
        }
        acc = acc * 10 + digit;
        if acc > cap {
            acc = cap;
        }
        k = k + 1;
        proof {
            assert forall|j: int| 0 <= j < cs@.subrange(start as int, k as int).len() implies '0'
                <= #[trigger] cs@.subrange(start as int, k as int)[j] <= '9' by {
                if j < k - 1 - start {
                    assert(cs@.subrange(start as int, k as int)[j] == cs@.subrange(
                        start as int,
                        k - 1,
                    )[j]);
                }
            }
        }
    }
    assert(cs@.subrange(start as int, n as int) == d);
    proof {
        lemma_digits_nonneg(d);
    }
    if neg {
        if acc > 0x8000_0000_0000_0000 {
            None
        } else if acc == 0x8000_0000_0000_0000 {
            Some(i64::MIN)
        } else {
            Some(-(acc as i64))
        }
    } else {
        if acc > 0x7fff_ffff_ffff_ffff {
            None
        } else {
            Some(acc as i64)
        }
    }
}

/// Reading back the letter of an affinity gives the same affinity.
pub proof fn lemma_affinity_char_roundtrip(a: Affinity)
    ensures
        affinity_of_char(char_of_affinity(a)) == a,
{
}

} // verus!
