//! The SQL lexer: source text to tokens, by the longest match at each
//! place, keywords before identifiers of the same length, with blanks and
//! comments skipped and text that no token matches left out.

use vstd::prelude::*;

use crate::text::{
    ascii_lowercase, chars_of, digits_value, lemma_digits_nonneg, lemma_digits_step, lower_char,
    same_chars, string_of, string_of_range,
};
use vstd::utf8::{encode_scalar, encode_utf8};
use crate::token::{
    index_of, is_unit_index, keyword_str, keyword_text, token_index, unit_token, SpannedToken, Token, AT_PARAM, BACKTICK_IDENT, BLOB_LIT, DOLLAR_PARAM, IDENT,
    INTEGER_LIT, KEYWORD_COUNT, NAMED_PARAM, QUOTED_IDENT, REAL_LIT, STRING_LIT,
};

verus! {

/// The text of the inside of a quoted literal: a doubled quote stands for
/// one quote, and a backslash takes the next character as it is (a final
/// backslash gives nothing).
pub open spec fn unescaped(s: Seq<char>) -> Seq<char>
    decreases s.len(),
{
    if s.len() == 0 {
        seq![]
    } else if s[0] == '\'' {
        if s.len() >= 2 && s[1] == '\'' {
            seq!['\''] + unescaped(s.subrange(2, s.len() as int))
        } else {
            seq!['\''] + unescaped(s.subrange(1, s.len() as int))
        }
    } else if s[0] == '\\' {
        if s.len() >= 2 {
            seq![s[1]] + unescaped(s.subrange(2, s.len() as int))
        } else {
            seq![]
        }
    } else {
        seq![s[0]] + unescaped(s.subrange(1, s.len() as int))
    }
}

/// Unescapes the inside of a quoted SQL string literal.
pub fn unescape_sql_string(s: &str) -> (out: String)
    ensures
        out@ == unescaped(s@),
{
    let cs = chars_of(s);
    let n = cs.len();
    let mut result: Vec<char> = Vec::new();
    let mut i: usize = 0;
    proof {
        assert(cs@.subrange(0, n as int) =~= cs@);
    }
    while i < n
        invariant
            n == cs@.len(),
            cs@ == s@,
            i <= n,
            result@ + unescaped(cs@.subrange(i as int, n as int)) == unescaped(s@),
        decreases n - i,
    {
        let ghost rest = cs@.subrange(i as int, n as int);
        let c = cs[i];
        proof {
            assert(rest[0] == c);
        }
        if c == '\'' {
            if i + 1 < n && cs[i + 1] == '\'' {
                proof {
                    assert(rest[1] == cs@[i + 1]);
                    assert(rest.subrange(2, rest.len() as int) =~= cs@.subrange(i + 2, n as int));
                }
                result.push('\'');
                i = i + 2;
            } else {
                proof {
                    if i + 1 < n {
                        assert(rest[1] == cs@[i + 1]);
                    }
                    assert(rest.subrange(1, rest.len() as int) =~= cs@.subrange(i + 1, n as int));
                }
                result.push('\'');
                i = i + 1;
            }
        } else if c == '\\' {
            if i + 1 < n {
                proof {
                    assert(rest[1] == cs@[i + 1]);
                    assert(rest.subrange(2, rest.len() as int) =~= cs@.subrange(i + 2, n as int));
                }
                result.push(cs[i + 1]);
                i = i + 2;
            } else {
                proof {
                    assert(cs@.subrange(n as int, n as int) =~= Seq::<char>::empty());
                }
                i = i + 1;
            }
        } else {
            proof {
                assert(rest.subrange(1, rest.len() as int) =~= cs@.subrange(i + 1, n as int));
            }
            result.push(c);
            i = i + 1;
        }
        proof {
            assert(result@ + unescaped(cs@.subrange(i as int, n as int)) =~= unescaped(s@));
        }
    }
    proof {
        assert(cs@.subrange(n as int, n as int) =~= Seq::<char>::empty());
        assert(result@ + Seq::<char>::empty() =~= result@);
    }
    string_of(result.as_slice())
}


/// A decimal digit.
pub open spec fn is_digit(c: char) -> bool {
    '0' <= c <= '9'
}

/// A hexadecimal digit.
pub open spec fn is_hex_digit(c: char) -> bool {
    is_digit(c) || ('a' <= c <= 'f') || ('A' <= c <= 'F')
}

/// A character that may begin an identifier: an ASCII letter or `_`.
pub open spec fn is_ident_start(c: char) -> bool {
    ('a' <= c <= 'z') || ('A' <= c <= 'Z') || c == '_'
}

/// A character that may continue an identifier.
pub open spec fn is_ident_char(c: char) -> bool {
    is_ident_start(c) || is_digit(c)
}

/// A blank: space, tab, carriage return, line feed or form feed.
pub open spec fn is_blank(c: char) -> bool {
    c == ' ' || c == '\t' || c == '\r' || c == '\n' || c == '\x0C'
}

pub open spec fn digit_class() -> spec_fn(char) -> bool {
    |c: char| is_digit(c)
}

pub open spec fn hex_class() -> spec_fn(char) -> bool {
    |c: char| is_hex_digit(c)
}

pub open spec fn ident_class() -> spec_fn(char) -> bool {
    |c: char| is_ident_char(c)
}

pub open spec fn blank_class() -> spec_fn(char) -> bool {
    |c: char| is_blank(c)
}

pub open spec fn line_class() -> spec_fn(char) -> bool {
    |c: char| c != '\n'
}

/// Where the run of characters of class `p` that starts at `i` ends.
pub open spec fn run_end(s: Seq<char>, i: int, p: spec_fn(char) -> bool) -> int
    decreases s.len() - i,
{
    if 0 <= i < s.len() && p(s[i]) {
        run_end(s, i + 1, p)
    } else {
        i
    }
}

/// A run ends no earlier than it starts, and within the text.
pub proof fn lemma_run_end_bounds(s: Seq<char>, i: int, p: spec_fn(char) -> bool)
    requires
        0 <= i <= s.len(),
    ensures
        i <= run_end(s, i, p) <= s.len(),
        forall|j: int| i <= j < run_end(s, i, p) ==> p(#[trigger] s[j]),
        run_end(s, i, p) < s.len() ==> !p(s[run_end(s, i, p)]),
    decreases s.len() - i,
{
    if i < s.len() && p(s[i]) {
        lemma_run_end_bounds(s, i + 1, p);
    }
}

/// The run that starts at `i` ends at `k` when every character from `i` to
/// `k` has the class and the one at `k`, if any, has not.
pub proof fn lemma_run_end_at(s: Seq<char>, i: int, k: int, p: spec_fn(char) -> bool)
    requires
        0 <= i <= k <= s.len(),
        forall|j: int| i <= j < k ==> p(#[trigger] s[j]),
        k < s.len() ==> !p(s[k]),
    ensures
        run_end(s, i, p) == k,
    decreases k - i,
{
    if i < k {
        lemma_run_end_at(s, i + 1, k, p);
    }
}

/// Where the block comment whose text begins at `k` (after `/*`) is
/// closed by `*/`: each `*` before the close is taken with the character
/// after it.
pub open spec fn comment_close(s: Seq<char>, k: int) -> Option<int>
    decreases s.len() - k,
{
    if k < 0 || k >= s.len() {
        None
    } else if s[k] == '*' {
        if k + 1 < s.len() && s[k + 1] == '/' {
            Some(k + 2)
        } else if k + 1 < s.len() {
            comment_close(s, k + 2)
        } else {
            None
        }
    } else {
        comment_close(s, k + 1)
    }
}

/// Scanning the inside of a literal quoted by `q` from `k`: the end of the
/// longest complete literal, and where the scan stops when there is none.
/// A doubled quote stands inside; a backslash takes the next character but
/// a line feed.
pub open spec fn quoted_scan(s: Seq<char>, k: int, q: char) -> (Option<int>, int)
    decreases s.len() - k,
{
    if k < 0 || k >= s.len() {
        (None, s.len() as int)
    } else if s[k] == q {
        if k + 1 < s.len() && s[k + 1] == q {
            let r = quoted_scan(s, k + 2, q);
            (
                if r.0 is Some {
                    r.0
                } else {
                    Some(k + 1)
                },
                r.1,
            )
        } else {
            (Some(k + 1), k + 1)
        }
    } else if s[k] == '\\' {
        if k + 1 < s.len() && s[k + 1] != '\n' {
            quoted_scan(s, k + 2, q)
        } else {
            (None, k + 1)
        }
    } else {
        quoted_scan(s, k + 1, q)
    }
}


/// The class numbered `sel`: digits, hexadecimal digits, identifier
/// characters, blanks, or all but the line feed.
pub open spec fn class_of(sel: u8) -> spec_fn(char) -> bool {
    if sel == 0 {
        digit_class()
    } else if sel == 1 {
        hex_class()
    } else if sel == 2 {
        ident_class()
    } else if sel == 3 {
        blank_class()
    } else {
        line_class()
    }
}

fn in_class(c: char, sel: u8) -> (b: bool)
    ensures
        b == (class_of(sel))(c),
{
    if sel == 0 {
        '0' <= c && c <= '9'
    } else if sel == 1 {
        ('0' <= c && c <= '9') || ('a' <= c && c <= 'f') || ('A' <= c && c <= 'F')
    } else if sel == 2 {
        ('a' <= c && c <= 'z') || ('A' <= c && c <= 'Z') || c == '_' || ('0' <= c && c <= '9')
    } else if sel == 3 {
        c == ' ' || c == '\t' || c == '\r' || c == '\n' || c == '\x0C'
    } else {
        c != '\n'
    }
}

/// Where the run of characters of class `sel` that starts at `i` ends.
fn scan_run(cs: &Vec<char>, i: usize, sel: u8) -> (e: usize)
    requires
        i <= cs@.len(),
    ensures
        e == run_end(cs@, i as int, class_of(sel)),
        i <= e <= cs@.len(),
{
    let mut k = i;
    while k < cs.len() && in_class(cs[k], sel)
        invariant
            i <= k <= cs@.len(),
            forall|j: int| i <= j < k ==> (class_of(sel))(#[trigger] cs@[j]),
        decreases cs@.len() - k,
    {
        k = k + 1;
    }
    proof {
        lemma_run_end_at(cs@, i as int, k as int, class_of(sel));
    }
    k
}

/// Where the block comment whose text begins at `k` is closed.
fn scan_comment(cs: &Vec<char>, k: usize) -> (r: Option<usize>)
    requires
        k <= cs@.len(),
    ensures
        match r {
            Some(e) => comment_close(cs@, k as int) == Some(e as int) && e <= cs@.len(),
            None => comment_close(cs@, k as int) is None,
        },
{
    let n = cs.len();
    let mut j = k;
    while j < n
        invariant
            k <= j <= n + 1,
            n == cs@.len(),
            comment_close(cs@, k as int) == comment_close(cs@, j as int),
        decreases n + 1 - j,
    {
        if cs[j] == '*' {
            if j + 1 < n && cs[j + 1] == '/' {
                return Some(j + 2);
            } else if j + 1 < n {
                j = j + 2;
            } else {
                return None;
            }
        } else {
            j = j + 1;
        }
    }
    None
}

/// Scans the inside of a literal quoted by `q` from `k`.
fn scan_quoted(cs: &Vec<char>, k: usize, q: char) -> (r: (Option<usize>, usize))
    requires
        k <= cs@.len(),
    ensures
        quoted_scan(cs@, k as int, q) == (
            match r.0 {
                Some(e) => Some(e as int),
                None => None,
            },
            r.1 as int,
        ),
        r.0 matches Some(e) ==> k < e <= cs@.len(),
        k <= r.1 <= cs@.len(),
{
    let n = cs.len();
    let mut j = k;
    let mut last: Option<usize> = None;
    while j < n
        invariant
            k <= j <= n,
            n == cs@.len(),
            last matches Some(e) ==> k < e <= j,
            quoted_scan(cs@, k as int, q) == (
                if quoted_scan(cs@, j as int, q).0 is Some {
                    quoted_scan(cs@, j as int, q).0
                } else {
                    match last {
                        Some(e) => Some(e as int),
                        None => None,
                    }
                },
                quoted_scan(cs@, j as int, q).1,
            ),
        decreases n - j,
    {
        if cs[j] == q {
            if j + 1 < n && cs[j + 1] == q {
                last = Some(j + 1);
                j = j + 2;
            } else {
                return (Some(j + 1), j + 1);
            }
        } else if cs[j] == '\\' {
            if j + 1 < n && cs[j + 1] != '\n' {
                j = j + 2;
            } else {
                return (last, j + 1);
            }
        } else {
            j = j + 1;
        }
    }
    (last, n)
}


/// The place among the keywords, from the `k`-th on, of the keyword `w`.
pub open spec fn keyword_from(w: Seq<char>, k: int) -> Option<int>
    decreases KEYWORD_COUNT - k,
{
    if k < 0 || k >= KEYWORD_COUNT {
        None
    } else if keyword_text(k) == w {
        Some(k)
    } else {
        keyword_from(w, k + 1)
    }
}

/// The place of the keyword `w`, in lower case, among the keywords.
pub open spec fn keyword_index(w: Seq<char>) -> Option<int> {
    keyword_from(w, 0)
}

/// The value of an integer literal: decimal digits after an optional `-`.
pub open spec fn integer_text_value(t: Seq<char>) -> int {
    if t.len() > 0 && t[0] == '-' {
        -digits_value(t.drop_first())
    } else {
        digits_value(t)
    }
}

/// The end of a blob literal `x'..'` (or `X'..'`) of hexadecimal digits
/// that starts at `i`, when there is one.
pub open spec fn blob_end(s: Seq<char>, i: int) -> Option<int> {
    if 0 <= i && i + 1 < s.len() && (s[i] == 'x' || s[i] == 'X') && s[i + 1] == '\'' {
        let h = run_end(s, i + 2, hex_class());
        if h < s.len() && s[h] == '\'' {
            Some(h + 1)
        } else {
            None
        }
    } else {
        None
    }
}

/// The number literal that starts at `i` (digits after an optional `-`):
/// whether it is real (digits, a point and digits, then an optional
/// exponent) and where it ends.
pub open spec fn number_scan(s: Seq<char>, i: int) -> (bool, int) {
    let a = if s[i] == '-' {
        i + 1
    } else {
        i
    };
    let d = run_end(s, a, digit_class());
    if d + 1 < s.len() && s[d] == '.' && is_digit(s[d + 1]) {
        let f = run_end(s, d + 1, digit_class());
        let g = if f + 1 < s.len() && (s[f] == 'e' || s[f] == 'E') {
            if s[f + 1] == '+' || s[f + 1] == '-' {
                f + 2
            } else {
                f + 1
            }
        } else {
            -1
        };
        if 0 <= g < s.len() && is_digit(s[g]) {
            (true, run_end(s, g, digit_class()))
        } else {
            (true, f)
        }
    } else {
        (false, d)
    }
}

/// The operator (or `?`) that starts at `i`: the token's place and its
/// end; an error of one character when there is none.
pub open spec fn operator_step(s: Seq<char>, i: int) -> (int, int) {
    let c = s[i];
    let d = if i + 1 < s.len() {
        s[i + 1]
    } else {
        ' '
    };
    if c == '|' && d == '|' {
        (token_index(Token::Concat), i + 2)
    } else if c == '=' && d == '=' {
        (token_index(Token::EqEq), i + 2)
    } else if (c == '!' && d == '=') || (c == '<' && d == '>') {
        (token_index(Token::NotEq), i + 2)
    } else if c == '<' && d == '=' {
        (token_index(Token::Le), i + 2)
    } else if c == '>' && d == '=' {
        (token_index(Token::Ge), i + 2)
    } else if c == '<' && d == '<' {
        (token_index(Token::Shl), i + 2)
    } else if c == '>' && d == '>' {
        (token_index(Token::Shr), i + 2)
    } else if c == '?' {
        (token_index(Token::BindParam), i + 1)
    } else if c == '=' {
        (token_index(Token::Eq), i + 1)
    } else if c == '<' {
        (token_index(Token::Lt), i + 1)
    } else if c == '>' {
        (token_index(Token::Gt), i + 1)
    } else if c == '+' {
        (token_index(Token::Plus), i + 1)
    } else if c == '*' {
        (token_index(Token::Star), i + 1)
    } else if c == '%' {
        (token_index(Token::Percent), i + 1)
    } else if c == '&' {
        (token_index(Token::Amp), i + 1)
    } else if c == '|' {
        (token_index(Token::Pipe), i + 1)
    } else if c == '~' {
        (token_index(Token::Tilde), i + 1)
    } else if c == '(' {
        (token_index(Token::LParen), i + 1)
    } else if c == ')' {
        (token_index(Token::RParen), i + 1)
    } else if c == ',' {
        (token_index(Token::Comma), i + 1)
    } else if c == ';' {
        (token_index(Token::Semi), i + 1)
    } else if c == '.' {
        (token_index(Token::Dot), i + 1)
    } else {
        (-2, i + 1)
    }
}

/// What is read at `i`, by the longest match: the place of the token, or
/// -1 for blanks and comments, or -2 for text no token matches (or an
/// integer too large, or a blob of an odd number of digits); and where it
/// ends.
#[verifier::opaque]
pub open spec fn lex_step(s: Seq<char>, i: int) -> (int, int) {
    let c = s[i];
    let has_next = i + 1 < s.len();
    if is_blank(c) {
        (-1, run_end(s, i, blank_class()))
    } else if is_ident_start(c) {
        match blob_end(s, i) {
            Some(e) => if (e - i) % 2 == 1 {
                (BLOB_LIT as int, e)
            } else {
                (-2, e)
            },
            None => {
                let e = run_end(s, i, ident_class());
                match keyword_index(ascii_lowercase(s.subrange(i, e))) {
                    Some(k) => (k, e),
                    None => (IDENT as int, e),
                }
            },
        }
    } else if is_digit(c) || (c == '-' && has_next && is_digit(s[i + 1])) {
        let r = number_scan(s, i);
        if r.0 {
            (REAL_LIT as int, r.1)
        } else if i64::MIN <= integer_text_value(s.subrange(i, r.1)) <= i64::MAX {
            (INTEGER_LIT as int, r.1)
        } else {
            (-2, r.1)
        }
    } else if c == '-' {
        if has_next && s[i + 1] == '-' {
            (-1, run_end(s, i + 2, line_class()))
        } else {
            (token_index(Token::Minus), i + 1)
        }
    } else if c == '/' {
        if has_next && s[i + 1] == '*' && comment_close(s, i + 2) is Some {
            (-1, comment_close(s, i + 2)->0)
        } else {
            (token_index(Token::Slash), i + 1)
        }
    } else if c == '\'' || c == '"' || c == '`' {
        let r = quoted_scan(s, i + 1, c);
        match r.0 {
            Some(e) => (
                if c == '\'' {
                    STRING_LIT as int
                } else if c == '"' {
                    QUOTED_IDENT as int
                } else {
                    BACKTICK_IDENT as int
                },
                e,
            ),
            None => (-2, r.1),
        }
    } else if (c == ':' || c == '@' || c == '$') && has_next && is_ident_start(s[i + 1]) {
        (
            if c == ':' {
                NAMED_PARAM as int
            } else if c == '@' {
                AT_PARAM as int
            } else {
                DOLLAR_PARAM as int
            },
            run_end(s, i + 1, ident_class()),
        )
    } else {
        operator_step(s, i)
    }
}

/// The tokens read from `i` on: for each, its place, start and end.
pub open spec fn lex_from(s: Seq<char>, i: int) -> Seq<(int, int, int)>
    decreases s.len() - i,
{
    if i < 0 || i >= s.len() {
        seq![]
    } else {
        let r = lex_step(s, i);
        if r.1 <= i || r.1 > s.len() {
            seq![]
        } else if r.0 >= 0 {
            seq![(r.0, i, r.1)] + lex_from(s, r.1)
        } else {
            lex_from(s, r.1)
        }
    }
}


/// The value of a hexadecimal digit.
pub open spec fn hex_value(c: char) -> int {
    if is_digit(c) {
        c as int - '0' as int
    } else if 'a' <= c <= 'f' {
        c as int - 'a' as int + 10
    } else {
        c as int - 'A' as int + 10
    }
}

/// The bytes that pairs of hexadecimal digits stand for.
pub open spec fn hex_bytes(h: Seq<char>) -> Seq<u8>
    decreases h.len(),
{
    if h.len() < 2 {
        seq![]
    } else {
        seq![(hex_value(h[0]) * 16 + hex_value(h[1])) as u8] + hex_bytes(h.subrange(2, h.len() as int))
    }
}

/// `s` with each doubled `q` made single, from left to right.
pub open spec fn undoubled(s: Seq<char>, q: char) -> Seq<char>
    decreases s.len(),
{
    if s.len() == 0 {
        seq![]
    } else if s.len() >= 2 && s[0] == q && s[1] == q {
        seq![q] + undoubled(s.subrange(2, s.len() as int), q)
    } else {
        seq![s[0]] + undoubled(s.subrange(1, s.len() as int), q)
    }
}

/// Whether `t` is the token of place `kind` read from `text`, `real_value` being
/// the value of a real literal.
pub open spec fn token_fits(t: Token, kind: int, text: Seq<char>, real_value: u64) -> bool {
    &&& token_index(t) == kind
    &&& match t {
        Token::IntegerLit(v) => v == integer_text_value(text),
        Token::RealLit(b) => b == real_value,
        Token::StringLit(x) => x@ == unescaped(text.subrange(1, text.len() - 1)),
        Token::QuotedIdent(x) => x@ == undoubled(text.subrange(1, text.len() - 1), '"'),
        Token::BacktickIdent(x) => x@ == undoubled(text.subrange(1, text.len() - 1), '`'),
        Token::BlobLit(b) => b@ == hex_bytes(text.subrange(2, text.len() - 1)),
        Token::Ident(x) => x@ == text,
        Token::NamedParam(x) => x@ == text.drop_first(),
        Token::AtParam(x) => x@ == text.drop_first(),
        Token::DollarParam(x) => x@ == text.drop_first(),
        _ => true,
    }
}

/// The offset in bytes, in UTF-8, of the `i`-th character.
pub open spec fn byte_offset(s: Seq<char>, i: int) -> int {
    encode_utf8(s.subrange(0, i)).len() as int
}

/// The number of real literals among the first `k` tokens read.
pub open spec fn reals_before(items: Seq<(int, int, int)>, k: int) -> int
    decreases k,
{
    if k <= 0 {
        0
    } else {
        reals_before(items, k - 1) + if items[k - 1].0 == REAL_LIT {
            1int
        } else {
            0int
        }
    }
}

/// The number of real literals in `s`.
pub open spec fn real_literal_count(s: Seq<char>) -> int {
    reals_before(lex_from(s, 0), lex_from(s, 0).len() as int)
}

/// `tokens` are the tokens read from `s`, with their spans in bytes, the
/// real literals taking the values `reals` in order.
pub open spec fn lexed(tokens: Seq<SpannedToken>, s: Seq<char>, reals: Seq<u64>) -> bool {
    let items = lex_from(s, 0);
    &&& tokens.len() == items.len()
    &&& forall|k: int|
        0 <= k < tokens.len() ==> {
            let it = items[k];
            &&& token_fits(
                (#[trigger] tokens[k]).token,
                it.0,
                s.subrange(it.1, it.2),
                reals[reals_before(items, k)],
            )
            &&& tokens[k].start == byte_offset(s, it.1)
            &&& tokens[k].end == byte_offset(s, it.2)
        }
}


proof fn lemma_comment_close_bounds(s: Seq<char>, k: int)
    requires
        0 <= k,
    ensures
        comment_close(s, k) matches Some(e) ==> k < e <= s.len(),
    decreases s.len() - k,
{
    if k < s.len() {
        if s[k] == '*' {
            if k + 1 < s.len() && s[k + 1] != '/' {
                lemma_comment_close_bounds(s, k + 2);
            }
        } else {
            lemma_comment_close_bounds(s, k + 1);
        }
    }
}

proof fn lemma_quoted_scan_bounds(s: Seq<char>, k: int, q: char)
    requires
        0 <= k <= s.len(),
    ensures
        quoted_scan(s, k, q).0 matches Some(e) ==> k < e <= s.len(),
        k <= quoted_scan(s, k, q).1 <= s.len(),
    decreases s.len() - k,
{
    if k < s.len() {
        if s[k] == q {
            if k + 1 < s.len() && s[k + 1] == q {
                lemma_quoted_scan_bounds(s, k + 2, q);
            }
        } else if s[k] == '\\' {
            if k + 1 < s.len() && s[k + 1] != '\n' {
                lemma_quoted_scan_bounds(s, k + 2, q);
            }
        } else {
            lemma_quoted_scan_bounds(s, k + 1, q);
        }
    }
}

/// Each read moves on, and stays within the text.
pub proof fn lemma_lex_step_bounds(s: Seq<char>, i: int)
    requires
        0 <= i < s.len(),
    ensures
        i < lex_step(s, i).1 <= s.len(),
{
    reveal(lex_step);
    let c = s[i];
    lemma_run_end_bounds(s, i, blank_class());
    lemma_run_end_bounds(s, i, ident_class());
    lemma_run_end_bounds(s, i + 1, ident_class());
    if i + 1 < s.len() {
        lemma_run_end_bounds(s, i + 2, line_class());
        lemma_run_end_bounds(s, i + 2, hex_class());
        lemma_comment_close_bounds(s, i + 2);
    }
    lemma_quoted_scan_bounds(s, i + 1, c);
    if is_digit(c) || (c == '-' && i + 1 < s.len() && is_digit(s[i + 1])) {
        let a = if c == '-' {
            i + 1
        } else {
            i
        };
        lemma_run_end_bounds(s, a, digit_class());
        let d = run_end(s, a, digit_class());
        if d + 1 < s.len() && s[d] == '.' && is_digit(s[d + 1]) {
            lemma_run_end_bounds(s, d + 1, digit_class());
            let f = run_end(s, d + 1, digit_class());
            if f + 1 < s.len() {
                lemma_run_end_bounds(s, f + 1, digit_class());
                if f + 2 <= s.len() {
                    lemma_run_end_bounds(s, f + 2, digit_class());
                }
            }
        }
    }
}

/// The place of the keyword `w` among the keywords.
fn find_keyword(w: &Vec<char>) -> (r: Option<usize>)
    ensures
        keyword_index(w@) == match r {
            Some(k) => Some(k as int),
            None => None,
        },
        r matches Some(k) ==> k < KEYWORD_COUNT,
{
    let mut k: usize = 0;
    while k < KEYWORD_COUNT
        invariant
            k <= KEYWORD_COUNT,
            keyword_index(w@) == keyword_from(w@, k as int),
        decreases KEYWORD_COUNT - k,
    {
        let kw = chars_of(keyword_str(k));
        if same_chars(w, &kw) {
            return Some(k);
        }
        k = k + 1;
    }
    None
}

/// The characters `cs[from..to]` with ASCII capitals made small.
fn lowered_range(cs: &Vec<char>, from: usize, to: usize) -> (r: Vec<char>)
    requires
        from <= to <= cs@.len(),
    ensures
        r@ == ascii_lowercase(cs@.subrange(from as int, to as int)),
{
    let mut r: Vec<char> = Vec::new();
    let mut k = from;
    while k < to
        invariant
            from <= k <= to <= cs@.len(),
            r@ == ascii_lowercase(cs@.subrange(from as int, k as int)),
        decreases to - k,
    {
        r.push(lower_char(cs[k]));
        k = k + 1;
        proof {
            assert(ascii_lowercase(cs@.subrange(from as int, k as int)) =~= ascii_lowercase(
                cs@.subrange(from as int, k - 1),
            ).push(crate::text::ascii_lower(cs@[k - 1])));
        }
    }
    r
}

proof fn lemma_capped_step(v: int, d: int, cap: int)
    requires
        v >= 0,
        0 <= d <= 9,
        cap > 0,
    ensures
        (if 10 * (if v < cap {
            v
        } else {
            cap
        }) + d < cap {
            10 * (if v < cap {
                v
            } else {
                cap
            }) + d
        } else {
            cap
        }) == (if 10 * v + d < cap {
            10 * v + d
        } else {
            cap
        }),
{
}

/// The value of the integer literal `cs[from..to]` when it fits in `i64`.
fn integer_at(cs: &Vec<char>, from: usize, to: usize) -> (r: Option<i64>)
    requires
        from < to <= cs@.len(),
        cs@[from as int] == '-' ==> from + 1 < to,
        forall|j: int| from <= j < to && (j > from || cs@[j] != '-') ==> is_digit(#[trigger] cs@[j]),
    ensures
        ({
            let v = integer_text_value(cs@.subrange(from as int, to as int));
            &&& r matches Some(x) ==> x == v
            &&& r is None <==> !(i64::MIN <= v <= i64::MAX)
        }),
{
    let neg = cs[from] == '-';
    let start = if neg {
        from + 1
    } else {
        from
    };
    let ghost t = cs@.subrange(from as int, to as int);
    let ghost dd = cs@.subrange(start as int, to as int);
    assert(dd =~= if neg {
        t.drop_first()
    } else {
        t
    });
    let cap: u128 = 0x8000_0000_0000_0001;
    let mut acc: u128 = 0;
    let mut k = start;
    while k < to
        invariant
            start <= k <= to <= cs@.len(),
            from <= start,
            start == from || (start == from + 1 && neg),
            dd == cs@.subrange(start as int, to as int),
            cap == 0x8000_0000_0000_0001,
            forall|j: int| start <= j < to ==> is_digit(#[trigger] cs@[j]),
            acc as int == (if digits_value(cs@.subrange(start as int, k as int)) < cap {
                digits_value(cs@.subrange(start as int, k as int))
            } else {
                cap as int
            }),
        decreases to - k,
    {
        let digit = (cs[k] as u32 - '0' as u32) as u128;
        proof {
            lemma_digits_step(dd, k - start);
            assert(dd.subrange(0, k - start) =~= cs@.subrange(start as int, k as int));
            assert(dd.subrange(0, k + 1 - start) =~= cs@.subrange(start as int, k + 1));
            assert(crate::text::all_digits(cs@.subrange(start as int, k as int)));
            lemma_digits_nonneg(cs@.subrange(start as int, k as int));
            lemma_capped_step(
                digits_value(cs@.subrange(start as int, k as int)),
                digit as int,
                cap as int,
            );
        }
        acc = acc * 10 + digit;
        if acc > cap {
            acc = cap;
        }
        k = k + 1;
    }
    assert(cs@.subrange(start as int, to as int) == dd);
    proof {
        assert(crate::text::all_digits(dd));
        lemma_digits_nonneg(dd);
    }
    if neg {
        if acc > 0x8000_0000_0000_0000 {
            None
        } else if acc == 0x8000_0000_0000_0000 {
            Some(i64::MIN)
        } else {
            Some(-(acc as i64))
        }
    } else {
        if acc > 0x7fff_ffff_ffff_ffff {
            None
        } else {
            Some(acc as i64)
        }
    }
}


/// The operator (or `?`) that starts at `i`.
fn read_operator(cs: &Vec<char>, i: usize) -> (r: (i64, usize))
    requires
        i < cs@.len(),
    ensures
        (r.0 as int, r.1 as int) == operator_step(cs@, i as int),
{
    let c = cs[i];
    let d = if i < cs.len() - 1 {
        cs[i + 1]
    } else {
        ' '
    };
    let (t, w): (Token, usize) = if c == '|' && d == '|' {
        (Token::Concat, 2)
    } else if c == '=' && d == '=' {
        (Token::EqEq, 2)
    } else if (c == '!' && d == '=') || (c == '<' && d == '>') {
        (Token::NotEq, 2)
    } else if c == '<' && d == '=' {
        (Token::Le, 2)
    } else if c == '>' && d == '=' {
        (Token::Ge, 2)
    } else if c == '<' && d == '<' {
        (Token::Shl, 2)
    } else if c == '>' && d == '>' {
        (Token::Shr, 2)
    } else if c == '?' {
        (Token::BindParam, 1)
    } else if c == '=' {
        (Token::Eq, 1)
    } else if c == '<' {
        (Token::Lt, 1)
    } else if c == '>' {
        (Token::Gt, 1)
    } else if c == '+' {
        (Token::Plus, 1)
    } else if c == '*' {
        (Token::Star, 1)
    } else if c == '%' {
        (Token::Percent, 1)
    } else if c == '&' {
        (Token::Amp, 1)
    } else if c == '|' {
        (Token::Pipe, 1)
    } else if c == '~' {
        (Token::Tilde, 1)
    } else if c == '(' {
        (Token::LParen, 1)
    } else if c == ')' {
        (Token::RParen, 1)
    } else if c == ',' {
        (Token::Comma, 1)
    } else if c == ';' {
        (Token::Semi, 1)
    } else if c == '.' {
        (Token::Dot, 1)
    } else {
        return (-2, i + 1);
    };
    (index_of(&t) as i64, i + w)
}

/// The end of the number literal that starts at `i`, and whether it is
/// real.
fn read_number(cs: &Vec<char>, i: usize) -> (r: (bool, usize))
    requires
        i < cs@.len(),
        is_digit(cs@[i as int]) || (cs@[i as int] == '-' && i + 1 < cs@.len() && is_digit(
            cs@[i + 1],
        )),
    ensures
        (r.0, r.1 as int) == number_scan(cs@, i as int),
        i < r.1 <= cs@.len(),
{
    let n = cs.len();
    let a = if cs[i] == '-' {
        i + 1
    } else {
        i
    };
    let d = scan_run(cs, a, 0);
    proof {
        lemma_run_end_bounds(cs@, a as int, digit_class());
    }
    if d < n - 1 && cs[d] == '.' && '0' <= cs[d + 1] && cs[d + 1] <= '9' {
        let f = scan_run(cs, d + 1, 0);
        let g: usize = if f < n - 1 && (cs[f] == 'e' || cs[f] == 'E') {
            if cs[f + 1] == '+' || cs[f + 1] == '-' {
                f + 2
            } else {
                f + 1
            }
        } else {
            n
        };
        if g < n && '0' <= cs[g] && cs[g] <= '9' {
            (true, scan_run(cs, g, 0))
        } else {
            (true, f)
        }
    } else {
        (false, d)
    }
}

/// Reads what starts at `i`: the place of the token, -1 for blanks and
/// comments, -2 for an error; and where it ends.
fn read_step(cs: &Vec<char>, i: usize) -> (r: (i64, usize))
    requires
        i < cs@.len(),
    ensures
        (r.0 as int, r.1 as int) == lex_step(cs@, i as int),
        i < r.1 <= cs@.len(),
{
    proof {
        lemma_lex_step_bounds(cs@, i as int);
        reveal(lex_step);
    }
    let n = cs.len();
    let c = cs[i];
    let has_next = i + 1 < n;
    if c == ' ' || c == '\t' || c == '\r' || c == '\n' || c == '\x0C' {
        return (-1, scan_run(cs, i, 3));
    }
    if ('a' <= c && c <= 'z') || ('A' <= c && c <= 'Z') || c == '_' {
        if has_next && (c == 'x' || c == 'X') && cs[i + 1] == '\'' {
            let h = scan_run(cs, i + 2, 1);
            if h < n && cs[h] == '\'' {
                let e = h + 1;
                if (e - i) % 2 == 1 {
                    return (BLOB_LIT as i64, e);
                } else {
                    return (-2, e);
                }
            }
        }
        let e = scan_run(cs, i, 2);
        let w = lowered_range(cs, i, e);
        return match find_keyword(&w) {
            Some(k) => (k as i64, e),
            None => (IDENT as i64, e),
        };
    }
    if ('0' <= c && c <= '9') || (c == '-' && has_next && '0' <= cs[i + 1] && cs[i + 1] <= '9') {
        let (is_real, e) = read_number(cs, i);
        if is_real {
            return (REAL_LIT as i64, e);
        }
        proof {
            let a = if c == '-' {
                i + 1
            } else {
                i as int
            };
            lemma_run_end_bounds(cs@, a, digit_class());
        }
        return match integer_at(cs, i, e) {
            Some(_) => (INTEGER_LIT as i64, e),
            None => (-2, e),
        };
    }
    if c == '-' {
        if has_next && cs[i + 1] == '-' {
            return (-1, scan_run(cs, i + 2, 4));
        }
        return (index_of(&Token::Minus) as i64, i + 1);
    }
    if c == '/' {
        if has_next && cs[i + 1] == '*' {
            if let Some(e) = scan_comment(cs, i + 2) {
                return (-1, e);
            }
        }
        return (index_of(&Token::Slash) as i64, i + 1);
    }
    if c == '\'' || c == '"' || c == '`' {
        let (m, stop) = scan_quoted(cs, i + 1, c);
        return match m {
            Some(e) => (
                if c == '\'' {
                    STRING_LIT as i64
                } else if c == '"' {
                    QUOTED_IDENT as i64
                } else {
                    BACKTICK_IDENT as i64
                },
                e,
            ),
            None => (-2, stop),
        };
    }
    if (c == ':' || c == '@' || c == '$') && has_next && (('a' <= cs[i + 1] && cs[i + 1] <= 'z')
        || ('A' <= cs[i + 1] && cs[i + 1] <= 'Z') || cs[i + 1] == '_') {
        let e = scan_run(cs, i + 1, 2);
        let k = if c == ':' {
            NAMED_PARAM
        } else if c == '@' {
            AT_PARAM
        } else {
            DOLLAR_PARAM
        };
        return (k as i64, e);
    }
    read_operator(cs, i)
}


proof fn lemma_keyword_from_bound(w: Seq<char>, k: int)
    ensures
        keyword_from(w, k) matches Some(j) ==> 0 <= j < KEYWORD_COUNT,
    decreases KEYWORD_COUNT - k,
{
    if 0 <= k < KEYWORD_COUNT && keyword_text(k) != w {
        lemma_keyword_from_bound(w, k + 1);
    }
}

/// What each kind of token read says of the text it was read from.
proof fn lemma_step_kinds(s: Seq<char>, i: int)
    requires
        0 <= i < s.len(),
    ensures
        ({
            let r = lex_step(s, i);
            let c = s[i];
            &&& r.0 == INTEGER_LIT ==> (is_digit(c) || (c == '-' && i + 1 < s.len() && is_digit(
                s[i + 1],
            ))) && !number_scan(s, i).0 && number_scan(s, i).1 == r.1 && i64::MIN
                <= integer_text_value(s.subrange(i, r.1)) <= i64::MAX
            &&& (r.0 == STRING_LIT ==> c == '\'') && (r.0 == QUOTED_IDENT ==> c == '"') && (r.0
                == BACKTICK_IDENT ==> c == '`')
            &&& (r.0 == STRING_LIT || r.0 == QUOTED_IDENT || r.0 == BACKTICK_IDENT)
                ==> quoted_scan(s, i + 1, c).0 == Some(r.1)
            &&& r.0 == BLOB_LIT ==> blob_end(s, i) == Some(r.1) && (r.1 - i) % 2 == 1
            &&& (r.0 == NAMED_PARAM || r.0 == AT_PARAM || r.0 == DOLLAR_PARAM) ==> i + 1 < s.len()
                && r.1 == run_end(s, i + 1, ident_class())
            &&& r.0 >= 0 && r.0 != INTEGER_LIT && r.0 != REAL_LIT && r.0 != STRING_LIT && r.0
                != QUOTED_IDENT && r.0 != BACKTICK_IDENT && r.0 != BLOB_LIT && r.0 != IDENT && r.0
                != NAMED_PARAM && r.0 != AT_PARAM && r.0 != DOLLAR_PARAM ==> is_unit_index(r.0)
        }),
{
    reveal(lex_step);
    let c = s[i];
    if is_ident_start(c) && blob_end(s, i) is None {
        let e = run_end(s, i, ident_class());
        lemma_keyword_from_bound(ascii_lowercase(s.subrange(i, e)), 0);
    }
}

/// `cs[from..to]` with each doubled `q` made single.
fn undouble_range(cs: &Vec<char>, from: usize, to: usize, q: char) -> (r: String)
    requires
        from <= to <= cs@.len(),
    ensures
        r@ == undoubled(cs@.subrange(from as int, to as int), q),
{
    let mut out: Vec<char> = Vec::new();
    let mut k = from;
    while k < to
        invariant
            from <= k <= to <= cs@.len(),
            out@ + undoubled(cs@.subrange(k as int, to as int), q) == undoubled(
                cs@.subrange(from as int, to as int),
                q,
            ),
        decreases to - k,
    {
        let ghost rest = cs@.subrange(k as int, to as int);
        assert(rest[0] == cs@[k as int]);
        if k + 1 < to && cs[k] == q && cs[k + 1] == q {
            assert(rest[1] == cs@[k + 1]);
            assert(rest.subrange(2, rest.len() as int) =~= cs@.subrange(k + 2, to as int));
            out.push(q);
            k = k + 2;
        } else {
            proof {
                if k + 1 < to {
                    assert(rest[1] == cs@[k + 1]);
                }
            }
            assert(rest.subrange(1, rest.len() as int) =~= cs@.subrange(k + 1, to as int));
            out.push(cs[k]);
            k = k + 1;
        }
        proof {
            assert(out@ + undoubled(cs@.subrange(k as int, to as int), q) =~= undoubled(
                cs@.subrange(from as int, to as int),
                q,
            ));
        }
    }
    assert(undoubled(cs@.subrange(to as int, to as int), q) =~= Seq::<char>::empty());
    assert(out@ + Seq::<char>::empty() =~= out@);
    string_of(out.as_slice())
}

fn hex_digit_value(c: char) -> (v: u8)
    requires
        is_hex_digit(c),
    ensures
        v == hex_value(c),
{
    if '0' <= c && c <= '9' {
        (c as u32 - '0' as u32) as u8
    } else if 'a' <= c && c <= 'f' {
        (c as u32 - 'a' as u32 + 10) as u8
    } else {
        (c as u32 - 'A' as u32 + 10) as u8
    }
}

/// The bytes that the hexadecimal digits `cs[from..to]` stand for.
fn hex_bytes_range(cs: &Vec<char>, from: usize, to: usize) -> (r: Vec<u8>)
    requires
        from <= to <= cs@.len(),
        (to - from) % 2 == 0,
        forall|j: int| from <= j < to ==> is_hex_digit(#[trigger] cs@[j]),
    ensures
        r@ == hex_bytes(cs@.subrange(from as int, to as int)),
{
    let mut out: Vec<u8> = Vec::new();
    let mut k = from;
    while k < to
        invariant
            from <= k <= to <= cs@.len(),
            (to - k) % 2 == 0,
            forall|j: int| from <= j < to ==> is_hex_digit(#[trigger] cs@[j]),
            out@ + hex_bytes(cs@.subrange(k as int, to as int)) == hex_bytes(
                cs@.subrange(from as int, to as int),
            ),
        decreases to - k,
    {
        let ghost rest = cs@.subrange(k as int, to as int);
        assert(rest[0] == cs@[k as int] && rest[1] == cs@[k + 1]);
        assert(rest.subrange(2, rest.len() as int) =~= cs@.subrange(k + 2, to as int));
        let hi = hex_digit_value(cs[k]);
        let lo = hex_digit_value(cs[k + 1]);
        out.push(hi * 16 + lo);
        k = k + 2;
        proof {
            assert(out@ + hex_bytes(cs@.subrange(k as int, to as int)) =~= hex_bytes(
                cs@.subrange(from as int, to as int),
            ));
        }
    }
    assert(hex_bytes(cs@.subrange(to as int, to as int)) =~= Seq::<u8>::empty());
    assert(out@ + Seq::<u8>::empty() =~= out@);
    out
}

/// The token of place `kind` read from `cs[from..to]`, `real_value` being
/// the value of a real literal.
fn make_token(cs: &Vec<char>, kind: i64, from: usize, to: usize, real_value: u64) -> (t: Token)
    requires
        from < cs@.len(),
        kind >= 0,
        lex_step(cs@, from as int) == (kind as int, to as int),
    ensures
        token_fits(t, kind as int, cs@.subrange(from as int, to as int), real_value),
{
    proof {
        lemma_lex_step_bounds(cs@, from as int);
    }
    let ghost s = cs@;
    let ghost text = cs@.subrange(from as int, to as int);
    proof {
        lemma_step_kinds(s, from as int);
    }
    let c = cs[from];
    if kind == INTEGER_LIT as i64 {
        proof {
            let a = if c == '-' {
                from + 1
            } else {
                from as int
            };
            lemma_run_end_bounds(s, a, digit_class());
        }
        match integer_at(cs, from, to) {
            Some(v) => Token::IntegerLit(v),
            None => Token::BindParam,
        }
    } else if kind == REAL_LIT as i64 {
        Token::RealLit(real_value)
    } else if kind == STRING_LIT as i64 || kind == QUOTED_IDENT as i64 || kind
        == BACKTICK_IDENT as i64 {
        proof {
            lemma_quoted_scan_bounds(s, from + 1, c);
        }
        assert(text.subrange(1, text.len() - 1) =~= s.subrange(from + 1, to - 1));
        if kind == STRING_LIT as i64 {
            let inner = string_of_range(cs.as_slice(), from + 1, to - 1);
            Token::StringLit(unescape_sql_string(inner.as_str()))
        } else if kind == QUOTED_IDENT as i64 {
            Token::QuotedIdent(undouble_range(cs, from + 1, to - 1, '"'))
        } else {
            Token::BacktickIdent(undouble_range(cs, from + 1, to - 1, '`'))
        }
    } else if kind == BLOB_LIT as i64 {
        proof {
            lemma_run_end_bounds(s, from + 2, hex_class());
        }
        assert(text.subrange(2, text.len() - 1) =~= s.subrange(from + 2, to - 1));
        Token::BlobLit(hex_bytes_range(cs, from + 2, to - 1))
    } else if kind == IDENT as i64 {
        Token::Ident(string_of_range(cs.as_slice(), from, to))
    } else if kind == NAMED_PARAM as i64 || kind == AT_PARAM as i64 || kind == DOLLAR_PARAM as i64 {
        proof {
            lemma_run_end_bounds(s, from + 1, ident_class());
        }
        assert(text.drop_first() =~= s.subrange(from + 1, to as int));
        let name = string_of_range(cs.as_slice(), from + 1, to);
        if kind == NAMED_PARAM as i64 {
            Token::NamedParam(name)
        } else if kind == AT_PARAM as i64 {
            Token::AtParam(name)
        } else {
            Token::DollarParam(name)
        }
    } else {
        unit_token(kind as usize)
    }
}


/// The tokens read from `i` on: the one read at `i`, if it is a token,
/// and then those read after it.
proof fn lemma_lex_from_unfold(s: Seq<char>, i: int)
    requires
        0 <= i < s.len(),
    ensures
        lex_from(s, i) == if lex_step(s, i).0 >= 0 {
            seq![(lex_step(s, i).0, i, lex_step(s, i).1)] + lex_from(s, lex_step(s, i).1)
        } else {
            lex_from(s, lex_step(s, i).1)
        },
{
    lemma_lex_step_bounds(s, i);
}

/// The items as numbers.
pub open spec fn item_views(items: Seq<(i64, usize, usize)>) -> Seq<(int, int, int)> {
    items.map_values(|t: (i64, usize, usize)| (t.0 as int, t.1 as int, t.2 as int))
}

/// Reads all the tokens of `cs`: for each, its place, start and end.
fn lex_all(cs: &Vec<char>) -> (items: Vec<(i64, usize, usize)>)
    ensures
        item_views(items@) == lex_from(cs@, 0),
        forall|k: int|
            0 <= k < items@.len() ==> (#[trigger] items@[k]).0 >= 0 && items@[k].1 < items@[k].2
                <= cs@.len() && lex_step(cs@, items@[k].1 as int) == (
                items@[k].0 as int,
                items@[k].2 as int,
            ),
{
    let mut items: Vec<(i64, usize, usize)> = Vec::new();
    let mut i: usize = 0;
    while i < cs.len()
        invariant
            i <= cs@.len(),
            item_views(items@) + lex_from(cs@, i as int) == lex_from(cs@, 0),
            forall|k: int|
                0 <= k < items@.len() ==> (#[trigger] items@[k]).0 >= 0 && items@[k].1
                    < items@[k].2 <= cs@.len() && lex_step(cs@, items@[k].1 as int) == (
                    items@[k].0 as int,
                    items@[k].2 as int,
                ),
        decreases cs@.len() - i,
    {
        let (kind, e) = read_step(cs, i);
        proof {
            lemma_lex_from_unfold(cs@, i as int);
        }
        if kind >= 0 {
            let ghost before = items@;
            items.push((kind, i, e));
            proof {
                assert(item_views(items@) =~= item_views(before).push((kind as int, i as int, e as int)));
                assert(item_views(items@) + lex_from(cs@, e as int) =~= item_views(before) + lex_from(
                    cs@,
                    i as int,
                ));
            }
        }
        i = e;
    }
    proof {
        assert(lex_from(cs@, i as int) =~= Seq::<(int, int, int)>::empty());
        assert(item_views(items@) + Seq::<(int, int, int)>::empty() =~= item_views(items@));
    }
    items
}

proof fn lemma_reals_before_prefix(a: Seq<(int, int, int)>, b: Seq<(int, int, int)>, k: int)
    requires
        0 <= k <= a.len(),
    ensures
        reals_before(a + b, k) == reals_before(a, k),
    decreases k,
{
    if k > 0 {
        lemma_reals_before_prefix(a, b, k - 1);
        assert((a + b)[k - 1] == a[k - 1]);
    }
}

proof fn lemma_reals_before_monotone(a: Seq<(int, int, int)>, j: int, k: int)
    requires
        0 <= j <= k <= a.len(),
    ensures
        0 <= reals_before(a, j) <= reals_before(a, k),
    decreases k,
{
    if k > j {
        lemma_reals_before_monotone(a, j, k - 1);
    } else if k > 0 {
        lemma_reals_before_monotone(a, 0, k - 1);
    }
}

/// The texts of the real literals of `sql`, in order.
pub fn real_literals(sql: &str) -> (texts: Vec<String>)
    ensures
        texts@.len() == real_literal_count(sql@),
        ({
            let items = lex_from(sql@, 0);
            forall|k: int|
                0 <= k < items.len() && items[k].0 == REAL_LIT ==> (#[trigger] texts@[reals_before(items, k)])@
                    == sql@.subrange(items[k].1, items[k].2)
        }),
{
    let cs = chars_of(sql);
    let items = lex_all(&cs);
    let ghost all = lex_from(sql@, 0);
    let mut texts: Vec<String> = Vec::new();
    let mut k: usize = 0;
    while k < items.len()
        invariant
            cs@ == sql@,
            all == lex_from(sql@, 0),
            item_views(items@) == all,
            k <= items@.len(),
            forall|m: int|
                0 <= m < items@.len() ==> (#[trigger] items@[m]).0 >= 0 && items@[m].1 < items@[m].2
                    <= cs@.len(),
            texts@.len() == reals_before(all, k as int),
            forall|m: int|
                0 <= m < k && all[m].0 == REAL_LIT ==> (#[trigger] texts@[reals_before(all, m)])@
                    == sql@.subrange(all[m].1, all[m].2),
        decreases items@.len() - k,
    {
        let (kind, from, to) = items[k];
        assert(all[k as int] == (kind as int, from as int, to as int));
        let ghost before = texts@;
        if kind == REAL_LIT as i64 {
            texts.push(string_of_range(cs.as_slice(), from, to));
        }
        assert(texts@.subrange(0, before.len() as int) =~= before);
        k = k + 1;
        proof {
            assert forall|m: int|
                0 <= m < k && all[m].0 == REAL_LIT implies (#[trigger] texts@[reals_before(
                all,
                m,
            )])@ == sql@.subrange(all[m].1, all[m].2) by {
                if m < k - 1 {
                    lemma_reals_before_monotone(all, m + 1, k - 1);
                    lemma_reals_before_monotone(all, m, k - 1);
                    assert(reals_before(all, m + 1) == reals_before(all, m) + 1);
                    assert(before.len() == reals_before(all, k - 1));
                    assert(reals_before(all, m) < before.len());
                    assert(texts@[reals_before(all, m)] == texts@.subrange(0, before.len() as int)[reals_before(all, m)]);
                }
            }
        }
    }
    texts
}


proof fn lemma_encode_concat(a: Seq<char>, b: Seq<char>)
    ensures
        encode_utf8(a + b) == encode_utf8(a) + encode_utf8(b),
    decreases a.len(),
{
    if a.len() == 0 {
        assert(a + b =~= b);
        assert(encode_utf8(a) =~= Seq::<u8>::empty());
        assert(encode_utf8(a) + encode_utf8(b) =~= encode_utf8(b));
    } else {
        assert((a + b).drop_first() =~= a.drop_first() + b);
        assert((a + b)[0] == a[0]);
        lemma_encode_concat(a.drop_first(), b);
        assert(encode_utf8(a + b) =~= encode_utf8(a) + encode_utf8(b));
    }
}

/// The offset of the next character is that of this one and its width.
proof fn lemma_byte_offset_step(s: Seq<char>, j: int)
    requires
        0 <= j < s.len(),
    ensures
        byte_offset(s, j + 1) == byte_offset(s, j) + encode_scalar(s[j] as u32).len(),
        byte_offset(s, j + 1) <= encode_utf8(s).len(),
{
    assert(s.subrange(0, j + 1) =~= s.subrange(0, j) + seq![s[j]]);
    lemma_encode_concat(s.subrange(0, j), seq![s[j]]);
    assert(seq![s[j]].drop_first() =~= Seq::<char>::empty());
    assert(encode_utf8(seq![s[j]]) =~= encode_scalar(s[j] as u32) + encode_utf8(
        Seq::<char>::empty(),
    ));
    assert(s =~= s.subrange(0, j + 1) + s.subrange(j + 1, s.len() as int));
    lemma_encode_concat(s.subrange(0, j + 1), s.subrange(j + 1, s.len() as int));
}

/// The number of bytes of `c` in UTF-8.
fn utf8_width(c: char) -> (w: usize)
    ensures
        w == encode_scalar(c as u32).len(),
{
    let v = c as u32;
    if v <= 0x7F {
        1
    } else if v <= 0x7FF {
        2
    } else if v <= 0xFFFF {
        3
    } else {
        4
    }
}

/// The byte offset of `cs[to]`, from that of `cs[from]`.
fn advance_offset(cs: &Vec<char>, from: usize, to: usize, off: usize, total: usize) -> (r: usize)
    requires
        from <= to <= cs@.len(),
        off == byte_offset(cs@, from as int),
        total == encode_utf8(cs@).len(),
    ensures
        r == byte_offset(cs@, to as int),
{
    let mut j = from;
    let mut o = off;
    while j < to
        invariant
            from <= j <= to <= cs@.len(),
            o == byte_offset(cs@, j as int),
            total == encode_utf8(cs@).len(),
        decreases to - j,
    {
        proof {
            lemma_byte_offset_step(cs@, j as int);
        }
        o = o + utf8_width(cs[j]);
        j = j + 1;
    }
    o
}

/// The tokens read from `i` on lie in order, each within the text.
proof fn lemma_lex_from_order(s: Seq<char>, i: int)
    requires
        0 <= i,
    ensures
        ({
            let items = lex_from(s, i);
            &&& forall|k: int|
                0 <= k < items.len() ==> i <= (#[trigger] items[k]).1 < items[k].2 <= s.len()
            &&& forall|k: int|
                0 <= k < items.len() - 1 ==> (#[trigger] items[k]).2 <= items[k + 1].1
        }),
    decreases s.len() - i,
{
    if i < s.len() {
        lemma_lex_step_bounds(s, i);
        let e = lex_step(s, i).1;
        lemma_lex_from_order(s, e);
        lemma_lex_from_unfold(s, i);
        let rest = lex_from(s, e);
        if lex_step(s, i).0 >= 0 {
            let items = lex_from(s, i);
            assert forall|k: int| 0 <= k < items.len() - 1 implies (#[trigger] items[k]).2
                <= items[k + 1].1 by {
                if k == 0 {
                    assert(items[1] == rest[0]);
                } else {
                    assert(items[k] == rest[k - 1]);
                    assert(items[k + 1] == rest[k]);
                }
            }
            assert forall|k: int| 0 <= k < items.len() implies i <= (#[trigger] items[k]).1
                < items[k].2 <= s.len() by {
                if k > 0 {
                    assert(items[k] == rest[k - 1]);
                }
            }
        }
    }
}

/// Reads the tokens of `sql`, with their spans in bytes; the `k`-th real
/// literal takes the value `reals[k]`.
pub fn tokenize_with_reals(sql: &str, reals: &[u64]) -> (tokens: Vec<SpannedToken>)
    requires
        reals@.len() >= real_literal_count(sql@),
    ensures
        lexed(tokens@, sql@, reals@),
{
    let cs = chars_of(sql);
    let total = sql.as_bytes_vec().len();
    let items = lex_all(&cs);
    let ghost all = lex_from(sql@, 0);
    proof {
        lemma_lex_from_order(sql@, 0);
        lemma_reals_before_monotone(all, 0, all.len() as int);
    }
    let mut tokens: Vec<SpannedToken> = Vec::new();
    let mut k: usize = 0;
    let mut nreal: usize = 0;
    let mut pos: usize = 0;
    let mut off: usize = 0;
    assert(encode_utf8(cs@.subrange(0, 0)) =~= Seq::<u8>::empty());
    while k < items.len()
        invariant
            cs@ == sql@,
            total == encode_utf8(cs@).len(),
            all == lex_from(sql@, 0),
            item_views(items@) == all,
            reals@.len() >= reals_before(all, all.len() as int),
            forall|m: int|
                0 <= m < items@.len() ==> (#[trigger] items@[m]).0 >= 0 && items@[m].1
                    < items@[m].2 <= cs@.len() && lex_step(cs@, items@[m].1 as int) == (
                    items@[m].0 as int,
                    items@[m].2 as int,
                ),
            forall|m: int| 0 <= m < all.len() - 1 ==> (#[trigger] all[m]).2 <= all[m + 1].1,
            k <= items@.len(),
            k < items@.len() ==> pos <= items@[k as int].1,
            pos <= cs@.len(),
            off == byte_offset(cs@, pos as int),
            tokens@.len() == k,
            nreal == reals_before(all, k as int),
            forall|m: int|
                0 <= m < k ==> {
                    let it = all[m];
                    &&& token_fits(
                        (#[trigger] tokens@[m]).token,
                        it.0,
                        sql@.subrange(it.1, it.2),
                        reals@[reals_before(all, m)],
                    )
                    &&& tokens@[m].start == byte_offset(sql@, it.1)
                    &&& tokens@[m].end == byte_offset(sql@, it.2)
                },
        decreases items@.len() - k,
    {
        let (kind, from, to) = items[k];
        assert(all[k as int] == (kind as int, from as int, to as int));
        let start = advance_offset(&cs, pos, from, off, total);
        let end = advance_offset(&cs, from, to, start, total);
        let is_real = kind == REAL_LIT as i64;
        let value = if is_real {
            proof {
                lemma_reals_before_monotone(all, k + 1, all.len() as int);
            }
            reals[nreal]
        } else {
            0
        };
        let t = make_token(&cs, kind, from, to, value);
        tokens.push(SpannedToken { token: t, start, end });
        if is_real {
            nreal = nreal + 1;
        }
        pos = to;
        off = end;
        k = k + 1;
        proof {
            if k < items@.len() {
                assert(all[k - 1].2 <= all[k as int].1);
            }
        }
    }
    tokens
}


/// Byte offsets grow with the characters: each takes at least one byte.
proof fn lemma_byte_offset_increases(s: Seq<char>, i: int, j: int)
    requires
        0 <= i < j <= s.len(),
    ensures
        byte_offset(s, i) < byte_offset(s, j) <= encode_utf8(s).len(),
    decreases j - i,
{
    lemma_byte_offset_step(s, j - 1);
    if i < j - 1 {
        lemma_byte_offset_increases(s, i, j - 1);
    }
}

/// The tokens read from a text lie in order within its bytes: each ends
/// after it starts, no later than the text, and no later than the next
/// one starts.
pub proof fn lemma_lexed_spans_in_order(tokens: Seq<SpannedToken>, s: Seq<char>, reals: Seq<u64>)
    requires
        lexed(tokens, s, reals),
    ensures
        forall|k: int|
            0 <= k < tokens.len() ==> (#[trigger] tokens[k]).start < tokens[k].end
                <= encode_utf8(s).len(),
        forall|k: int|
            0 <= k < tokens.len() - 1 ==> (#[trigger] tokens[k]).end <= tokens[k + 1].start,
{
    let items = lex_from(s, 0);
    lemma_lex_from_order(s, 0);
    assert forall|k: int| 0 <= k < tokens.len() implies (#[trigger] tokens[k]).start
        < tokens[k].end <= encode_utf8(s).len() by {
        lemma_byte_offset_increases(s, items[k].1, items[k].2);
    }
    assert forall|k: int| 0 <= k < tokens.len() - 1 implies (#[trigger] tokens[k]).end
        <= tokens[k + 1].start by {
        assert(tokens[k + 1].start == byte_offset(s, items[k + 1].1));
        if items[k].2 < items[k + 1].1 {
            lemma_byte_offset_increases(s, items[k].2, items[k + 1].1);
        }
    }
}

} // verus!
