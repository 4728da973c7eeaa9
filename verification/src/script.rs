//! Reading SQLite's TCL test scripts: test directives with braced blocks, the
//! SQL they carry, and the TCL list format of expected results.
//!
//! Positions inside a text are counted in characters.

use vstd::prelude::*;

use vstd::slice::{slice_subrange, slice_to_vec};

use crate::text::{
    chars_of, is_whitespace, is_ws, lead_ws, skip_ws, string_of, string_of_range, trim, trim_range,
};

verus! {

/// Pass, fail and skip counts of a test run.
#[derive(Debug, Default, Clone, Copy)]
pub struct TestResults {
    pub passed: usize,
    pub failed: usize,
    pub skipped: usize,
}

impl TestResults {
    pub fn total(&self) -> (t: usize)
        requires
            self.passed + self.failed + self.skipped <= usize::MAX,
        ensures
            t == self.passed + self.failed + self.skipped,
    {
        self.passed + self.failed + self.skipped
    }

    /// Adds the counts of `other` to these.
    pub fn merge(&mut self, other: TestResults)
        requires
            old(self).passed + other.passed <= usize::MAX,
            old(self).failed + other.failed <= usize::MAX,
            old(self).skipped + other.skipped <= usize::MAX,
        ensures
            final(self).passed == old(self).passed + other.passed,
            final(self).failed == old(self).failed + other.failed,
            final(self).skipped == old(self).skipped + other.skipped,
    {
        self.passed = self.passed + other.passed;
        self.failed = self.failed + other.failed;
        self.skipped = self.skipped + other.skipped;
    }
}

/// The characters of each string.
pub open spec fn string_views(v: Seq<String>) -> Seq<Seq<char>> {
    v.map_values(|s: String| s@)
}

/// The pieces of `s` between occurrences of `sep` (one more piece than there
/// are separators), as `str::split` gives them.
pub open spec fn split_pieces(s: Seq<char>, sep: char) -> Seq<Seq<char>>
    decreases s.len(),
{
    if s.len() == 0 {
        seq![seq![]]
    } else {
        let p = split_pieces(s.drop_last(), sep);
        if s.last() == sep {
            p.push(seq![])
        } else {
            p.update(p.len() - 1, p.last().push(s.last()))
        }
    }
}

/// Whether a trimmed piece of SQL is kept: it is not empty and, when the text
/// is split into lines, it is not a `#` comment.
pub open spec fn keeps_piece(p: Seq<char>, by_lines: bool) -> bool {
    p.len() > 0 && !(by_lines && p[0] == '#')
}

/// The trimmed pieces that are kept, in order.
pub open spec fn kept_pieces(pieces: Seq<Seq<char>>, by_lines: bool) -> Seq<Seq<char>>
    decreases pieces.len(),
{
    if pieces.len() == 0 {
        seq![]
    } else {
        let rest = kept_pieces(pieces.drop_last(), by_lines);
        let t = trim(pieces.last());
        if keeps_piece(t, by_lines) {
            rest.push(t)
        } else {
            rest
        }
    }
}

/// The statements of a block of SQL: split at semicolons when there is one,
/// else into lines (dropping `#` comments); each trimmed, empty ones dropped.
pub open spec fn sql_statements(sql: Seq<char>) -> Seq<Seq<char>> {
    let t = trim(sql);
    if t.len() == 0 {
        seq![]
    } else if t.contains(';') {
        kept_pieces(split_pieces(t, ';'), false)
    } else {
        kept_pieces(split_pieces(t, '\n'), true)
    }
}

proof fn lemma_split_pieces_nonempty(s: Seq<char>, sep: char)
    ensures
        split_pieces(s, sep).len() >= 1,
    decreases s.len(),
{
    if s.len() > 0 {
        lemma_split_pieces_nonempty(s.drop_last(), sep);
    }
}

/// Splitting a text at `sep`, seen from the last separator on: the pieces are
/// those of the text before it, then the characters after it.
proof fn lemma_split_step(s: Seq<char>, sep: char, start: int, j: int, done: Seq<Seq<char>>)
    requires
        0 <= start <= j < s.len(),
        split_pieces(s.subrange(0, j), sep) == done.push(s.subrange(start, j)),
    ensures
        s[j] == sep ==> split_pieces(s.subrange(0, j + 1), sep) == done.push(
            s.subrange(start, j),
        ).push(s.subrange(j + 1, j + 1)),
        s[j] != sep ==> split_pieces(s.subrange(0, j + 1), sep) == done.push(
            s.subrange(start, j + 1),
        ),
{
    let t = s.subrange(0, j + 1);
    assert(t.drop_last() =~= s.subrange(0, j));
    assert(t.last() == s[j]);
    assert(s.subrange(j + 1, j + 1) =~= Seq::<char>::empty());
    if s[j] != sep {
        assert(s.subrange(start, j).push(s[j]) =~= s.subrange(start, j + 1));
        assert(done.push(s.subrange(start, j)).update(done.len() as int, s.subrange(start, j + 1))
            =~= done.push(s.subrange(start, j + 1)));
    }
}

/// Whether `s[from..to]` holds the character `c`.
fn range_contains(s: &[char], from: usize, to: usize, c: char) -> (b: bool)
    requires
        from <= to <= s@.len(),
    ensures
        b == s@.subrange(from as int, to as int).contains(c),
{
    let mut k = from;
    while k < to
        invariant
            from <= k <= to <= s@.len(),
            forall|j: int| from <= j < k ==> s@[j] != c,
        decreases to - k,
    {
        if s[k] == c {
            proof {
                assert(s@.subrange(from as int, to as int)[k - from] == c);
            }
            return true;
        }
        k = k + 1;
    }
    proof {
        let t = s@.subrange(from as int, to as int);
        assert forall|j: int| 0 <= j < t.len() implies t[j] != c by {
            assert(t[j] == s@[from + j]);
        }
    }
    false
}

/// Splits `s[a..b]` at `sep` and keeps the trimmed pieces that `keeps_piece` accepts.
fn split_kept(s: &[char], a: usize, b: usize, sep: char, by_lines: bool) -> (out: Vec<String>)
    requires
        a <= b <= s@.len(),
    ensures
        string_views(out@) == kept_pieces(split_pieces(s@.subrange(a as int, b as int), sep), by_lines),
{
    let ghost t = s@.subrange(a as int, b as int);
    let mut out: Vec<String> = Vec::new();
    let mut start: usize = a;
    let mut j: usize = a;
    let ghost mut done: Seq<Seq<char>> = seq![];
    proof {
        assert(t.subrange(0, 0) =~= Seq::<char>::empty());
        assert(split_pieces(t.subrange(0, 0), sep) =~= done.push(t.subrange(0, 0)));
    }
    while j < b
        invariant
            a <= start <= j <= b <= s@.len(),
            t == s@.subrange(a as int, b as int),
            split_pieces(t.subrange(0, j - a), sep) == done.push(t.subrange(start - a, j - a)),
            string_views(out@) == kept_pieces(done, by_lines),
        decreases b - j,
    {
        proof {
            lemma_split_step(t, sep, start - a, j - a, done);
            assert(t[j - a] == s@[j as int]);
        }
        if s[j] == sep {
            let ghost piece = t.subrange(start - a, j - a);
            let (x, y) = trim_range(s, start, j);
            proof {
                assert(piece =~= s@.subrange(start as int, j as int));
                assert(string_views(out@) == kept_pieces(done.push(piece).drop_last(), by_lines)) by {
                    assert(done.push(piece).drop_last() =~= done);
                }
            }
            if y > x && !(by_lines && s[x] == '#') {
                let p = string_of_range(s, x, y);
                proof {
                    assert(string_views(out@.push(p)) =~= string_views(out@).push(p@));
                }
                out.push(p);
            }
            proof {
                done = done.push(piece);
            }
            start = j + 1;
        }
        j = j + 1;
    }
    let ghost piece = t.subrange(start - a, b - a);
    let (x, y) = trim_range(s, start, b);
    proof {
        assert(t.subrange(0, b - a) =~= t);
        assert(piece =~= s@.subrange(start as int, b as int));
        assert(done.push(piece).drop_last() =~= done);
    }
    if y > x && !(by_lines && s[x] == '#') {
        let p = string_of_range(s, x, y);
        proof {
            assert(string_views(out@.push(p)) =~= string_views(out@).push(p@));
        }
        out.push(p);
    }
    out
}

/// Splits a block of SQL into its statements.
pub fn split_sql(sql: &str) -> (out: Vec<String>)
    ensures
        string_views(out@) == sql_statements(sql@),
{
    let s = chars_of(sql);
    let (a, b) = trim_range(s.as_slice(), 0, s.len());
    proof {
        assert(s@.subrange(0, s@.len() as int) =~= s@);
    }
    if a == b {
        return Vec::new();
    }
    if range_contains(s.as_slice(), a, b, ';') {
        split_kept(s.as_slice(), a, b, ';', false)
    } else {
        split_kept(s.as_slice(), a, b, '\n', true)
    }
}

/// A braced token read from `i` with `depth` braces open: its characters up to
/// the brace that closes the first one, and the index after that brace (the
/// end of the text when it never closes). Inner braces belong to the token.
pub open spec fn braced_token(s: Seq<char>, i: int, depth: nat) -> (Seq<char>, int)
    decreases s.len() - i,
{
    if i < 0 || i >= s.len() {
        (seq![], s.len() as int)
    } else if s[i] == '{' {
        let r = braced_token(s, i + 1, depth + 1);
        (seq!['{'] + r.0, r.1)
    } else if s[i] == '}' {
        if depth <= 1 {
            (seq![], i + 1)
        } else {
            let r = braced_token(s, i + 1, (depth - 1) as nat);
            (seq!['}'] + r.0, r.1)
        }
    } else {
        let r = braced_token(s, i + 1, depth);
        (seq![s[i]] + r.0, r.1)
    }
}

/// The end of a bare word starting at `i`: the first whitespace or `{` (or the end).
pub open spec fn bare_end(s: Seq<char>, i: int) -> int
    decreases s.len() - i,
{
    if i < 0 || i >= s.len() || is_ws(s[i]) || s[i] == '{' {
        i
    } else {
        bare_end(s, i + 1)
    }
}

pub proof fn lemma_braced_progress(s: Seq<char>, i: int, depth: nat)
    requires
        0 <= i,
    ensures
        i < braced_token(s, i, depth).1 || (i >= s.len() && braced_token(s, i, depth).1 == s.len()),
        braced_token(s, i, depth).1 <= s.len(),
    decreases s.len() - i,
{
    if i < s.len() {
        if s[i] == '{' {
            lemma_braced_progress(s, i + 1, depth + 1);
        } else if s[i] == '}' {
            if depth > 1 {
                lemma_braced_progress(s, i + 1, (depth - 1) as nat);
            }
        } else {
            lemma_braced_progress(s, i + 1, depth);
        }
    }
}

pub proof fn lemma_bare_end_bound(s: Seq<char>, i: int)
    requires
        0 <= i <= s.len(),
    ensures
        i <= bare_end(s, i) <= s.len(),
        forall|k: int| i <= k < bare_end(s, i) ==> !is_ws(#[trigger] s[k]) && s[k] != '{',
    decreases s.len() - i,
{
    if i < s.len() && !is_ws(s[i]) && s[i] != '{' {
        lemma_bare_end_bound(s, i + 1);
    }
}

/// The tokens of a TCL list from index `i` on: bare words, and braced groups
/// given without their outer braces (`{}` is the empty token).
pub open spec fn tokens_from(s: Seq<char>, i: int) -> Seq<Seq<char>>
    decreases s.len() - i,
{
    if i < 0 || i >= s.len() {
        seq![]
    } else if is_ws(s[i]) {
        tokens_from(s, i + 1)
    } else if s[i] == '{' {
        let r = braced_token(s, i + 1, 1);
        proof {
            lemma_braced_progress(s, i + 1, 1);
        }
        seq![r.0] + tokens_from(s, r.1)
    } else {
        let j = bare_end(s, i + 1);
        proof {
            lemma_bare_end_bound(s, i + 1);
        }
        seq![s.subrange(i, j)] + tokens_from(s, j)
    }
}

/// Parse SQLite TCL result format into tokens (`{}` denotes empty/NULL).
pub fn parse_result_tokens(text: &str) -> (tokens: Vec<String>)
    ensures
        string_views(tokens@) == tokens_from(text@, 0),
{
    let s = chars_of(text);
    let n = s.len();
    let mut tokens: Vec<String> = Vec::new();
    let mut i: usize = 0;
    while i < n
        invariant
            n == s@.len(),
            i <= n,
            s@ == text@,
            tokens_from(s@, 0) == string_views(tokens@) + tokens_from(s@, i as int),
        decreases n - i,
    {
        let ch = s[i];
        if is_whitespace(ch) {
            i = i + 1;
        } else if ch == '{' {
            let ghost i0 = i;
            i = i + 1;
            let mut depth: usize = 1;
            let mut token: Vec<char> = Vec::new();
            let mut closed = false;
            while i < n && !closed
                invariant
                    n == s@.len(),
                    i0 < i <= n,
                    1 <= depth <= i - i0,
                    !closed ==> braced_token(s@, i0 + 1, 1) == (
                        token@ + braced_token(s@, i as int, depth as nat).0,
                        braced_token(s@, i as int, depth as nat).1,
                    ),
                    closed ==> braced_token(s@, i0 + 1, 1) == (token@, i as int),
                decreases n - i,
            {
                let c = s[i];
                if c == '{' {
                    depth = depth + 1;
                    token.push(c);
                    proof {
                        assert(token@ + braced_token(s@, i + 1, depth as nat).0 =~= token@.drop_last()
                            + (seq!['{'] + braced_token(s@, i + 1, depth as nat).0));
                    }
                } else if c == '}' {
                    if depth == 1 {
                        closed = true;
                        proof {
                            assert(token@ + Seq::<char>::empty() =~= token@);
                        }
                    } else {
                        depth = depth - 1;
                        token.push(c);
                        proof {
                            assert(token@ + braced_token(s@, i + 1, depth as nat).0
                                =~= token@.drop_last() + (seq!['}'] + braced_token(
                                s@,
                                i + 1,
                                depth as nat,
                            ).0));
                        }
                    }
                } else {
                    token.push(c);
                    proof {
                        assert(token@ + braced_token(s@, i + 1, depth as nat).0 =~= token@.drop_last()
                            + (seq![c] + braced_token(s@, i + 1, depth as nat).0));
                    }
                }
                i = i + 1;
            }
            proof {
                if !closed {
                    assert(token@ + Seq::<char>::empty() =~= token@);
                }
            }
            let t = string_of(token.as_slice());
            proof {
                assert(string_views(tokens@.push(t)) =~= string_views(tokens@).push(t@));
                assert(string_views(tokens@) + tokens_from(s@, i0 as int) =~= string_views(
                    tokens@.push(t),
                ) + tokens_from(s@, i as int));
            }
            tokens.push(t);
        } else {
            let start = i;
            i = i + 1;
            while i < n && !is_whitespace(s[i]) && s[i] != '{'
                invariant
                    n == s@.len(),
                    start < i <= n,
                    bare_end(s@, start + 1) == bare_end(s@, i as int),
                decreases n - i,
            {
                i = i + 1;
            }
            let t = string_of_range(s.as_slice(), start, i);
            proof {
                assert(string_views(tokens@.push(t)) =~= string_views(tokens@).push(t@));
                assert(string_views(tokens@) + tokens_from(s@, start as int) =~= string_views(
                    tokens@.push(t),
                ) + tokens_from(s@, i as int));
            }
            tokens.push(t);
        }
    }
    proof {
        assert(string_views(tokens@) + Seq::<Seq<char>>::empty() =~= string_views(tokens@));
    }
    tokens
}

/// The second token, if there is one.
pub open spec fn second(ts: Seq<Seq<char>>) -> Option<Seq<char>> {
    if ts.len() > 1 {
        Some(ts[1])
    } else {
        None
    }
}

/// Whether an actual result matches the expected one: two error results
/// (first token `1`) match when their messages (second tokens) agree; other
/// results match when all their tokens agree.
pub open spec fn result_matches(actual: Seq<char>, expected: Seq<char>) -> bool {
    let a = tokens_from(actual, 0);
    let e = tokens_from(expected, 0);
    if e.len() > 0 && e[0] == seq!['1'] && a.len() > 0 && a[0] == seq!['1'] {
        second(a) == second(e)
    } else {
        a == e
    }
}

/// Whether a string is the one character `1`.
fn is_one(s: &String) -> (b: bool)
    ensures
        b == (s@ == seq!['1']),
{
    let cs = chars_of(s.as_str());
    let r = cs.len() == 1 && cs[0] == '1';
    proof {
        if r {
            assert(cs@ =~= seq!['1']);
        }
    }
    r
}

/// Whether two lists of strings hold the same strings in the same order.
fn same_strings(a: &Vec<String>, b: &Vec<String>) -> (r: bool)
    ensures
        r == (string_views(a@) == string_views(b@)),
{
    if a.len() != b.len() {
        proof {
            assert(string_views(a@).len() != string_views(b@).len());
        }
        return false;
    }
    let mut k: usize = 0;
    while k < a.len()
        invariant
            a@.len() == b@.len(),
            k <= a@.len(),
            forall|j: int| 0 <= j < k ==> a@[j]@ == b@[j]@,
        decreases a@.len() - k,
    {
        if a[k] != b[k] {
            proof {
                assert(string_views(a@)[k as int] != string_views(b@)[k as int]);
            }
            return false;
        }
        k = k + 1;
    }
    proof {
        assert(string_views(a@) =~= string_views(b@));
    }
    true
}

pub fn results_match(actual: &str, expected: &str) -> (m: bool)
    ensures
        m == result_matches(actual@, expected@),
{
    let actual_tokens = parse_result_tokens(actual);
    let expected_tokens = parse_result_tokens(expected);
    let ghost a = string_views(actual_tokens@);
    let ghost e = string_views(expected_tokens@);
    if expected_tokens.len() > 0 && is_one(&expected_tokens[0]) && actual_tokens.len() > 0 && is_one(
        &actual_tokens[0],
    ) {
        proof {
            assert(e[0] == expected_tokens@[0]@);
            assert(a[0] == actual_tokens@[0]@);
        }
        if actual_tokens.len() > 1 && expected_tokens.len() > 1 {
            proof {
                assert(a[1] == actual_tokens@[1]@);
                assert(e[1] == expected_tokens@[1]@);
            }
            return actual_tokens[1] == expected_tokens[1];
        }
        return actual_tokens.len() <= 1 && expected_tokens.len() <= 1;
    }
    proof {
        if expected_tokens@.len() > 0 {
            assert(e[0] == expected_tokens@[0]@);
        }
        if actual_tokens@.len() > 0 {
            assert(a[0] == actual_tokens@[0]@);
        }
    }
    same_strings(&actual_tokens, &expected_tokens)
}

/// The words of `s`: its maximal runs of characters that are not whitespace.
pub open spec fn words(s: Seq<char>) -> Seq<Seq<char>>
    decreases s.len(),
{
    if s.len() == 0 {
        seq![]
    } else {
        let w = words(s.drop_last());
        if is_ws(s.last()) {
            w
        } else if s.len() >= 2 && !is_ws(s[s.len() - 2]) {
            w.update(w.len() - 1, w.last().push(s.last()))
        } else {
            w.push(seq![s.last()])
        }
    }
}

/// The pieces joined with one `sep` between each two.
pub open spec fn join(ps: Seq<Seq<char>>, sep: char) -> Seq<char>
    decreases ps.len(),
{
    if ps.len() == 0 {
        seq![]
    } else if ps.len() == 1 {
        ps[0]
    } else {
        join(ps.drop_last(), sep).push(sep) + ps.last()
    }
}

/// Text with its whitespace runs collapsed to single spaces and trimmed: its
/// words joined by spaces.
pub open spec fn normalized(s: Seq<char>) -> Seq<char> {
    join(words(s), ' ')
}

proof fn lemma_words_shape(s: Seq<char>)
    ensures
        forall|k: int| 0 <= k < words(s).len() ==> #[trigger] words(s)[k].len() > 0,
        s.len() > 0 && !is_ws(s.last()) ==> words(s).len() > 0,
    decreases s.len(),
{
    if s.len() > 0 {
        lemma_words_shape(s.drop_last());
        let d = s.drop_last();
        if !is_ws(s.last()) && s.len() >= 2 && !is_ws(s[s.len() - 2]) {
            assert(d.last() == s[s.len() - 2]);
        }
    }
}

proof fn lemma_join_nonempty(ps: Seq<Seq<char>>, sep: char)
    requires
        forall|k: int| 0 <= k < ps.len() ==> #[trigger] ps[k].len() > 0,
    ensures
        (join(ps, sep).len() == 0) == (ps.len() == 0),
    decreases ps.len(),
{
    if ps.len() > 1 {
        assert(ps.last() == ps[ps.len() - 1]);
    } else if ps.len() == 1 {
        assert(ps[0].len() > 0);
    }
}

proof fn lemma_join_extend(ps: Seq<Seq<char>>, sep: char, c: char)
    requires
        ps.len() > 0,
    ensures
        join(ps.update(ps.len() - 1, ps.last().push(c)), sep) == join(ps, sep).push(c),
{
    let q = ps.update(ps.len() - 1, ps.last().push(c));
    if ps.len() > 1 {
        assert(q.drop_last() =~= ps.drop_last());
        assert(join(q, sep) =~= join(ps, sep).push(c));
    } else {
        assert(join(q, sep) =~= join(ps, sep).push(c));
    }
}

proof fn lemma_join_push(ps: Seq<Seq<char>>, sep: char, w: Seq<char>)
    ensures
        join(ps.push(w), sep) == if ps.len() == 0 {
            w
        } else {
            join(ps, sep).push(sep) + w
        },
{
    assert(ps.push(w).drop_last() =~= ps);
}

/// Collapses whitespace runs to single spaces and trims the ends.
pub fn normalize(text: &str) -> (out: String)
    ensures
        out@ == normalized(text@),
{
    let s = chars_of(text);
    let mut out: Vec<char> = Vec::new();
    let mut i: usize = 0;
    while i < s.len()
        invariant
            i <= s@.len(),
            s@ == text@,
            out@ == normalized(s@.subrange(0, i as int)),
        decreases s@.len() - i,
    {
        let c = s[i];
        let ghost pre = s@.subrange(0, i as int);
        let ghost cur = s@.subrange(0, i + 1);
        proof {
            assert(cur.drop_last() =~= pre);
            assert(cur.last() == c);
            lemma_words_shape(pre);
            lemma_join_nonempty(words(pre), ' ');
        }
        if !is_whitespace(c) {
            if i > 0 && !is_whitespace(s[i - 1]) {
                proof {
                    assert(cur[cur.len() - 2] == s@[i - 1]);
                    assert(pre.last() == s@[i - 1]);
                    lemma_join_extend(words(pre), ' ', c);
                }
                out.push(c);
            } else {
                proof {
                    lemma_join_push(words(pre), ' ', seq![c]);
                    if i > 0 {
                        assert(cur[cur.len() - 2] == s@[i - 1]);
                    }
                }
                if out.len() > 0 {
                    out.push(' ');
                }
                out.push(c);
                proof {
                    if words(pre).len() == 0 {
                        assert(out@ =~= seq![c]);
                    } else {
                        assert(out@ =~= join(words(pre), ' ').push(' ') + seq![c]);
                    }
                }
            }
        }
        i = i + 1;
    }
    proof {
        assert(s@.subrange(0, s@.len() as int) =~= s@);
    }
    string_of(out.as_slice())
}

/// A row value as the TCL list shows it: `{}` for an empty value.
pub open spec fn shown(v: Seq<char>) -> Seq<char> {
    if v.len() == 0 {
        seq!['{', '}']
    } else {
        v
    }
}

/// The values shown as a TCL list: each shown value, separated by spaces.
pub open spec fn formatted(rows: Seq<Seq<char>>) -> Seq<char> {
    join(rows.map_values(|v: Seq<char>| shown(v)), ' ')
}

/// Formats result values as a TCL list, an empty value as `{}`.
pub fn format_result(rows: &[String]) -> (out: String)
    ensures
        out@ == formatted(rows@.map_values(|r: String| r@)),
{
    let ghost vs = rows@.map_values(|r: String| r@);
    let mut out: Vec<char> = Vec::new();
    let mut k: usize = 0;
    while k < rows.len()
        invariant
            k <= rows@.len(),
            vs == rows@.map_values(|r: String| r@),
            out@ == formatted(vs.subrange(0, k as int)),
        decreases rows@.len() - k,
    {
        let v = chars_of(rows[k].as_str());
        let ghost pre = vs.subrange(0, k as int).map_values(|v: Seq<char>| shown(v));
        proof {
            assert(vs.subrange(0, k + 1).map_values(|v: Seq<char>| shown(v)) =~= pre.push(
                shown(vs[k as int]),
            ));
            lemma_join_push(pre, ' ', shown(vs[k as int]));
        }
        if k > 0 {
            out.push(' ');
        }
        if v.len() == 0 {
            out.push('{');
            out.push('}');
        } else {
            let mut j: usize = 0;
            let ghost base = out@;
            while j < v.len()
                invariant
                    j <= v@.len(),
                    out@ == base + v@.subrange(0, j as int),
                decreases v@.len() - j,
            {
                out.push(v[j]);
                j = j + 1;
                proof {
                    assert(v@.subrange(0, j as int) =~= v@.subrange(0, j - 1).push(v@[j - 1]));
                }
            }
            proof {
                assert(v@.subrange(0, v@.len() as int) =~= v@);
            }
        }
        proof {
            if k == 0 {
                assert(out@ =~= shown(vs[k as int]));
            } else {
                assert(out@ =~= join(pre, ' ').push(' ') + shown(vs[k as int]));
            }
        }
        k = k + 1;
    }
    proof {
        assert(vs.subrange(0, rows@.len() as int) =~= vs);
    }
    string_of(out.as_slice())
}

/// Number of occurrences of `c` in `s`.
pub open spec fn count_char(s: Seq<char>, c: char) -> nat
    decreases s.len(),
{
    if s.len() == 0 {
        0
    } else {
        count_char(s.drop_last(), c) + if s.last() == c {
            1nat
        } else {
            0nat
        }
    }
}

/// The first index at or after `i` where `needle` occurs in `hay`.
pub open spec fn find_from(hay: Seq<char>, needle: Seq<char>, i: int) -> Option<int>
    decreases hay.len() + 1 - i,
{
    if i < 0 || i + needle.len() > hay.len() {
        None
    } else if hay.subrange(i, i + needle.len()) == needle {
        Some(i)
    } else {
        find_from(hay, needle, i + 1)
    }
}

/// The first index where `needle` occurs in `hay`.
pub open spec fn find(hay: Seq<char>, needle: Seq<char>) -> Option<int> {
    find_from(hay, needle, 0)
}

pub proof fn lemma_find_from_bound(hay: Seq<char>, needle: Seq<char>, i: int)
    ensures
        find_from(hay, needle, i) matches Some(k) ==> i <= k && k + needle.len() <= hay.len(),
    decreases hay.len() + 1 - i,
{
    if 0 <= i && i + needle.len() <= hay.len() && hay.subrange(i, i + needle.len()) != needle {
        lemma_find_from_bound(hay, needle, i + 1);
    }
}

/// Whether the brace scan that `braced_token` makes from `i` meets the brace
/// that closes the first one.
pub open spec fn brace_closes(s: Seq<char>, i: int, depth: nat) -> bool
    decreases s.len() - i,
{
    if i < 0 || i >= s.len() {
        false
    } else if s[i] == '{' {
        brace_closes(s, i + 1, depth + 1)
    } else if s[i] == '}' {
        depth <= 1 || brace_closes(s, i + 1, (depth - 1) as nat)
    } else {
        brace_closes(s, i + 1, depth)
    }
}

/// The braced block at the start of `s` after any whitespace: its contents
/// without the outer braces, the number of characters up to and including
/// the closing brace, and the number of newlines from the opening brace on.
pub open spec fn braced_at(s: Seq<char>) -> Option<(Seq<char>, int, nat)> {
    let k = lead_ws(s) as int;
    if k < s.len() && s[k] == '{' && brace_closes(s, k + 1, 1) {
        let r = braced_token(s, k + 1, 1);
        Some((r.0, r.1, count_char(s.subrange(k, r.1), '\n')))
    } else {
        None
    }
}

proof fn lemma_count_char_step(s: Seq<char>, c: char, a: int, b: int)
    requires
        0 <= a <= b < s.len(),
    ensures
        count_char(s.subrange(a, b + 1), c) == count_char(s.subrange(a, b), c) + if s[b] == c {
            1nat
        } else {
            0nat
        },
{
    assert(s.subrange(a, b + 1).drop_last() =~= s.subrange(a, b));
}

proof fn lemma_count_char_le(s: Seq<char>, c: char)
    ensures
        count_char(s, c) <= s.len(),
    decreases s.len(),
{
    if s.len() > 0 {
        lemma_count_char_le(s.drop_last(), c);
    }
}

/// Counts the newlines in `s[from..to]`.
pub fn count_newlines(s: &[char], from: usize, to: usize) -> (n: usize)
    requires
        from <= to <= s@.len(),
    ensures
        n == count_char(s@.subrange(from as int, to as int), '\n'),
{
    let mut n: usize = 0;
    let mut k = from;
    proof {
        assert(s@.subrange(from as int, from as int) =~= Seq::<char>::empty());
    }
    while k < to
        invariant
            from <= k <= to <= s@.len(),
            n == count_char(s@.subrange(from as int, k as int), '\n'),
            n <= k - from,
        decreases to - k,
    {
        proof {
            lemma_count_char_step(s@, '\n', from as int, k as int);
        }
        if s[k] == '\n' {
            n = n + 1;
        }
        k = k + 1;
    }
    n
}

/// The first index at or after `from` where the characters of `needle` occur in `hay`.
pub fn find_chars(hay: &[char], needle: &[char], from: usize) -> (r: Option<usize>)
    requires
        from <= hay@.len(),
    ensures
        r matches Some(k) ==> find_from(hay@, needle@, from as int) == Some(k as int),
        r is None ==> find_from(hay@, needle@, from as int) is None,
{
    let n = needle.len();
    let h = hay.len();
    if n > h {
        return None;
    }
    let mut i = from;
    while i <= h - n
        invariant
            from <= i,
            n == needle@.len(),
            h == hay@.len(),
            n <= h,
            find_from(hay@, needle@, from as int) == find_from(hay@, needle@, i as int),
        decreases h - i,
    {
        let mut j: usize = 0;
        while j < n && hay[i + j] == needle[j]
            invariant
                j <= n,
                i + n <= h,
                n == needle@.len(),
                h == hay@.len(),
                forall|q: int| 0 <= q < j ==> hay@[i + q] == needle@[q],
            decreases n - j,
        {
            j = j + 1;
        }
        if j == n {
            proof {
                assert(hay@.subrange(i as int, i + n) =~= needle@);
            }
            return Some(i);
        }
        proof {
            assert(hay@.subrange(i as int, i + n)[j as int] != needle@[j as int]);
        }
        i = i + 1;
    }
    None
}

/// The braced block of `s` at `from` after any whitespace: its contents, the
/// characters it takes from `from` on (whitespace and braces included), and
/// the newlines from its opening brace to its closing one.
pub fn extract_braced_from_str(s: &[char], from: usize) -> (r: Option<(Vec<char>, usize, usize)>)
    requires
        from <= s@.len(),
    ensures
        r matches Some((c, used, lines)) ==> braced_at(s@.subrange(from as int, s@.len() as int))
            == Some((c@, used as int, lines as nat)),
        r is None ==> braced_at(s@.subrange(from as int, s@.len() as int)) is None,
{
    let ghost t = s@.subrange(from as int, s@.len() as int);
    let start = skip_ws(s, from);
    if start >= s.len() || s[start] != '{' {
        return None;
    }
    let ghost k = start - from;
    proof {
        assert(t[k] == s@[start as int]);
    }
    let n = s.len();
    let mut i = start + 1;
    let mut depth: usize = 1;
    let mut content: Vec<char> = Vec::new();
    while i < n
        invariant
            n == s@.len(),
            from <= start < i <= n,
            t == s@.subrange(from as int, s@.len() as int),
            k == start - from,
            lead_ws(t) == k,
            k < t.len() && t[k] == '{',
            1 <= depth <= i - start,
            braced_token(t, k + 1, 1) == (
                content@ + braced_token(t, i - from, depth as nat).0,
                braced_token(t, i - from, depth as nat).1,
            ),
            brace_closes(t, k + 1, 1) == brace_closes(t, i - from, depth as nat),
        decreases n - i,
    {
        let c = s[i];
        proof {
            assert(t[i - from] == c);
        }
        if c == '{' {
            depth = depth + 1;
            content.push(c);
            proof {
                assert(content@ + braced_token(t, i + 1 - from, depth as nat).0 =~= content@.drop_last()
                    + (seq!['{'] + braced_token(t, i + 1 - from, depth as nat).0));
            }
        } else if c == '}' {
            if depth == 1 {
                let lines = count_newlines(s, start, i + 1);
                proof {
                    assert(content@ + Seq::<char>::empty() =~= content@);
                    assert(t.subrange(k, i + 1 - from) =~= s@.subrange(start as int, i + 1));
                    assert(braced_token(t, i - from, 1) == (Seq::<char>::empty(), i + 1 - from));
                    assert(brace_closes(t, i - from, 1));
                    assert(lead_ws(t) == k);
                }
                return Some((content, i + 1 - from, lines));
            }
            depth = depth - 1;
            content.push(c);
            proof {
                assert(content@ + braced_token(t, i + 1 - from, depth as nat).0 =~= content@.drop_last()
                    + (seq!['}'] + braced_token(t, i + 1 - from, depth as nat).0));
            }
        } else {
            content.push(c);
            proof {
                assert(content@ + braced_token(t, i + 1 - from, depth as nat).0 =~= content@.drop_last()
                    + (seq![c] + braced_token(t, i + 1 - from, depth as nat).0));
            }
        }
        i = i + 1;
    }
    None
}

/// The first word of `s` from `from` on, after whitespace: nothing when the
/// rest is blank or begins with a brace.
pub open spec fn first_word(s: Seq<char>) -> Option<Seq<char>> {
    let k = lead_ws(s) as int;
    if k >= s.len() || s[k] == '{' {
        None
    } else {
        Some(s.subrange(k, bare_end(s, k)))
    }
}

/// The range of the first word of `s[from..]` (see `first_word`).
pub fn first_token(s: &[char], from: usize) -> (r: Option<(usize, usize)>)
    requires
        from <= s@.len(),
    ensures
        r matches Some((a, b)) ==> from <= a <= b <= s@.len() && first_word(
            s@.subrange(from as int, s@.len() as int),
        ) == Some(s@.subrange(a as int, b as int)),
        r is None ==> first_word(s@.subrange(from as int, s@.len() as int)) is None,
{
    let ghost t = s@.subrange(from as int, s@.len() as int);
    let a = skip_ws(s, from);
    if a >= s.len() || s[a] == '{' {
        proof {
            if a < s@.len() {
                assert(t[a - from] == s@[a as int]);
            }
        }
        return None;
    }
    let mut b = a;
    while b < s.len() && !is_whitespace(s[b]) && s[b] != '{'
        invariant
            from <= a <= b <= s@.len(),
            t == s@.subrange(from as int, s@.len() as int),
            bare_end(t, a - from) == bare_end(t, b - from),
        decreases s@.len() - b,
    {
        proof {
            assert(t[b - from] == s@[b as int]);
        }
        b = b + 1;
    }
    proof {
        assert(t[a - from] == s@[a as int]);
        if b < s@.len() {
            assert(t[b - from] == s@[b as int]);
        }
        assert(t.subrange(a - from, b - from) =~= s@.subrange(a as int, b as int));
    }
    Some((a, b))
}

/// The characters of each line.
pub open spec fn line_views(lines: Seq<&str>) -> Seq<Seq<char>> {
    lines.map_values(|l: &str| l@)
}

/// The lines from `start` on, joined with newlines.
pub open spec fn joined_from(lines: Seq<Seq<char>>, start: int) -> Seq<char> {
    join(lines.subrange(start, lines.len() as int), '\n')
}

/// Joins `lines[start..]` with newlines.
fn join_lines(lines: &[&str], start: usize) -> (out: Vec<char>)
    requires
        start <= lines@.len(),
    ensures
        out@ == joined_from(line_views(lines@), start as int),
{
    let ghost lv = line_views(lines@);
    let mut out: Vec<char> = Vec::new();
    let mut k = start;
    proof {
        assert(lv.subrange(start as int, start as int) =~= Seq::<Seq<char>>::empty());
    }
    while k < lines.len()
        invariant
            start <= k <= lines@.len(),
            lv == line_views(lines@),
            out@ == join(lv.subrange(start as int, k as int), '\n'),
        decreases lines@.len() - k,
    {
        let line = chars_of(lines[k]);
        proof {
            assert(lv.subrange(start as int, k + 1) =~= lv.subrange(start as int, k as int).push(
                lv[k as int],
            ));
            lemma_join_push(lv.subrange(start as int, k as int), '\n', lv[k as int]);
            assert(lv[k as int] == line@);
        }
        let ghost base = out@;
        if k > start {
            out.push('\n');
        }
        let ghost mid = out@;
        let mut j: usize = 0;
        while j < line.len()
            invariant
                j <= line@.len(),
                out@ == mid + line@.subrange(0, j as int),
            decreases line@.len() - j,
        {
            out.push(line[j]);
            j = j + 1;
            proof {
                assert(line@.subrange(0, j as int) =~= line@.subrange(0, j - 1).push(line@[j - 1]));
            }
        }
        proof {
            assert(line@.subrange(0, line@.len() as int) =~= line@);
            if k > start {
                assert(out@ =~= base.push('\n') + line@);
            } else {
                assert(out@ =~= line@);
            }
        }
        k = k + 1;
    }
    out
}

/// Up to `n` braced blocks read one after another from `pos` in `c`, and the
/// position after the last one read.
pub open spec fn blocks_from(c: Seq<char>, pos: int, n: nat) -> (Seq<Seq<char>>, int)
    decreases n,
{
    if n == 0 {
        (seq![], pos)
    } else {
        match braced_at(c.subrange(pos, c.len() as int)) {
            None => (seq![], pos),
            Some((b, used, _)) => {
                let r = blocks_from(c, pos + used, (n - 1) as nat);
                (seq![b] + r.0, r.1)
            },
        }
    }
}

/// The name of a test directive (the first word of `rest`), its braced blocks
/// (up to three, read after the first place the name occurs in the joined
/// lines from `start` on) and the line where the last block ends.
pub open spec fn name_and_blocks(lines: Seq<Seq<char>>, start: int, rest: Seq<char>) -> Option<
    (Seq<char>, Seq<Seq<char>>, int),
> {
    match first_word(rest) {
        None => None,
        Some(name) => {
            let c = joined_from(lines, start);
            match find(c, name) {
                None => None,
                Some(p) => {
                    let r = blocks_from(c, p + name.len(), 3);
                    if r.0.len() == 0 {
                        None
                    } else {
                        Some((name, r.0, start + count_char(c.subrange(0, r.1), '\n')))
                    }
                },
            }
        },
    }
}

pub proof fn lemma_braced_at_used(s: Seq<char>)
    ensures
        braced_at(s) matches Some((b, used, l)) ==> 0 < used <= s.len(),
{
    let k = lead_ws(s) as int;
    crate::text::lemma_lead_ws_bound(s);
    if k < s.len() && s[k] == '{' && brace_closes(s, k + 1, 1) {
        lemma_braced_progress(s, k + 1, 1);
    }
}

/// Reads the name of a directive and up to three braced blocks after it.
pub fn parse_name_and_blocks(lines: &[&str], start: usize, rest: &[char]) -> (r: Option<
    (String, Vec<String>, usize),
>)
    requires
        start <= lines@.len(),
        start + joined_from(line_views(lines@), start as int).len() <= usize::MAX,
    ensures
        match r {
            None => name_and_blocks(line_views(lines@), start as int, rest@) is None,
            Some((name, blocks, end)) => name_and_blocks(line_views(lines@), start as int, rest@)
                == Some((name@, string_views(blocks@), end as int)),
        },
{
    let (na, nb) = match first_token(rest, 0) {
        Some(p) => p,
        None => {
            proof {
                assert(rest@.subrange(0, rest@.len() as int) =~= rest@);
            }
            return None;
        },
    };
    proof {
        assert(rest@.subrange(0, rest@.len() as int) =~= rest@);
    }
    let ghost name = rest@.subrange(na as int, nb as int);
    let combined = join_lines(lines, start);
    let name_chars = slice_to_vec(slice_subrange(rest, na, nb));
    let p = match find_chars(combined.as_slice(), name_chars.as_slice(), 0) {
        Some(p) => p,
        None => return None,
    };
    proof {
        lemma_find_from_bound(combined@, name, 0);
    }
    let mut pos = p + name_chars.len();
    let mut blocks: Vec<String> = Vec::new();
    let mut round: usize = 0;
    let ghost c = combined@;
    let ghost p0 = pos as int;
    let mut stopped = false;
    let clen = combined.len();
    while round < 3 && !stopped
        invariant
            round <= 3,
            c == combined@,
            clen == combined@.len(),
            pos <= combined@.len(),
            blocks_from(c, p0, 3) == ({
                let r = blocks_from(c, pos as int, (3 - round) as nat);
                (string_views(blocks@) + r.0, r.1)
            }),
            stopped ==> round < 3 && braced_at(c.subrange(pos as int, c.len() as int)) is None,
        decreases 2 * (3 - round) + (if stopped {
            0int
        } else {
            1int
        }),
    {
        match extract_braced_from_str(combined.as_slice(), pos) {
            Some((block, consumed, _)) => {
                proof {
                    lemma_braced_at_used(c.subrange(pos as int, c.len() as int));
                }
                let b = string_of(block.as_slice());
                proof {
                    let r = blocks_from(c, pos + consumed, (3 - round - 1) as nat);
                    assert(string_views(blocks@.push(b)) =~= string_views(blocks@).push(b@));
                    assert(string_views(blocks@) + (seq![b@] + r.0) =~= string_views(blocks@.push(b))
                        + r.0);
                }
                blocks.push(b);
                pos = pos + consumed;
                round = round + 1;
            },
            None => {
                stopped = true;
            },
        }
    }
    proof {
        assert(string_views(blocks@) + Seq::<Seq<char>>::empty() =~= string_views(blocks@));
        assert(name_chars@ == name);
    }
    if blocks.len() == 0 {
        proof {
            assert(string_views(blocks@).len() == 0);
        }
        return None;
    }
    let newlines = count_newlines(combined.as_slice(), 0, pos);
    proof {
        lemma_count_char_le(c.subrange(0, pos as int), '\n');
    }
    let name_string = string_of(name_chars.as_slice());
    Some((name_string, blocks, start + newlines))
}

/// What a test directive asks for.
pub enum TestKind {
    /// Run `sql` and compare with `expected`; with `catch`, compare the error
    /// status and message instead.
    ExecSql { sql: String, expected: String, catch: bool },
    /// Run the TCL `body` of a `do_test`.
    DoTest { body: String },
}

/// A test directive read from a script.
pub struct ParsedDirective {
    pub name: String,
    pub kind: TestKind,
    pub expected: Option<String>,
    /// The line where the directive ends.
    pub end_line: usize,
}

/// The contents of a `TestKind`.
pub enum KindView {
    ExecSql { sql: Seq<char>, expected: Seq<char>, catch: bool },
    DoTest { body: Seq<char> },
}

/// The contents of a `ParsedDirective`.
pub struct DirectiveView {
    pub name: Seq<char>,
    pub kind: KindView,
    pub expected: Option<Seq<char>>,
    pub end_line: int,
}

impl View for TestKind {
    type V = KindView;

    open spec fn view(&self) -> KindView {
        match self {
            TestKind::ExecSql { sql, expected, catch } => KindView::ExecSql {
                sql: sql@,
                expected: expected@,
                catch: *catch,
            },
            TestKind::DoTest { body } => KindView::DoTest { body: body@ },
        }
    }
}

impl View for ParsedDirective {
    type V = DirectiveView;

    open spec fn view(&self) -> DirectiveView {
        DirectiveView {
            name: self.name@,
            kind: self.kind@,
            expected: match self.expected {
                Some(e) => Some(e@),
                None => None,
            },
            end_line: self.end_line as int,
        }
    }
}

/// The block at index `k`, or empty text when there are fewer blocks.
pub open spec fn block_or_empty(blocks: Seq<Seq<char>>, k: int) -> Seq<char> {
    if 0 <= k < blocks.len() {
        blocks[k]
    } else {
        seq![]
    }
}

/// The directive of a `do_execsql_test`/`do_catchsql_test` whose name and blocks are given.
pub open spec fn sql_directive(nb: (Seq<char>, Seq<Seq<char>>, int), catch: bool) -> DirectiveView {
    DirectiveView {
        name: nb.0,
        kind: KindView::ExecSql {
            sql: block_or_empty(nb.1, 0),
            expected: block_or_empty(nb.1, 1),
            catch,
        },
        expected: None,
        end_line: nb.2,
    }
}

/// The test directive that starts at line `start`: `do_execsql_test`,
/// `do_catchsql_test` (SQL and expected result) or `do_test` (a TCL body and,
/// when given, the expected result), each with a name and braced blocks.
pub open spec fn directive_at(lines: Seq<Seq<char>>, start: int) -> Option<DirectiveView> {
    let line = trim(lines[start]);
    let exec_kw = "do_execsql_test "@;
    let catch_kw = "do_catchsql_test "@;
    let test_kw = "do_test "@;
    if exec_kw.is_prefix_of(line) {
        match name_and_blocks(lines, start, line.subrange(exec_kw.len() as int, line.len() as int)) {
            None => None,
            Some(nb) => Some(sql_directive(nb, false)),
        }
    } else if catch_kw.is_prefix_of(line) {
        match name_and_blocks(lines, start, line.subrange(catch_kw.len() as int, line.len() as int)) {
            None => None,
            Some(nb) => Some(sql_directive(nb, true)),
        }
    } else if test_kw.is_prefix_of(line) {
        match name_and_blocks(lines, start, line.subrange(test_kw.len() as int, line.len() as int)) {
            None => None,
            Some(nb) => Some(
                DirectiveView {
                    name: nb.0,
                    kind: KindView::DoTest { body: block_or_empty(nb.1, 0) },
                    expected: if nb.1.len() > 1 {
                        Some(nb.1[1])
                    } else {
                        None
                    },
                    end_line: nb.2,
                },
            ),
        }
    } else {
        None
    }
}

/// Whether `p` is a prefix of `s[from..to]`.
pub fn has_prefix(s: &[char], from: usize, to: usize, p: &[char]) -> (b: bool)
    requires
        from <= to <= s@.len(),
    ensures
        b == p@.is_prefix_of(s@.subrange(from as int, to as int)),
{
    if p.len() > to - from {
        return false;
    }
    let mut k: usize = 0;
    while k < p.len()
        invariant
            k <= p@.len(),
            from + p@.len() <= to <= s@.len(),
            forall|j: int| 0 <= j < k ==> p@[j] == s@[from + j],
        decreases p@.len() - k,
    {
        if p[k] != s[from + k] {
            proof {
                assert(s@.subrange(from as int, to as int)[k as int] == s@[from + k]);
            }
            return false;
        }
        k = k + 1;
    }
    proof {
        assert forall|j: int| 0 <= j < p@.len() implies p@[j] == s@.subrange(
            from as int,
            to as int,
        )[j] by {
            assert(s@.subrange(from as int, to as int)[j] == s@[from + j]);
        }
    }
    true
}

/// The string of block `k`, or an empty string when there are fewer blocks.
fn block_string(blocks: &Vec<String>, k: usize) -> (s: String)
    ensures
        s@ == block_or_empty(string_views(blocks@), k as int),
{
    if k < blocks.len() {
        blocks[k].clone()
    } else {
        String::new()
    }
}

/// Reads the test directive that starts at line `start`, if there is one.
pub fn parse_test_directive(lines: &[&str], start: usize) -> (r: Option<ParsedDirective>)
    requires
        start < lines@.len(),
        start + joined_from(line_views(lines@), start as int).len() <= usize::MAX,
    ensures
        match r {
            None => directive_at(line_views(lines@), start as int) is None,
            Some(d) => directive_at(line_views(lines@), start as int) == Some(d@),
        },
{
    let raw = chars_of(lines[start]);
    let (a, b) = trim_range(raw.as_slice(), 0, raw.len());
    let ghost line = raw@.subrange(a as int, b as int);
    proof {
        assert(raw@.subrange(0, raw@.len() as int) =~= raw@);
        assert(line_views(lines@)[start as int] == raw@);
    }
    let exec_kw = chars_of("do_execsql_test ");
    let catch_kw = chars_of("do_catchsql_test ");
    let test_kw = chars_of("do_test ");
    let is_exec = has_prefix(raw.as_slice(), a, b, exec_kw.as_slice());
    let is_catch = !is_exec && has_prefix(raw.as_slice(), a, b, catch_kw.as_slice());
    if is_exec || is_catch {
        let kw_len = if is_exec {
            exec_kw.len()
        } else {
            catch_kw.len()
        };
        let rest = slice_to_vec(slice_subrange(raw.as_slice(), a + kw_len, b));
        proof {
            assert(rest@ =~= line.subrange(kw_len as int, line.len() as int));
        }
        let (name, blocks, end_line) = match parse_name_and_blocks(lines, start, rest.as_slice()) {
            Some(t) => t,
            None => return None,
        };
        let sql = block_string(&blocks, 0);
        let expected = block_string(&blocks, 1);
        return Some(
            ParsedDirective {
                name,
                kind: TestKind::ExecSql { sql, expected, catch: is_catch },
                expected: None,
                end_line,
            },
        );
    }
    if has_prefix(raw.as_slice(), a, b, test_kw.as_slice()) {
        let rest = slice_to_vec(slice_subrange(raw.as_slice(), a + test_kw.len(), b));
        proof {
            assert(rest@ =~= line.subrange(test_kw@.len() as int, line.len() as int));
        }
        let (name, blocks, end_line) = match parse_name_and_blocks(lines, start, rest.as_slice()) {
            Some(t) => t,
            None => return None,
        };
        let body = block_string(&blocks, 0);
        let expected = if blocks.len() > 1 {
            Some(blocks[1].clone())
        } else {
            None
        };
        proof {
            if blocks@.len() > 1 {
                assert(string_views(blocks@)[1] == blocks@[1]@);
            }
        }
        return Some(
            ParsedDirective { name, kind: TestKind::DoTest { body }, expected, end_line },
        );
    }
    None
}

/// An `execsql {...}` at line `start`: its SQL and the line where it ends.
pub open spec fn inline_execsql_at(lines: Seq<Seq<char>>, start: int) -> Option<(Seq<char>, int)> {
    let c = joined_from(lines, start);
    match find(c, "execsql"@) {
        None => None,
        Some(p) => {
            let q = p + "execsql"@.len();
            match braced_at(c.subrange(q, c.len() as int)) {
                None => None,
                Some((sql, used, _)) => Some(
                    (sql, start + count_char(c.subrange(0, q + used), '\n')),
                ),
            }
        },
    }
}

/// Reads `execsql {SQL}` from line `start` on: the SQL and the line where it ends.
pub fn parse_inline_execsql(lines: &[&str], start: usize) -> (r: Option<(String, usize)>)
    requires
        start <= lines@.len(),
        start + joined_from(line_views(lines@), start as int).len() <= usize::MAX,
    ensures
        match r {
            None => inline_execsql_at(line_views(lines@), start as int) is None,
            Some((sql, end)) => inline_execsql_at(line_views(lines@), start as int) == Some(
                (sql@, end as int),
            ),
        },
{
    let combined = join_lines(lines, start);
    let kw = chars_of("execsql");
    let p = match find_chars(combined.as_slice(), kw.as_slice(), 0) {
        Some(p) => p,
        None => return None,
    };
    proof {
        lemma_find_from_bound(combined@, kw@, 0);
    }
    let exec_pos = p + kw.len();
    let (sql, consumed, _) = match extract_braced_from_str(combined.as_slice(), exec_pos) {
        Some(t) => t,
        None => return None,
    };
    proof {
        lemma_braced_at_used(combined@.subrange(exec_pos as int, combined@.len() as int));
        lemma_count_char_le(combined@.subrange(0, exec_pos + consumed), '\n');
    }
    let end_pos = exec_pos + consumed;
    let newlines = count_newlines(combined.as_slice(), 0, end_pos);
    Some((string_of(sql.as_slice()), start + newlines))
}

/// The contents of the braced block after the first `directive` in `body`.
pub open spec fn directive_call(body: Seq<char>, directive: Seq<char>) -> Option<Seq<char>> {
    match find(body, directive) {
        None => None,
        Some(i) => match braced_at(body.subrange(i + directive.len(), body.len() as int)) {
            None => None,
            Some((sql, _, _)) => Some(sql),
        },
    }
}

/// The SQL of the first `execsql {...}` after the first `catch` in `body`
/// (as in `set v [catch {execsql {SQL}} msg]`).
pub open spec fn catch_execsql(body: Seq<char>) -> Option<Seq<char>> {
    match find(body, "catch"@) {
        None => None,
        Some(i) => {
            let after = body.subrange(i, body.len() as int);
            match find(after, "execsql"@) {
                None => None,
                Some(j) => match braced_at(
                    after.subrange(j + "execsql"@.len(), after.len() as int),
                ) {
                    None => None,
                    Some((sql, _, _)) => Some(sql),
                },
            }
        },
    }
}

/// The statements of the `execsql {...}` blocks of `body` from `p` on, in
/// order, leaving out a block whose statements are those of `caught`.
pub open spec fn setup_from(body: Seq<char>, p: int, caught: Option<Seq<char>>) -> Seq<Seq<char>>
    decreases body.len() - p,
{
    if p < 0 || p > body.len() {
        seq![]
    } else {
        match find_from(body, "execsql"@, p) {
            None => seq![],
            Some(i) => {
                let q = i + "execsql"@.len();
                proof {
                    reveal_strlit("execsql");
                    lemma_find_from_bound(body, "execsql"@, p);
                }
                match braced_at(body.subrange(q, body.len() as int)) {
                    Some((sql, used, _)) => {
                        proof {
                            lemma_braced_at_used(body.subrange(q, body.len() as int));
                        }
                        let skip = caught matches Some(c) && sql_statements(c) == sql_statements(
                            sql,
                        );
                        (if skip {
                            seq![]
                        } else {
                            sql_statements(sql)
                        }) + setup_from(body, q + used, caught)
                    },
                    None => setup_from(body, i + 1, caught),
                }
            },
        }
    }
}

/// What the body of a `do_test` runs: with a `catchsql {...}`, its statements
/// caught; else the statements of its `execsql` blocks as setup, and the SQL
/// of a `catch {execsql {...}}` as the caught part when there is one.
pub open spec fn body_commands(body: Seq<char>) -> (Seq<Seq<char>>, Option<Seq<char>>, bool) {
    match directive_call(body, "catchsql"@) {
        Some(sql) => (sql_statements(sql), None, true),
        None => {
            let caught = catch_execsql(body);
            let setup = setup_from(body, 0, caught);
            match caught {
                Some(c) => (setup, Some(c), true),
                None => (setup, None, false),
            }
        },
    }
}

/// The block after the first `directive` in `body`.
pub fn extract_directive_call(body: &[char], directive: &str) -> (r: Option<String>)
    ensures
        match r {
            None => directive_call(body@, directive@) is None,
            Some(s) => directive_call(body@, directive@) == Some(s@),
        },
{
    let d = chars_of(directive);
    let _blen = body.len();
    let idx = match find_chars(body, d.as_slice(), 0) {
        Some(i) => i,
        None => return None,
    };
    proof {
        lemma_find_from_bound(body@, d@, 0);
    }
    match extract_braced_from_str(body, idx + d.len()) {
        Some((sql, _, _)) => Some(string_of(sql.as_slice())),
        None => None,
    }
}

/// The SQL of `catch {execsql {SQL}}` in `body`.
pub fn extract_catch_execsql(body: &[char]) -> (r: Option<String>)
    ensures
        match r {
            None => catch_execsql(body@) is None,
            Some(s) => catch_execsql(body@) == Some(s@),
        },
{
    let catch_kw = chars_of("catch");
    let exec_kw = chars_of("execsql");
    let idx = match find_chars(body, catch_kw.as_slice(), 0) {
        Some(i) => i,
        None => return None,
    };
    proof {
        lemma_find_from_bound(body@, catch_kw@, 0);
    }
    let after = slice_to_vec(slice_subrange(body, idx, body.len()));
    let exec_idx = match find_chars(after.as_slice(), exec_kw.as_slice(), 0) {
        Some(i) => i,
        None => return None,
    };
    proof {
        lemma_find_from_bound(after@, exec_kw@, 0);
    }
    match extract_braced_from_str(after.as_slice(), exec_idx + exec_kw.len()) {
        Some((sql, _, _)) => Some(string_of(sql.as_slice())),
        None => None,
    }
}

/// Splits the body of a `do_test` into setup statements, the SQL whose error
/// is expected, and whether an error is expected.
pub fn extract_body_commands(body: &str) -> (r: (Vec<String>, Option<String>, bool))
    ensures
        string_views(r.0@) == body_commands(body@).0,
        r.1 matches Some(c) ==> body_commands(body@).1 == Some(c@),
        r.1 is None ==> body_commands(body@).1 is None,
        r.2 == body_commands(body@).2,
{
    let b = chars_of(body);
    if let Some(sql) = extract_directive_call(b.as_slice(), "catchsql") {
        return (split_sql(sql.as_str()), None, true);
    }
    let catch_sql = extract_catch_execsql(b.as_slice());
    let ghost caught: Option<Seq<char>> = match &catch_sql {
        Some(c) => Some(c@),
        None => None,
    };
    let caught_statements: Option<Vec<String>> = match &catch_sql {
        Some(c) => Some(split_sql(c.as_str())),
        None => None,
    };
    let kw = chars_of("execsql");
    proof {
        reveal_strlit("execsql");
    }
    let mut setup: Vec<String> = Vec::new();
    let mut p: usize = 0;
    let n = b.len();
    while p <= n
        invariant
            n == b@.len(),
            b@ == body@,
            kw@ == "execsql"@,
            kw@.len() == 7,
            caught == match &catch_sql {
                Some(c) => Some(c@),
                None => None::<Seq<char>>,
            },
            caught_statements matches Some(v) ==> caught matches Some(c) && string_views(v@)
                == sql_statements(c),
            caught_statements is None ==> caught is None,
            setup_from(b@, 0, caught) == string_views(setup@) + setup_from(b@, p as int, caught),
        ensures
            setup_from(b@, 0, caught) == string_views(setup@),
        decreases n + 1 - p,
    {
        let idx = match find_chars(b.as_slice(), kw.as_slice(), p) {
            Some(i) => i,
            None => {
                proof {
                    assert(string_views(setup@) + Seq::<Seq<char>>::empty() =~= string_views(
                        setup@,
                    ));
                }
                break;
            },
        };
        proof {
            lemma_find_from_bound(b@, kw@, p as int);
        }
        let q = idx + kw.len();
        match extract_braced_from_str(b.as_slice(), q) {
            Some((sql_block, consumed, _)) => {
                proof {
                    lemma_braced_at_used(b@.subrange(q as int, b@.len() as int));
                }
                let block = string_of(sql_block.as_slice());
                let statements = split_sql(block.as_str());
                let is_caught = match &caught_statements {
                    Some(c) => same_strings(c, &statements),
                    None => false,
                };
                let ghost before = string_views(setup@);
                if !is_caught {
                    let mut k: usize = 0;
                    while k < statements.len()
                        invariant
                            k <= statements@.len(),
                            string_views(setup@) == before + string_views(
                                statements@.subrange(0, k as int),
                            ),
                        decreases statements@.len() - k,
                    {
                        proof {
                            assert(string_views(setup@.push(statements@[k as int])) =~= string_views(
                                setup@,
                            ).push(statements@[k as int]@));
                            assert(string_views(statements@.subrange(0, k + 1)) =~= string_views(
                                statements@.subrange(0, k as int),
                            ).push(statements@[k as int]@));
                        }
                        setup.push(statements[k].clone());
                        k = k + 1;
                    }
                    proof {
                        assert(statements@.subrange(0, statements@.len() as int) =~= statements@);
                    }
                }
                proof {
                    let rest = setup_from(b@, (q + consumed) as int, caught);
                    if is_caught {
                        assert(before + (Seq::<Seq<char>>::empty() + rest) =~= before + rest);
                    } else {
                        assert(before + (sql_statements(sql_block@) + rest) =~= (before
                            + string_views(statements@)) + rest);
                    }
                }
                p = q + consumed;
            },
            None => {
                p = idx + 1;
            },
        }
    }
    proof {
        if p > n {
            assert(string_views(setup@) + Seq::<Seq<char>>::empty() =~= string_views(setup@));
        }
    }
    match catch_sql {
        Some(sql) => (setup, Some(sql), true),
        None => (setup, None, false),
    }
}

} // verus!
