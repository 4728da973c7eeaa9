//! Helpers of the test-runner program: locating a `do_test` and its blocks by
//! lines, pulling out its SQL and expected result, and comparing error results.

use vstd::prelude::*;

use vstd::slice::{slice_subrange, slice_to_vec};
use crate::script::{
    braced_at, extract_braced_from_str, find, find_from, join, lemma_braced_at_used,
    lemma_find_from_bound, line_views, string_views,
};
use crate::text::{chars_of, string_of, string_of_range, trim, trim_range};

verus! {

/// The contents of the braced block at the start of `s` (after whitespace).
pub open spec fn braced_contents(s: Seq<char>) -> Option<Seq<char>> {
    match braced_at(s) {
        Some((c, _, _)) => Some(c),
        None => None,
    }
}

/// Extracts the braced block at the start of `s`, after any whitespace.
pub fn extract_braced(s: &str) -> (r: Option<String>)
    ensures
        match r {
            None => braced_contents(s@) is None,
            Some(c) => braced_contents(s@) == Some(c@),
        },
{
    let cs = chars_of(s);
    proof {
        assert(cs@.subrange(0, cs@.len() as int) =~= cs@);
    }
    match extract_braced_from_str(cs.as_slice(), 0) {
        Some((c, _, _)) => Some(string_of(c.as_slice())),
        None => None,
    }
}

/// The trimmed SQL of each `execsql {...}` in `t` from `p` on: every place
/// the word occurs is tried, so blocks inside blocks are found too.
pub open spec fn execsql_from(t: Seq<char>, p: int) -> Seq<Seq<char>>
    decreases t.len() + 1 - p,
{
    if p < 0 || p > t.len() {
        seq![]
    } else {
        match find_from(t, "execsql"@, p) {
            None => seq![],
            Some(i) => {
                proof {
                    lemma_find_from_bound(t, "execsql"@, p);
                }
                let rest = execsql_from(t, i + 1);
                match braced_at(t.subrange(i + "execsql"@.len(), t.len() as int)) {
                    Some((sql, _, _)) => seq![trim(sql)] + rest,
                    None => rest,
                }
            },
        }
    }
}

/// The lines, each trimmed, joined with newlines.
pub open spec fn trimmed_text(lines: Seq<Seq<char>>) -> Seq<char> {
    join(lines.map_values(|l: Seq<char>| trim(l)), '\n')
}

/// Joins the lines, each trimmed (or not), with newlines.
fn join_lines(lines: &[&str], trimmed: bool) -> (out: Vec<char>)
    ensures
        trimmed ==> out@ == trimmed_text(line_views(lines@)),
        !trimmed ==> out@ == join(line_views(lines@), '\n'),
{
    let ghost lv = line_views(lines@);
    let ghost pieces = if trimmed {
        lv.map_values(|l: Seq<char>| trim(l))
    } else {
        lv
    };
    let mut out: Vec<char> = Vec::new();
    let mut k: usize = 0;
    proof {
        assert(pieces.subrange(0, 0) =~= Seq::<Seq<char>>::empty());
    }
    while k < lines.len()
        invariant
            k <= lines@.len(),
            lv == line_views(lines@),
            pieces == if trimmed {
                lv.map_values(|l: Seq<char>| trim(l))
            } else {
                lv
            },
            out@ == join(pieces.subrange(0, k as int), '\n'),
        decreases lines@.len() - k,
    {
        let line = chars_of(lines[k]);
        let (a, b) = if trimmed {
            trim_range(line.as_slice(), 0, line.len())
        } else {
            (0, line.len())
        };
        proof {
            assert(lv[k as int] == line@);
            assert(line@.subrange(0, line@.len() as int) =~= line@);
            assert(line@.subrange(a as int, b as int) == pieces[k as int]);
            assert(pieces.subrange(0, k + 1) =~= pieces.subrange(0, k as int).push(pieces[k as int]));
            assert(pieces.subrange(0, k + 1).drop_last() =~= pieces.subrange(0, k as int));
        }
        let ghost base = out@;
        if k > 0 {
            out.push('\n');
        }
        let ghost mid = out@;
        let mut j = a;
        while j < b
            invariant
                a <= j <= b <= line@.len(),
                out@ == mid + line@.subrange(a as int, j as int),
            decreases b - j,
        {
            out.push(line[j]);
            j = j + 1;
            proof {
                assert(line@.subrange(a as int, j as int) =~= line@.subrange(a as int, j - 1).push(
                    line@[j - 1],
                ));
            }
        }
        proof {
            if k > 0 {
                assert(out@ =~= base.push('\n') + pieces[k as int]);
            } else {
                assert(out@ =~= pieces[k as int]);
            }
        }
        k = k + 1;
    }
    proof {
        assert(pieces.subrange(0, lines@.len() as int) =~= pieces);
    }
    out
}

/// The SQL of every `execsql {...}` in the lines of a test body, trimmed.
pub fn extract_execsql(lines: &[&str]) -> (commands: Vec<String>)
    ensures
        string_views(commands@) == execsql_from(trimmed_text(line_views(lines@)), 0),
{
    let text = join_lines(lines, true);
    let kw = chars_of("execsql");
    proof {
        reveal_strlit("execsql");
    }
    let ghost t = text@;
    let n = text.len();
    let mut commands: Vec<String> = Vec::new();
    let mut p: usize = 0;
    while p <= n
        invariant
            n == text@.len(),
            t == text@,
            kw@ == "execsql"@,
            kw@.len() == 7,
            execsql_from(t, 0) == string_views(commands@) + execsql_from(t, p as int),
        ensures
            execsql_from(t, 0) == string_views(commands@),
        decreases n + 1 - p,
    {
        let idx = match crate::script::find_chars(text.as_slice(), kw.as_slice(), p) {
            Some(i) => i,
            None => {
                proof {
                    assert(string_views(commands@) + Seq::<Seq<char>>::empty() =~= string_views(
                        commands@,
                    ));
                }
                break;
            },
        };
        proof {
            lemma_find_from_bound(t, kw@, p as int);
        }
        match extract_braced_from_str(text.as_slice(), idx + kw.len()) {
            Some((sql, _, _)) => {
                let (a, b) = trim_range(sql.as_slice(), 0, sql.len());
                let c = string_of_range(sql.as_slice(), a, b);
                proof {
                    assert(sql@.subrange(0, sql@.len() as int) =~= sql@);
                    assert(string_views(commands@.push(c)) =~= string_views(commands@).push(c@));
                    assert(string_views(commands@) + (seq![c@] + execsql_from(t, idx + 1))
                        =~= string_views(commands@.push(c)) + execsql_from(t, idx + 1));
                }
                commands.push(c);
            },
            None => {},
        }
        p = idx + 1;
    }
    proof {
        if p > n {
            assert(string_views(commands@) + Seq::<Seq<char>>::empty() =~= string_views(commands@));
        }
    }
    commands
}

/// The last index at or before `i` where `needle` occurs in `hay`.
pub open spec fn rfind_upto(hay: Seq<char>, needle: Seq<char>, i: int) -> Option<int>
    decreases i + 1,
{
    if i < 0 {
        None
    } else if i + needle.len() <= hay.len() && hay.subrange(i, i + needle.len()) == needle {
        Some(i)
    } else {
        rfind_upto(hay, needle, i - 1)
    }
}

/// The last index where `needle` occurs in `hay`.
pub open spec fn rfind(hay: Seq<char>, needle: Seq<char>) -> Option<int> {
    rfind_upto(hay, needle, hay.len() - needle.len())
}

/// Number of leading characters of `s` equal to `c`.
pub open spec fn lead_of(s: Seq<char>, c: char) -> nat
    decreases s.len(),
{
    if s.len() > 0 && s[0] == c {
        1 + lead_of(s.drop_first(), c)
    } else {
        0
    }
}

/// Number of trailing characters of `s` equal to `c`.
pub open spec fn trail_of(s: Seq<char>, c: char) -> nat
    decreases s.len(),
{
    if s.len() > 0 && s.last() == c {
        1 + trail_of(s.drop_last(), c)
    } else {
        0
    }
}

/// `s` without the copies of `c` at its start and at its end.
pub open spec fn strip_char(s: Seq<char>, c: char) -> Seq<char> {
    let t = s.subrange(lead_of(s, c) as int, s.len() as int);
    t.subrange(0, t.len() - trail_of(t, c))
}

/// The expected result of a `do_test` from its lines: the text after the
/// last `} {` (all of it when there is none), trimmed; the contents of its
/// braced block, or failing that the text without outer braces; trimmed.
pub open spec fn expected_text(lines: Seq<Seq<char>>) -> Seq<char> {
    let text = join(lines, '\n');
    let after = match rfind(text, "} {"@) {
        Some(pos) => trim(text.subrange(pos + "} {"@.len(), text.len() as int)),
        None => trim(text),
    };
    trim(
        match braced_contents(after) {
            Some(c) => c,
            None => strip_char(strip_char(trim(after), '{'), '}'),
        },
    )
}

proof fn lemma_lead_of_char(s: Seq<char>, c: char, k: int)
    requires
        0 <= k <= s.len(),
        forall|i: int| 0 <= i < k ==> #[trigger] s[i] == c,
        k < s.len() ==> s[k] != c,
    ensures
        lead_of(s, c) == k,
    decreases k,
{
    if k > 0 {
        assert forall|i: int| 0 <= i < k - 1 implies #[trigger] s.drop_first()[i] == c by {
            assert(s.drop_first()[i] == s[i + 1]);
        }
        lemma_lead_of_char(s.drop_first(), c, k - 1);
    }
}

proof fn lemma_trail_of_char(s: Seq<char>, c: char, k: int)
    requires
        0 <= k <= s.len(),
        forall|i: int| k <= i < s.len() ==> #[trigger] s[i] == c,
        k > 0 ==> s[k - 1] != c,
    ensures
        trail_of(s, c) == s.len() - k,
    decreases s.len() - k,
{
    if k < s.len() {
        assert forall|i: int| k <= i < s.len() - 1 implies #[trigger] s.drop_last()[i] == c by {
            assert(s.drop_last()[i] == s[i]);
        }
        lemma_trail_of_char(s.drop_last(), c, k);
    }
}

/// The range of `s[from..to]` without copies of `c` at either end.
fn strip_range(s: &[char], from: usize, to: usize, c: char) -> (r: (usize, usize))
    requires
        from <= to <= s@.len(),
    ensures
        from <= r.0 <= r.1 <= to,
        s@.subrange(r.0 as int, r.1 as int) == strip_char(s@.subrange(from as int, to as int), c),
{
    let ghost t = s@.subrange(from as int, to as int);
    let mut a = from;
    while a < to && s[a] == c
        invariant
            from <= a <= to <= s@.len(),
            forall|j: int| from <= j < a ==> #[trigger] s@[j] == c,
        decreases to - a,
    {
        a = a + 1;
    }
    let mut b = to;
    while b > a && s[b - 1] == c
        invariant
            from <= a <= b <= to <= s@.len(),
            forall|j: int| b <= j < to ==> #[trigger] s@[j] == c,
        decreases b - a,
    {
        b = b - 1;
    }
    proof {
        assert forall|j: int| 0 <= j < a - from implies #[trigger] t[j] == c by {
            assert(t[j] == s@[from + j]);
        }
        if a < to {
            assert(t[a - from] == s@[a as int]);
        }
        lemma_lead_of_char(t, c, a - from);
        let u = t.subrange(lead_of(t, c) as int, t.len() as int);
        assert(u =~= s@.subrange(a as int, to as int));
        assert forall|j: int| b - a <= j < u.len() implies #[trigger] u[j] == c by {
            assert(u[j] == s@[a + j]);
        }
        if b > a {
            assert(u[b - a - 1] == s@[b - 1]);
        }
        lemma_trail_of_char(u, c, b - a);
        assert(u.subrange(0, u.len() - trail_of(u, c)) =~= s@.subrange(a as int, b as int));
    }
    (a, b)
}

/// The last index at or before `i` where `needle` occurs in `hay`.
fn rfind_chars(hay: &[char], needle: &[char]) -> (r: Option<usize>)
    ensures
        r matches Some(k) ==> rfind(hay@, needle@) == Some(k as int) && k + needle@.len()
            <= hay@.len(),
        r is None ==> rfind(hay@, needle@) is None,
{
    let n = needle.len();
    let h = hay.len();
    if n > h {
        proof {
            assert(rfind_upto(hay@, needle@, h - n) is None);
        }
        return None;
    }
    let mut k = h - n;
    loop
        invariant
            k <= h - n,
            n == needle@.len(),
            h == hay@.len(),
            n <= h,
            rfind(hay@, needle@) == rfind_upto(hay@, needle@, k as int),
        decreases k,
    {
        let mut j: usize = 0;
        while j < n && hay[k + j] == needle[j]
            invariant
                j <= n,
                k + n <= h,
                n == needle@.len(),
                h == hay@.len(),
                forall|q: int| 0 <= q < j ==> hay@[k + q] == needle@[q],
            decreases n - j,
        {
            j = j + 1;
        }
        if j == n {
            proof {
                assert(hay@.subrange(k as int, k + n) =~= needle@);
            }
            return Some(k);
        }
        proof {
            assert(hay@.subrange(k as int, k + n)[j as int] != needle@[j as int]);
        }
        proof {
            assert(hay@.subrange(k as int, k + n) != needle@);
            assert(rfind_upto(hay@, needle@, k as int) == rfind_upto(hay@, needle@, k - 1));
        }
        if k == 0 {
            proof {
                assert(rfind_upto(hay@, needle@, -1) is None);
            }
            return None;
        }
        k = k - 1;
    }
}

/// The expected result of a `do_test` from its lines.
pub fn extract_expected(lines: &[&str]) -> (e: String)
    ensures
        e@ == expected_text(line_views(lines@)),
{
    let text = join_lines(lines, false);
    let _len = text.len();
    let sep = chars_of("} {");
    let (a, b) = match rfind_chars(text.as_slice(), sep.as_slice()) {
        Some(pos) => trim_range(text.as_slice(), pos + sep.len(), text.len()),
        None => trim_range(text.as_slice(), 0, text.len()),
    };
    proof {
        assert(text@.subrange(0, text@.len() as int) =~= text@);
    }
    let after = slice_to_vec(slice_subrange(text.as_slice(), a, b));
    let ghost after_v = after@;
    let body: Vec<char> = match extract_braced_from_str(after.as_slice(), 0) {
        Some((c, _, _)) => c,
        None => {
            let (x, y) = trim_range(after.as_slice(), 0, after.len());
            let (x2, y2) = strip_range(after.as_slice(), x, y, '{');
            let inner = slice_to_vec(slice_subrange(after.as_slice(), x2, y2));
            let (x3, y3) = strip_range(inner.as_slice(), 0, inner.len(), '}');
            proof {
                assert(inner@.subrange(0, inner@.len() as int) =~= inner@);
            }
            slice_to_vec(slice_subrange(inner.as_slice(), x3, y3))
        },
    };
    proof {
        assert(after@.subrange(0, after@.len() as int) =~= after@);
    }
    let (p, q) = trim_range(body.as_slice(), 0, body.len());
    proof {
        assert(body@.subrange(0, body@.len() as int) =~= body@);
    }
    string_of_range(body.as_slice(), p, q)
}

/// The message of a TCL error result `1 {message}` (the closing brace may be missing).
pub open spec fn error_message_of(s: Seq<char>) -> Option<Seq<char>> {
    let prefix = "1 {"@;
    if prefix.is_prefix_of(s) {
        let r = s.subrange(prefix.len() as int, s.len() as int);
        if r.len() > 0 && r.last() == '}' {
            Some(r.drop_last())
        } else {
            Some(r)
        }
    } else {
        None
    }
}

/// Two results match as errors when both are `1 {message}` with the same
/// message; otherwise when they are the same text.
pub open spec fn error_results_match(actual: Seq<char>, expected: Seq<char>) -> bool {
    match (error_message_of(actual), error_message_of(expected)) {
        (Some(a), Some(e)) => a == e,
        _ => actual == expected,
    }
}

/// The message range of `s` read as `1 {message}`.
fn error_message_range(s: &[char]) -> (r: Option<(usize, usize)>)
    ensures
        match r {
            None => error_message_of(s@) is None,
            Some((a, b)) => a <= b <= s@.len() && error_message_of(s@) == Some(
                s@.subrange(a as int, b as int),
            ),
        },
{
    let prefix = chars_of("1 {");
    if !crate::script::has_prefix(s, 0, s.len(), prefix.as_slice()) {
        proof {
            assert(s@.subrange(0, s@.len() as int) =~= s@);
        }
        return None;
    }
    proof {
        assert(s@.subrange(0, s@.len() as int) =~= s@);
    }
    let a = prefix.len();
    let n = s.len();
    if n > a && s[n - 1] == '}' {
        proof {
            let r = s@.subrange(a as int, n as int);
            assert(r.last() == s@[n - 1]);
            assert(r.drop_last() =~= s@.subrange(a as int, n - 1));
        }
        Some((a, n - 1))
    } else {
        proof {
            if n > a {
                let r = s@.subrange(a as int, n as int);
                assert(r.last() == s@[n - 1]);
            }
        }
        Some((a, n))
    }
}

/// Whether two ranges of characters hold the same characters.
fn same_range(s: &[char], a: usize, b: usize, t: &[char], c: usize, d: usize) -> (r: bool)
    requires
        a <= b <= s@.len(),
        c <= d <= t@.len(),
    ensures
        r == (s@.subrange(a as int, b as int) == t@.subrange(c as int, d as int)),
{
    if b - a != d - c {
        proof {
            assert(s@.subrange(a as int, b as int).len() != t@.subrange(c as int, d as int).len());
        }
        return false;
    }
    let mut k: usize = 0;
    while k < b - a
        invariant
            a <= b <= s@.len(),
            c <= d <= t@.len(),
            b - a == d - c,
            k <= b - a,
            s@.subrange(a as int, a + k) == t@.subrange(c as int, c + k),
        decreases b - a - k,
    {
        if s[a + k] != t[c + k] {
            proof {
                assert(s@.subrange(a as int, b as int)[k as int] != t@.subrange(c as int, d as int)[k as int]);
            }
            return false;
        }
        proof {
            assert(s@.subrange(a as int, a + k + 1) =~= s@.subrange(a as int, a + k).push(s@[a + k]));
            assert(t@.subrange(c as int, c + k + 1) =~= t@.subrange(c as int, c + k).push(t@[c + k]));
        }
        k = k + 1;
    }
    proof {
        assert(s@.subrange(a as int, b as int) =~= t@.subrange(c as int, d as int));
    }
    true
}

/// Match SQLite TCL error list format: `1 {error message}`
pub fn error_result_match(actual: &str, expected: &str) -> (m: bool)
    ensures
        m == error_results_match(actual@, expected@),
{
    let a = chars_of(actual);
    let e = chars_of(expected);
    match (error_message_range(a.as_slice()), error_message_range(e.as_slice())) {
        (Some((x, y)), Some((z, w))) => same_range(a.as_slice(), x, y, e.as_slice(), z, w),
        (am, em) => {
            proof {
                assert(a@.subrange(0, a@.len() as int) =~= a@);
                assert(e@.subrange(0, e@.len() as int) =~= e@);
            }
            same_range(a.as_slice(), 0, a.len(), e.as_slice(), 0, e.len())
        },
    }
}

/// Result values separated by spaces.
pub fn format_result(rows: &[String]) -> (out: String)
    ensures
        out@ == join(rows@.map_values(|r: String| r@), ' '),
{
    let ghost vs = rows@.map_values(|r: String| r@);
    let mut out: Vec<char> = Vec::new();
    let mut k: usize = 0;
    while k < rows.len()
        invariant
            k <= rows@.len(),
            vs == rows@.map_values(|r: String| r@),
            out@ == join(vs.subrange(0, k as int), ' '),
        decreases rows@.len() - k,
    {
        let v = chars_of(rows[k].as_str());
        proof {
            assert(vs.subrange(0, k + 1) =~= vs.subrange(0, k as int).push(vs[k as int]));
            assert(vs.subrange(0, k + 1).drop_last() =~= vs.subrange(0, k as int));
        }
        let ghost base = out@;
        if k > 0 {
            out.push(' ');
        }
        let ghost mid = out@;
        let mut j: usize = 0;
        while j < v.len()
            invariant
                j <= v@.len(),
                out@ == mid + v@.subrange(0, j as int),
            decreases v@.len() - j,
        {
            out.push(v[j]);
            j = j + 1;
            proof {
                assert(v@.subrange(0, j as int) =~= v@.subrange(0, j - 1).push(v@[j - 1]));
            }
        }
        proof {
            if k > 0 {
                assert(out@ =~= base.push(' ') + vs[k as int]);
            } else {
                assert(out@ =~= vs[k as int]);
            }
        }
        k = k + 1;
    }
    proof {
        assert(vs.subrange(0, rows@.len() as int) =~= vs);
    }
    string_of(out.as_slice())
}

/// The name of a `do_test` line: the text after the keyword, trimmed, up to its first space.
pub open spec fn do_test_name(line: Seq<char>) -> Option<Seq<char>> {
    let l = trim(line);
    let kw = "do_test "@;
    if kw.is_prefix_of(l) {
        let rest = trim(l.subrange(kw.len() as int, l.len() as int));
        match find(rest, seq![' ']) {
            None => None,
            Some(k) => Some(rest.subrange(0, k)),
        }
    } else {
        None
    }
}

/// The state of the brace scan of a `do_test`: the nesting depth, which
/// block is being read (body, then expected result), and the lines where
/// blocks start and end.
pub struct BraceScan {
    pub depth: int,
    pub block: int,
    pub body_start: int,
    pub body_end: int,
    pub expected_start: int,
}

/// The lines where the body block starts and ends and where the expected
/// block starts and ends, scanning characters from line `i`, position `j`.
pub open spec fn scan_blocks(ls: Seq<Seq<char>>, i: int, j: int, st: BraceScan) -> Option<
    (int, int, int, int),
>
    decreases ls.len() - i, if 0 <= i < ls.len() {
        ls[i].len() - j
    } else {
        0
    },
{
    if i < 0 || i >= ls.len() {
        None
    } else if j < 0 || j >= ls[i].len() {
        scan_blocks(ls, i + 1, 0, st)
    } else {
        let ch = ls[i][j];
        if ch == '{' {
            let bs = if st.depth == 0 && st.block == 0 {
                i
            } else {
                st.body_start
            };
            let es = if st.depth == 0 && st.block == 1 {
                i
            } else {
                st.expected_start
            };
            scan_blocks(
                ls,
                i,
                j + 1,
                BraceScan {
                    depth: st.depth + 1,
                    block: st.block,
                    body_start: bs,
                    body_end: st.body_end,
                    expected_start: es,
                },
            )
        } else if ch == '}' {
            let d = st.depth - 1;
            if d == 0 && st.block == 0 {
                scan_blocks(
                    ls,
                    i,
                    j + 1,
                    BraceScan {
                        depth: d,
                        block: 1,
                        body_start: st.body_start,
                        body_end: i,
                        expected_start: st.expected_start,
                    },
                )
            } else if d == 0 && st.block == 1 {
                Some((st.body_start, st.body_end, st.expected_start, i))
            } else {
                scan_blocks(
                    ls,
                    i,
                    j + 1,
                    BraceScan {
                        depth: d,
                        block: st.block,
                        body_start: st.body_start,
                        body_end: st.body_end,
                        expected_start: st.expected_start,
                    },
                )
            }
        } else {
            scan_blocks(ls, i, j + 1, st)
        }
    }
}

/// The `do_test` at line `start`: its name and the lines of its body and
/// expected-result blocks.
pub open spec fn do_test_at(lines: Seq<Seq<char>>, start: int) -> Option<
    (Seq<char>, int, int, int, int),
> {
    match do_test_name(lines[start]) {
        None => None,
        Some(name) => match scan_blocks(
            lines,
            start,
            0,
            BraceScan { depth: 0, block: 0, body_start: 0, body_end: 0, expected_start: 0 },
        ) {
            None => None,
            Some((bs, be, es, ee)) => Some((name, bs, be, es, ee)),
        },
    }
}

/// Number of characters in all the lines.
pub open spec fn lines_len(ls: Seq<Seq<char>>) -> nat
    decreases ls.len(),
{
    if ls.len() == 0 {
        0
    } else {
        lines_len(ls.drop_last()) + ls.last().len()
    }
}

proof fn lemma_lines_len_mono(ls: Seq<Seq<char>>, a: int, b: int, c: int)
    requires
        0 <= a <= b <= c <= ls.len(),
    ensures
        lines_len(ls.subrange(a, b)) <= lines_len(ls.subrange(a, c)),
    decreases c - b,
{
    if b < c {
        lemma_lines_len_mono(ls, a, b, c - 1);
        assert(ls.subrange(a, c).drop_last() =~= ls.subrange(a, c - 1));
    }
}

/// Locates the `do_test` at line `start`: its name, and the lines where its
/// body block starts and ends and where its expected-result block starts and ends.
pub fn parse_do_test(lines: &[&str], start: usize) -> (r: Option<(String, usize, usize, usize, usize)>)
    requires
        start < lines@.len(),
        lines_len(line_views(lines@).subrange(start as int, lines@.len() as int)) < 0x80000000,
    ensures
        match r {
            None => do_test_at(line_views(lines@), start as int) is None,
            Some((name, bs, be, es, ee)) => do_test_at(line_views(lines@), start as int) == Some(
                (name@, bs as int, be as int, es as int, ee as int),
            ),
        },
{
    let ghost ls = line_views(lines@);
    let raw = chars_of(lines[start]);
    proof {
        assert(ls[start as int] == raw@);
        assert(raw@.subrange(0, raw@.len() as int) =~= raw@);
    }
    let (a, b) = trim_range(raw.as_slice(), 0, raw.len());
    let kw = chars_of("do_test ");
    if !crate::script::has_prefix(raw.as_slice(), a, b, kw.as_slice()) {
        return None;
    }
    let (ra, rb) = trim_range(raw.as_slice(), a + kw.len(), b);
    proof {
        let l = raw@.subrange(a as int, b as int);
        assert(l.subrange(kw@.len() as int, l.len() as int) =~= raw@.subrange(a + kw@.len(), b as int));
    }
    let rest = slice_to_vec(slice_subrange(raw.as_slice(), ra, rb));
    let mut space_v: Vec<char> = Vec::new();
    space_v.push(' ');
    proof {
        assert(space_v@ =~= seq![' ']);
    }
    let name_end = match crate::script::find_chars(rest.as_slice(), space_v.as_slice(), 0) {
        Some(k) => k,
        None => return None,
    };
    proof {
        lemma_find_from_bound(rest@, space_v@, 0);
    }
    let name = string_of_range(rest.as_slice(), 0, name_end);
    let mut depth: i32 = 0;
    let mut block: u8 = 0;
    let mut body_start: usize = 0;
    let mut body_end: usize = 0;
    let mut expected_start: usize = 0;
    let mut i = start;
    let ghost total = lines_len(ls.subrange(start as int, ls.len() as int));
    let ghost st0 = BraceScan { depth: 0, block: 0, body_start: 0, body_end: 0, expected_start: 0 };
    proof {
        assert(ls.subrange(start as int, start as int) =~= Seq::<Seq<char>>::empty());
        assert(rest@ == trim(raw@.subrange(a + kw@.len(), b as int)));
        assert(do_test_name(ls[start as int]) == Some(name@));
    }
    while i < lines.len()
        invariant
            start <= i <= lines@.len(),
            do_test_name(ls[start as int]) == Some(name@),
            st0 == (BraceScan { depth: 0, block: 0, body_start: 0, body_end: 0, expected_start: 0 }),
            ls == line_views(lines@),
            total == lines_len(ls.subrange(start as int, ls.len() as int)),
            total < 0x80000000,
            block <= 1,
            -(lines_len(ls.subrange(start as int, i as int)) as int) <= depth <= lines_len(
                ls.subrange(start as int, i as int),
            ),
            lines_len(ls.subrange(start as int, i as int)) <= total,
            scan_blocks(ls, start as int, 0, st0) == scan_blocks(
                ls,
                i as int,
                0,
                BraceScan {
                    depth: depth as int,
                    block: block as int,
                    body_start: body_start as int,
                    body_end: body_end as int,
                    expected_start: expected_start as int,
                },
            ),
        decreases lines@.len() - i,
    {
        let line = chars_of(lines[i]);
        let ghost before = lines_len(ls.subrange(start as int, i as int));
        proof {
            assert(ls[i as int] == line@);
            assert(ls.subrange(start as int, i + 1).drop_last() =~= ls.subrange(start as int, i as int));
            lemma_lines_len_mono(ls, start as int, i + 1, ls.len() as int);
        }
        let mut j: usize = 0;
        while j < line.len()
            invariant
                j <= line@.len(),
                ls == line_views(lines@),
                line@ == ls[i as int],
                do_test_name(ls[start as int]) == Some(name@),
                st0 == (BraceScan { depth: 0, block: 0, body_start: 0, body_end: 0, expected_start: 0 }),
                start <= i < ls.len(),
                block <= 1,
                before + line@.len() <= total,
                total < 0x80000000,
                -(before + j) <= depth <= before + j,
                scan_blocks(ls, start as int, 0, st0) == scan_blocks(
                    ls,
                    i as int,
                    j as int,
                    BraceScan {
                        depth: depth as int,
                        block: block as int,
                        body_start: body_start as int,
                        body_end: body_end as int,
                        expected_start: expected_start as int,
                    },
                ),
            decreases line@.len() - j,
        {
            let ch = line[j];
            let ghost st = BraceScan {
                depth: depth as int,
                block: block as int,
                body_start: body_start as int,
                body_end: body_end as int,
                expected_start: expected_start as int,
            };
            proof {
                assert(ls[i as int][j as int] == ch);
            }
            if ch == '{' {
                if depth == 0 {
                    if block == 0 {
                        body_start = i;
                    } else if block == 1 {
                        expected_start = i;
                    }
                }
                depth = depth + 1;
            } else if ch == '}' {
                depth = depth - 1;
                if depth == 0 {
                    if block == 0 {
                        body_end = i;
                        block = 1;
                    } else if block == 1 {
                        proof {
                            assert(scan_blocks(ls, i as int, j as int, st) == Some(
                                (
                                    body_start as int,
                                    body_end as int,
                                    expected_start as int,
                                    i as int,
                                ),
                            ));
                            assert(scan_blocks(ls, start as int, 0, st0) == Some(
                                (
                                    body_start as int,
                                    body_end as int,
                                    expected_start as int,
                                    i as int,
                                ),
                            ));
                            assert(do_test_at(line_views(lines@), start as int) == Some(
                                (
                                    name@,
                                    body_start as int,
                                    body_end as int,
                                    expected_start as int,
                                    i as int,
                                ),
                            ));
                        }
                        return Some((name, body_start, body_end, expected_start, i));
                    }
                }
            }
            j = j + 1;
        }
        i = i + 1;
    }
    proof {
        assert(scan_blocks(
            ls,
            i as int,
            0,
            BraceScan {
                depth: depth as int,
                block: block as int,
                body_start: body_start as int,
                body_end: body_end as int,
                expected_start: expected_start as int,
            },
        ) is None);
    }
    None
}

} // verus!
