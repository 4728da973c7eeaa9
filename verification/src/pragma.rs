//! PRAGMA statement execution: journal_mode, page_size and table_info.

use vstd::prelude::*;

use crate::error::{is_sql_error, ResultCode, SqlliteError};
use crate::header::valid_page_size;
use crate::io::VfsFile;
use crate::pager::{JournalMode, Pager};
use crate::schema::{copy_value, key_position, lowercase, Column, Schema};
use crate::text::{
    all_digits, ascii_lower, ascii_lowercase, chars_of, digits_value, lemma_digits_nonneg,
    lemma_digits_step, lower_char, push_str_chars, same_chars, string_of, to_ascii_lowercase,
};
use crate::types::{char_of_affinity, Value, ValueView};

verus! {

/// The name of a journal mode, as PRAGMA journal_mode reports it.
pub open spec fn journal_mode_text(mode: JournalMode) -> Seq<char> {
    match mode {
        JournalMode::Delete => "delete"@,
        JournalMode::Persist => "persist"@,
        JournalMode::Off => "off"@,
        JournalMode::Truncate => "truncate"@,
        JournalMode::Memory => "memory"@,
        JournalMode::Wal => "wal"@,
    }
}

/// The journal mode a name stands for, letters compared without case.
pub open spec fn journal_mode_named(s: Seq<char>) -> Option<JournalMode> {
    let l = s.map_values(|c: char| ascii_lower(c));
    if l == "delete"@ {
        Some(JournalMode::Delete)
    } else if l == "persist"@ {
        Some(JournalMode::Persist)
    } else if l == "off"@ {
        Some(JournalMode::Off)
    } else if l == "truncate"@ {
        Some(JournalMode::Truncate)
    } else if l == "memory"@ {
        Some(JournalMode::Memory)
    } else if l == "wal"@ {
        Some(JournalMode::Wal)
    } else {
        None
    }
}

pub fn journal_mode_name(mode: JournalMode) -> (name: &'static str)
    ensures
        name@ == journal_mode_text(mode),
{
    match mode {
        JournalMode::Delete => "delete",
        JournalMode::Persist => "persist",
        JournalMode::Off => "off",
        JournalMode::Truncate => "truncate",
        JournalMode::Memory => "memory",
        JournalMode::Wal => "wal",
    }
}

/// Reads a journal mode name, without regard to the case of its letters.
///
/// Fails with `Error` "unknown journal mode: NAME" for any other name.
pub fn parse_journal_mode(s: &str) -> (r: Result<JournalMode, SqlliteError>)
    ensures
        match r {
            Ok(m) => journal_mode_named(s@) == Some(m),
            Err(e) => journal_mode_named(s@) is None && e is Sql && e->code == ResultCode::Error
                && e->message@ == "unknown journal mode: "@ + s@,
        },
{
    let cs = chars_of(s);
    let mut lower: Vec<char> = Vec::new();
    let mut k: usize = 0;
    while k < cs.len()
        invariant
            k <= cs@.len(),
            lower@ == cs@.subrange(0, k as int).map_values(|c: char| ascii_lower(c)),
        decreases cs@.len() - k,
    {
        let l = lower_char(cs[k]);
        lower.push(l);
        k = k + 1;
        proof {
            assert(cs@.subrange(0, k as int).map_values(|c: char| ascii_lower(c)) =~= cs@.subrange(
                0,
                k - 1,
            ).map_values(|c: char| ascii_lower(c)).push(ascii_lower(cs@[k - 1])));
        }
    }
    proof {
        assert(cs@.subrange(0, cs@.len() as int) =~= cs@);
    }
    if same_chars(&lower, &chars_of("delete")) {
        Ok(JournalMode::Delete)
    } else if same_chars(&lower, &chars_of("persist")) {
        Ok(JournalMode::Persist)
    } else if same_chars(&lower, &chars_of("off")) {
        Ok(JournalMode::Off)
    } else if same_chars(&lower, &chars_of("truncate")) {
        Ok(JournalMode::Truncate)
    } else if same_chars(&lower, &chars_of("memory")) {
        Ok(JournalMode::Memory)
    } else if same_chars(&lower, &chars_of("wal")) {
        Ok(JournalMode::Wal)
    } else {
        let mut message = chars_of("unknown journal mode: ");
        let mut j: usize = 0;
        let ghost base = message@;
        while j < cs.len()
            invariant
                j <= cs@.len(),
                message@ == base + cs@.subrange(0, j as int),
            decreases cs@.len() - j,
        {
            message.push(cs[j]);
            j = j + 1;
            proof {
                assert(cs@.subrange(0, j as int) =~= cs@.subrange(0, j - 1).push(cs@[j - 1]));
            }
        }
        Err(SqlliteError::Sql { code: ResultCode::Error, message: string_of(message.as_slice()) })
    }
}

/// The values of a row.
pub open spec fn row_view(row: Seq<Value>) -> Seq<ValueView> {
    row.map_values(|v: Value| v@)
}

/// The number a text reads as an unsigned 32-bit integer: an optional `+`
/// and then one decimal digit or more, worth at most `u32::MAX`.
pub open spec fn parsed_u32(s: Seq<char>) -> Option<u32> {
    let d = if s.len() > 0 && s[0] == '+' {
        s.drop_first()
    } else {
        s
    };
    if d.len() > 0 && all_digits(d) && digits_value(d) <= u32::MAX {
        Some(digits_value(d) as u32)
    } else {
        None
    }
}

/// Reads an unsigned 32-bit integer as `str::parse::<u32>` does.
fn parse_u32(s: &str) -> (r: Option<u32>)
    ensures
        r == parsed_u32(s@),
{
    let cs = chars_of(s);
    let mut start: usize = 0;
    if cs.len() > 0 && cs[0] == '+' {
        start = 1;
    }
    let ghost d = if s@.len() > 0 && s@[0] == '+' {
        s@.drop_first()
    } else {
        s@
    };
    assert(d =~= cs@.subrange(start as int, cs@.len() as int));
    if start == cs.len() {
        return None;
    }
    let mut acc: u64 = 0;
    let mut k: usize = start;
    while k < cs.len()
        invariant
            start <= k <= cs@.len(),
            cs@ == s@,
            d == (if s@.len() > 0 && s@[0] == '+' {
                s@.drop_first()
            } else {
                s@
            }),
            d == cs@.subrange(start as int, cs@.len() as int),
            all_digits(cs@.subrange(start as int, k as int)),
            acc == if digits_value(cs@.subrange(start as int, k as int)) < 0x1_0000_0000 {
                digits_value(cs@.subrange(start as int, k as int))
            } else {
                0x1_0000_0000
            },
        decreases cs@.len() - k,
    {
        let c = cs[k];
        if c < '0' || c > '9' {
            assert(d[k - start] == c);
            return None;
        }
        let digit = (c as u32 - '0' as u32) as u64;
        proof {
            let dd = cs@.subrange(start as int, cs@.len() as int);
            lemma_digits_step(dd, k - start);
            assert(dd.subrange(0, k - start) =~= cs@.subrange(start as int, k as int));
            assert(dd.subrange(0, k + 1 - start) =~= cs@.subrange(start as int, k + 1));
            assert(digits_value(cs@.subrange(start as int, k as int)) >= 0) by {
                lemma_digits_nonneg(cs@.subrange(start as int, k as int));
            }
        }
        acc = acc * 10 + digit;
        if acc > 0x1_0000_0000 {
            acc = 0x1_0000_0000;
        }
        k = k + 1;
    }
    assert(cs@.subrange(start as int, cs@.len() as int) == d);
    if acc > 0xffff_ffff {
        None
    } else {
        Some(acc as u32)
    }
}

/// The type letter PRAGMA table_info gives a column: its affinity's
/// letter in upper case.
pub open spec fn affinity_type_text(c: Column) -> Seq<char> {
    seq![((char_of_affinity(c.affinity) as u32) - 32) as char]
}

/// The row PRAGMA table_info gives the `cid`-th column: its number, name,
/// type letter, NOT NULL flag, default value (NULL when there is none) and
/// PRIMARY KEY flag.
pub open spec fn table_info_row(cid: int, c: Column) -> Seq<ValueView> {
    seq![
        ValueView::Integer(cid as i64),
        ValueView::Text(c.name@),
        ValueView::Text(affinity_type_text(c)),
        ValueView::Integer(if c.not_null { 1 } else { 0 }),
        match c.default_value {
            Some(v) => v@,
            None => ValueView::Null,
        },
        ValueView::Integer(if c.primary_key { 1 } else { 0 }),
    ]
}

fn upper_type_letter(c: char) -> (u: char)
    requires
        c == 't' || c == 'n' || c == 'i' || c == 'r' || c == 'b',
    ensures
        u == ((c as u32) - 32) as char,
{
    match c {
        't' => 'T',
        'n' => 'N',
        'i' => 'I',
        'r' => 'R',
        _ => 'B',
    }
}

/// PRAGMA journal_mode: with a value, sets the journal mode it names
/// (letters compared without case) and reports it; without one, reports
/// the journal mode in effect. An unknown name fails with `Error` "unknown
/// journal mode: NAME" and changes nothing.
fn execute_journal_mode<F: VfsFile>(value: Option<&str>, pager: &mut Pager<F>) -> (r: Result<
    Vec<Vec<Value>>,
    SqlliteError,
>)
    requires
        old(pager).wf(),
    ensures
        final(pager).wf(),
        final(pager).db() == old(pager).db(),
        final(pager).cached() == old(pager).cached(),
        final(pager).spec_page_size() == old(pager).spec_page_size(),
        final(pager).spec_page_count() == old(pager).spec_page_count(),
        match value {
            None => *final(pager) == *old(pager),
            Some(v) => match journal_mode_named(v@) {
                Some(m) => final(pager).spec_journal_mode() == m,
                None => *final(pager) == *old(pager),
            },
        },
        match value {
            Some(v) if journal_mode_named(v@) is None => r matches Err(e) && is_sql_error(
                e,
                ResultCode::Error,
                "unknown journal mode: "@ + v@,
            ),
            _ => r matches Ok(rows) && rows@.len() == 1 && row_view(rows@[0]@) == seq![
                ValueView::Text(journal_mode_text(final(pager).spec_journal_mode())),
            ],
        },
{
    if let Some(mode_str) = value {
        let mode = match parse_journal_mode(mode_str) {
            Ok(m) => m,
            Err(e) => return Err(e),
        };
        pager.set_journal_mode(mode);
    }
    let name = journal_mode_name(pager.journal_mode());
    let row = vec![Value::Text(string_of(chars_of(name).as_slice()))];
    assert(row_view(row@) =~= seq![ValueView::Text(journal_mode_text(pager.spec_journal_mode()))]);
    Ok(vec![row])
}

/// PRAGMA page_size: reports the page size in effect. A value is first
/// read as an unsigned number (else `Error` "invalid page_size value") and
/// must be a power of two from 512 to 65536 (else `Error` "page_size must
/// be a power of two between 512 and 65536"); the page size of an open
/// database stays as it is.
fn execute_page_size<F: VfsFile>(value: Option<&str>, pager: &Pager<F>) -> (r: Result<
    Vec<Vec<Value>>,
    SqlliteError,
>)
    ensures
        match value {
            Some(v) if parsed_u32(v@) is None => r matches Err(e) && is_sql_error(
                e,
                ResultCode::Error,
                "invalid page_size value"@,
            ),
            Some(v) if !valid_page_size(parsed_u32(v@)->0 as int) => r matches Err(e)
                && is_sql_error(
                e,
                ResultCode::Error,
                "page_size must be a power of two between 512 and 65536"@,
            ),
            _ => r matches Ok(rows) && rows@.len() == 1 && row_view(rows@[0]@) == seq![
                ValueView::Integer(pager.spec_page_size() as i64),
            ],
        },
{
    if let Some(size_str) = value {
        let size = match parse_u32(size_str) {
            Some(n) => n,
            None => return Err(SqlliteError::sql(ResultCode::Error, "invalid page_size value")),
        };
        if !(size == 512 || size == 1024 || size == 2048 || size == 4096 || size == 8192 || size
            == 16384 || size == 32768 || size == 65536) {
            return Err(
                SqlliteError::sql(
                    ResultCode::Error,
                    "page_size must be a power of two between 512 and 65536",
                ),
            );
        }
    }
    let row = vec![Value::Integer(pager.page_size() as i64)];
    assert(row_view(row@) =~= seq![ValueView::Integer(pager.spec_page_size() as i64)]);
    Ok(vec![row])
}

/// PRAGMA table_info(NAME): a row for each column of the table, in order.
/// Without a name it fails with `Error` "table_info requires a table name";
/// for a table that does not exist, with `Error` "no such table: NAME".
fn execute_table_info(value: Option<&str>, schema: &Schema) -> (r: Result<
    Vec<Vec<Value>>,
    SqlliteError,
>)
    requires
        schema.wf(),
    ensures
        match value {
            None => r matches Err(e) && is_sql_error(
                e,
                ResultCode::Error,
                "table_info requires a table name"@,
            ),
            Some(name) => if schema.table_keys().contains(lowercase(name@)) {
                let t = schema.table_at(key_position(schema.table_keys(), lowercase(name@)));
                r matches Ok(rows) && rows@.len() == t.columns@.len() && forall|i: int|
                    0 <= i < rows@.len() ==> row_view(#[trigger] rows@[i]@) == table_info_row(
                        i,
                        t.columns@[i],
                    )
            } else {
                r matches Err(e) && is_sql_error(e, ResultCode::Error, "no such table: "@ + name@)
            },
        },
{
    let name = match value {
        Some(n) => n,
        None => return Err(
            SqlliteError::sql(ResultCode::Error, "table_info requires a table name"),
        ),
    };
    let table = match schema.table(name) {
        Some(t) => t,
        None => {
            let mut cs: Vec<char> = Vec::new();
            push_str_chars(&mut cs, "no such table: ");
            push_str_chars(&mut cs, name);
            let m = string_of(cs.as_slice());
            return Err(SqlliteError::sql(ResultCode::Error, m.as_str()));
        },
    };
    let mut rows: Vec<Vec<Value>> = Vec::new();
    let mut cid: usize = 0;
    while cid < table.columns.len()
        invariant
            cid <= table.columns@.len(),
            rows@.len() == cid,
            forall|i: int|
                0 <= i < cid ==> row_view(#[trigger] rows@[i]@) == table_info_row(
                    i,
                    table.columns@[i],
                ),
        decreases table.columns@.len() - cid,
    {
        let col = &table.columns[cid];
        let letter = upper_type_letter(col.affinity.as_char());
        let letters = vec![letter];
        assert(letters@ =~= seq![letter]);
        let default = match &col.default_value {
            Some(v) => copy_value(v),
            None => Value::Null,
        };
        let row = vec![
            Value::Integer(cid as i64),
            Value::Text(string_of(chars_of(col.name.as_str()).as_slice())),
            Value::Text(string_of(letters.as_slice())),
            Value::Integer(if col.not_null { 1 } else { 0 }),
            default,
            Value::Integer(if col.primary_key { 1 } else { 0 }),
        ];
        proof {
            let want = table_info_row(cid as int, table.columns@[cid as int]);
            let got = row_view(row@);
            assert(got.len() == 6);
            assert(got[0] == want[0]);
            assert(got[1] == want[1]);
            assert(got[2] == want[2]);
            assert(got[3] == want[3]);
            assert(got[4] == want[4]);
            assert(got[5] == want[5]);
            assert(got =~= want);
        }
        rows.push(row);
        cid = cid + 1;
    }
    Ok(rows)
}

/// The answer of a PRAGMA that is ASCII-lowercase `lname`.
pub open spec fn pragma_known(lname: Seq<char>) -> bool {
    lname == "journal_mode"@ || lname == "page_size"@ || lname == "table_info"@
}

/// The text of an optional string argument.
pub open spec fn opt_text(value: Option<&str>) -> Option<Seq<char>> {
    match value {
        Some(v) => Some(v@),
        None => None,
    }
}

/// What a PRAGMA `name`, with the argument `value`, answers on the pager
/// `before` and the catalog `schema`, and what it leaves of the pager
/// (`after`): the rows or the error `r`.
pub open spec fn pragma_effect<F: VfsFile>(
    name: Seq<char>,
    value: Option<Seq<char>>,
    before: &Pager<F>,
    after: &Pager<F>,
    schema: &Schema,
    r: Result<Vec<Vec<Value>>, SqlliteError>,
) -> bool {
    let lname = ascii_lowercase(name);
    &&& lname != "journal_mode"@ ==> *after == *before
    &&& lname == "journal_mode"@ ==> match value {
        Some(v) if journal_mode_named(v) is None => *after == *before && (
        r matches Err(e) && is_sql_error(e, ResultCode::Error, "unknown journal mode: "@
            + v)),
        Some(v) => after.spec_journal_mode() == journal_mode_named(v)->0 && (
        r matches Ok(rows) && rows@.len() == 1 && row_view(rows@[0]@) == seq![
            ValueView::Text(journal_mode_text(journal_mode_named(v)->0)),
        ]),
        None => *after == *before && (r matches Ok(rows) && rows@.len() == 1
            && row_view(rows@[0]@) == seq![
            ValueView::Text(journal_mode_text(before.spec_journal_mode())),
        ]),
    }
    &&& lname == "page_size"@ ==> match value {
        Some(v) if parsed_u32(v) is None => r matches Err(e) && is_sql_error(
            e,
            ResultCode::Error,
            "invalid page_size value"@,
        ),
        Some(v) if !valid_page_size(parsed_u32(v)->0 as int) => r matches Err(e)
            && is_sql_error(
            e,
            ResultCode::Error,
            "page_size must be a power of two between 512 and 65536"@,
        ),
        _ => r matches Ok(rows) && rows@.len() == 1 && row_view(rows@[0]@) == seq![
            ValueView::Integer(before.spec_page_size() as i64),
        ],
    }
    &&& lname == "table_info"@ ==> match value {
        None => r matches Err(e) && is_sql_error(
            e,
            ResultCode::Error,
            "table_info requires a table name"@,
        ),
        Some(n) => if schema.table_keys().contains(lowercase(n)) {
            let t = schema.table_at(key_position(schema.table_keys(), lowercase(n)));
            r matches Ok(rows) && rows@.len() == t.columns@.len() && forall|i: int|
                0 <= i < rows@.len() ==> row_view(#[trigger] rows@[i]@)
                    == table_info_row(i, t.columns@[i])
        } else {
            r matches Err(e) && is_sql_error(
                e,
                ResultCode::Error,
                "no such table: "@ + n,
            )
        },
    }
    &&& !pragma_known(lname) ==> (r matches Err(e) && is_sql_error(
        e,
        ResultCode::Error,
        "unknown or unsupported pragma: "@ + lname,
    ))
}

/// Runs the PRAGMA `name` (letters compared without case), with its
/// value when it has one: journal_mode, page_size or table_info. Any other
/// name fails with `Error` "unknown or unsupported pragma: NAME", the name
/// in lower case.
pub fn execute_pragma<F: VfsFile>(
    name: &str,
    value: Option<&str>,
    pager: &mut Pager<F>,
    schema: &Schema,
) -> (r: Result<Vec<Vec<Value>>, SqlliteError>)
    requires
        old(pager).wf(),
        schema.wf(),
    ensures
        final(pager).wf(),
        final(pager).db() == old(pager).db(),
        final(pager).cached() == old(pager).cached(),
        final(pager).spec_page_size() == old(pager).spec_page_size(),
        final(pager).spec_page_count() == old(pager).spec_page_count(),
        pragma_effect(name@, opt_text(value), old(pager), final(pager), schema, r),
{
    let lname = to_ascii_lowercase(name);
    proof {
        reveal_strlit("journal_mode");
        reveal_strlit("page_size");
        reveal_strlit("table_info");
    }
    if same_chars(&lname, &chars_of("journal_mode")) {
        execute_journal_mode(value, pager)
    } else if same_chars(&lname, &chars_of("page_size")) {
        execute_page_size(value, pager)
    } else if same_chars(&lname, &chars_of("table_info")) {
        execute_table_info(value, schema)
    } else {
        let mut cs = chars_of("unknown or unsupported pragma: ");
        let ghost base = cs@;
        let mut k: usize = 0;
        while k < lname.len()
            invariant
                k <= lname@.len(),
                cs@ == base + lname@.subrange(0, k as int),
            decreases lname@.len() - k,
        {
            cs.push(lname[k]);
            k = k + 1;
            proof {
                assert(lname@.subrange(0, k as int) =~= lname@.subrange(0, k - 1).push(lname@[k - 1]));
            }
        }
        assert(lname@.subrange(0, lname@.len() as int) =~= lname@);
        let m = string_of(cs.as_slice());
        Err(SqlliteError::sql(ResultCode::Error, m.as_str()))
    }
}

/// The name of a journal mode reads back as that mode.
pub proof fn lemma_journal_mode_name_roundtrip(mode: JournalMode)
    ensures
        journal_mode_named(journal_mode_text(mode)) == Some(mode),
{
    reveal_strlit("delete");
    reveal_strlit("persist");
    reveal_strlit("off");
    reveal_strlit("truncate");
    reveal_strlit("memory");
    reveal_strlit("wal");
    let t = journal_mode_text(mode);
    assert forall|i: int| 0 <= i < t.len() implies ascii_lower(#[trigger] t[i]) == t[i] by {
        assert('a' <= t[i] <= 'z');
    }
    assert(t.map_values(|c: char| ascii_lower(c)) =~= t);
    assert("delete"@[0] == 'd' && "persist"@[0] == 'p' && "off"@[0] == 'o');
    assert("truncate"@[0] == 't' && "memory"@[0] == 'm' && "wal"@[0] == 'w');
    assert("delete"@ != "persist"@ && "delete"@ != "off"@ && "delete"@ != "truncate"@);
    assert("delete"@ != "memory"@ && "delete"@ != "wal"@);
    assert("persist"@ != "off"@ && "persist"@ != "truncate"@ && "persist"@ != "memory"@);
    assert("persist"@ != "wal"@ && "off"@ != "truncate"@ && "off"@ != "memory"@);
    assert("off"@ != "wal"@ && "truncate"@ != "memory"@ && "truncate"@ != "wal"@);
    assert("memory"@ != "wal"@);
}

} // verus!
