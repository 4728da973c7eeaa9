use sqllite::error::{ResultCode, SqlliteError};
use sqllite::lexer::unescape_sql_string;
use sqllite::pager::JournalMode;
use sqllite::pragma::{journal_mode_name, parse_journal_mode};
use sqllite::types::Affinity;

#[test]
fn result_codes() {
    assert!(ResultCode::OK.is_ok());
    assert!(!ResultCode::Corrupt.is_ok());
    assert_eq!(ResultCode::Corrupt.message(), "database disk image is malformed");
    assert_eq!(ResultCode::try_from_i32(19), Some(ResultCode::Constraint));
    assert_eq!(ResultCode::try_from_i32(101), Some(ResultCode::Done));
    assert_eq!(ResultCode::try_from_i32(0), Some(ResultCode::OK));
    assert_eq!(ResultCode::try_from_i32(42), Some(ResultCode::Error));
}

#[test]
fn errors_carry_code_and_message() {
    let e = SqlliteError::sql(ResultCode::Misuse, "bad call");
    assert_eq!(e.code(), ResultCode::Misuse);
    assert_eq!(e.message(), "bad call");
    let e = SqlliteError::Io("disk".to_string());
    assert_eq!(e.code(), ResultCode::IoErr);
    assert_eq!(e.message(), "disk");
    let e = SqlliteError::Parse("near x".to_string());
    assert_eq!(e.code(), ResultCode::Error);
}

#[test]
fn affinity_letters() {
    assert_eq!(Affinity::from_char('T'), Affinity::Text);
    assert_eq!(Affinity::from_char('i'), Affinity::Integer);
    assert_eq!(Affinity::from_char('r'), Affinity::Real);
    assert_eq!(Affinity::from_char('B'), Affinity::Blob);
    assert_eq!(Affinity::from_char('x'), Affinity::Numeric);
    for a in [Affinity::Text, Affinity::Numeric, Affinity::Integer, Affinity::Real, Affinity::Blob] {
        assert_eq!(Affinity::from_char(a.as_char()), a);
    }
}

#[test]
fn journal_modes_by_name() {
    assert_eq!(parse_journal_mode("WAL").unwrap(), JournalMode::Wal);
    assert_eq!(parse_journal_mode("Delete").unwrap(), JournalMode::Delete);
    assert_eq!(journal_mode_name(JournalMode::Truncate), "truncate");
    for m in [
        JournalMode::Delete,
        JournalMode::Persist,
        JournalMode::Off,
        JournalMode::Truncate,
        JournalMode::Memory,
        JournalMode::Wal,
    ] {
        assert_eq!(parse_journal_mode(journal_mode_name(m)).unwrap(), m);
    }
    let e = parse_journal_mode("fast").unwrap_err();
    assert_eq!(e.code(), ResultCode::Error);
    assert_eq!(e.message(), "unknown journal mode: fast");
}

#[test]
fn sql_string_unescaping() {
    assert_eq!(unescape_sql_string("it''s"), "it's");
    assert_eq!(unescape_sql_string("a\\nb"), "anb");
    assert_eq!(unescape_sql_string("x'"), "x'");
    assert_eq!(unescape_sql_string("end\\"), "end");
}
