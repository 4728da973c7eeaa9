//! SQLite-compatible result and error codes.

use vstd::prelude::*;

verus! {

/// SQLite result codes matching the C API.
#[derive(Debug, Clone, Copy, PartialEq, Eq, Structural)]
pub enum ResultCode {
    OK,
    Error,
    Internal,
    Perm,
    Abort,
    Busy,
    Locked,
    NoMem,
    ReadOnly,
    Interrupt,
    IoErr,
    Corrupt,
    NotFound,
    Full,
    CantOpen,
    Protocol,
    Empty,
    Schema,
    TooBig,
    Constraint,
    Mismatch,
    Misuse,
    NoLfs,
    Auth,
    Format,
    Range,
    NotADb,
    Notice,
    Warning,
    Row,
    Done,
}

/// The numeric value of each result code in the C API.
pub open spec fn code_number(c: ResultCode) -> int {
    match c {
        ResultCode::OK => 0,
        ResultCode::Error => 1,
        ResultCode::Internal => 2,
        ResultCode::Perm => 3,
        ResultCode::Abort => 4,
        ResultCode::Busy => 5,
        ResultCode::Locked => 6,
        ResultCode::NoMem => 7,
        ResultCode::ReadOnly => 8,
        ResultCode::Interrupt => 9,
        ResultCode::IoErr => 10,
        ResultCode::Corrupt => 11,
        ResultCode::NotFound => 12,
        ResultCode::Full => 13,
        ResultCode::CantOpen => 14,
        ResultCode::Protocol => 15,
        ResultCode::Empty => 16,
        ResultCode::Schema => 17,
        ResultCode::TooBig => 18,
        ResultCode::Constraint => 19,
        ResultCode::Mismatch => 20,
        ResultCode::Misuse => 21,
        ResultCode::NoLfs => 22,
        ResultCode::Auth => 23,
        ResultCode::Format => 24,
        ResultCode::Range => 25,
        ResultCode::NotADb => 26,
        ResultCode::Notice => 27,
        ResultCode::Warning => 28,
        ResultCode::Row => 100,
        ResultCode::Done => 101,
    }
}

/// The English description the C API gives for each result code.
pub open spec fn code_message(c: ResultCode) -> Seq<char> {
    match c {
        ResultCode::OK => "not an error"@,
        ResultCode::Error => "SQL logic error"@,
        ResultCode::Internal => "internal logic error"@,
        ResultCode::Perm => "access permission denied"@,
        ResultCode::Abort => "callback requested query abort"@,
        ResultCode::Busy => "database is locked"@,
        ResultCode::Locked => "database table is locked"@,
        ResultCode::NoMem => "out of memory"@,
        ResultCode::ReadOnly => "attempt to write a readonly database"@,
        ResultCode::Interrupt => "operation interrupted"@,
        ResultCode::IoErr => "disk I/O error"@,
        ResultCode::Corrupt => "database disk image is malformed"@,
        ResultCode::NotFound => "unknown operation"@,
        ResultCode::Full => "database or disk is full"@,
        ResultCode::CantOpen => "unable to open database file"@,
        ResultCode::Protocol => "locking protocol"@,
        ResultCode::Empty => "table contains no data"@,
        ResultCode::Schema => "database schema has changed"@,
        ResultCode::TooBig => "string or blob too big"@,
        ResultCode::Constraint => "constraint failed"@,
        ResultCode::Mismatch => "datatype mismatch"@,
        ResultCode::Misuse => "library routine called out of sequence"@,
        ResultCode::NoLfs => "large file support is disabled"@,
        ResultCode::Auth => "authorization denied"@,
        ResultCode::Format => "auxiliary database format error"@,
        ResultCode::Range => "bind or column index out of range"@,
        ResultCode::NotADb => "file is not a database"@,
        ResultCode::Notice => "notification message"@,
        ResultCode::Warning => "warning message"@,
        ResultCode::Row => "another row available"@,
        ResultCode::Done => "execution finished"@,
    }
}

impl ResultCode {
    /// Whether the code denotes success: `Ok`, `Row` or `Done`.
    pub fn is_ok(self) -> (b: bool)
        ensures
            b == (self == ResultCode::OK || self == ResultCode::Row || self == ResultCode::Done),
    {
        match self {
            ResultCode::OK | ResultCode::Row | ResultCode::Done => true,
            _ => false,
        }
    }

    pub fn message(self) -> (s: &'static str)
        ensures
            s@ == code_message(self),
    {
        match self {
            ResultCode::OK => "not an error",
            ResultCode::Error => "SQL logic error",
            ResultCode::Internal => "internal logic error",
            ResultCode::Perm => "access permission denied",
            ResultCode::Abort => "callback requested query abort",
            ResultCode::Busy => "database is locked",
            ResultCode::Locked => "database table is locked",
            ResultCode::NoMem => "out of memory",
            ResultCode::ReadOnly => "attempt to write a readonly database",
            ResultCode::Interrupt => "operation interrupted",
            ResultCode::IoErr => "disk I/O error",
            ResultCode::Corrupt => "database disk image is malformed",
            ResultCode::NotFound => "unknown operation",
            ResultCode::Full => "database or disk is full",
            ResultCode::CantOpen => "unable to open database file",
            ResultCode::Protocol => "locking protocol",
            ResultCode::Empty => "table contains no data",
            ResultCode::Schema => "database schema has changed",
            ResultCode::TooBig => "string or blob too big",
            ResultCode::Constraint => "constraint failed",
            ResultCode::Mismatch => "datatype mismatch",
            ResultCode::Misuse => "library routine called out of sequence",
            ResultCode::NoLfs => "large file support is disabled",
            ResultCode::Auth => "authorization denied",
            ResultCode::Format => "auxiliary database format error",
            ResultCode::Range => "bind or column index out of range",
            ResultCode::NotADb => "file is not a database",
            ResultCode::Notice => "notification message",
            ResultCode::Warning => "warning message",
            ResultCode::Row => "another row available",
            ResultCode::Done => "execution finished",
        }
    }

    /// Maps a halt code of a program to a result code: 0, 1, 19 and 101 map to
    /// `Ok`, `Error`, `Constraint` and `Done`; any other number maps to `Error`.
    pub fn try_from_i32(v: i32) -> (r: Option<ResultCode>)
        ensures
            r == Some(
                if v == 0 {
                    ResultCode::OK
                } else if v == 19 {
                    ResultCode::Constraint
                } else if v == 101 {
                    ResultCode::Done
                } else {
                    ResultCode::Error
                },
            ),
    {
        match v {
            0 => Some(ResultCode::OK),
            1 => Some(ResultCode::Error),
            19 => Some(ResultCode::Constraint),
            101 => Some(ResultCode::Done),
            _ => Some(ResultCode::Error),
        }
    }
}

/// Errors of the engine.
#[derive(Debug)]
pub enum SqlliteError {
    /// An error with a result code and a message.
    Sql { code: ResultCode, message: String },
    /// An operating-system I/O failure, carrying the system's description of it.
    Io(String),
    /// A syntax error in SQL text.
    Parse(String),
}

impl SqlliteError {
    pub fn sql(code: ResultCode, message: &str) -> (e: SqlliteError)
        ensures
            e == (SqlliteError::Sql { code, message: e->message }),
            e->message@ == message@,
    {
        SqlliteError::Sql { code, message: message.to_string() }
    }

    pub fn code(&self) -> (c: ResultCode)
        ensures
            c == match self {
                SqlliteError::Sql { code, .. } => *code,
                SqlliteError::Io(_) => ResultCode::IoErr,
                SqlliteError::Parse(_) => ResultCode::Error,
            },
    {
        match self {
            SqlliteError::Sql { code, .. } => *code,
            SqlliteError::Io(_) => ResultCode::IoErr,
            SqlliteError::Parse(_) => ResultCode::Error,
        }
    }

    pub fn message(&self) -> (m: String)
        ensures
            m@ == match self {
                SqlliteError::Sql { message, .. } => message@,
                SqlliteError::Io(m) => m@,
                SqlliteError::Parse(m) => m@,
            },
    {
        match self {
            SqlliteError::Sql { message, .. } => message.clone(),
            SqlliteError::Io(m) => m.clone(),
            SqlliteError::Parse(m) => m.clone(),
        }
    }
}

/// Whether `e` is an error of the given code carrying the given message.
pub open spec fn is_sql_error(e: SqlliteError, code: ResultCode, message: Seq<char>) -> bool {
    &&& e is Sql
    &&& e->code == code
    &&& e->message@ == message
}

} // verus!
