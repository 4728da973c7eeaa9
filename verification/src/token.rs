//! SQL tokens: the keywords, operators and literals of the lexer, each
//! numbered by its place in the declaration.

use vstd::prelude::*;

verus! {

/// SQL token types.
#[derive(Debug, Clone, PartialEq)]
pub enum Token {
    Select,
    From,
    Where,
    Insert,
    Into,
    Values,
    Update,
    SetKw,
    Delete,
    Create,
    Table,
    Index,
    Drop,
    If,
    Not,
    Exists,
    Primary,
    Key,
    Autoincrement,
    Null,
    Integer,
    Real,
    Text,
    Blob,
    And,
    Or,
    Order,
    By,
    Asc,
    Desc,
    Limit,
    Begin,
    Commit,
    Rollback,
    Transaction,
    Pragma,
    Unique,
    Default,
    As,
    On,
    Join,
    Left,
    Inner,
    Cross,
    Group,
    Having,
    Distinct,
    Count,
    Like,
    Is,
    In,
    Between,
    Case,
    When,
    Then,
    Else,
    End,
    Collate,
    Constraint,
    Foreign,
    References,
    Check,
    View,
    Trigger,
    Temp,
    Temporary,
    Without,
    Rowid,
    Replace,
    Ignore,
    Fail,
    AbortKw,
    With,
    Union,
    All,
    Except,
    Intersect,
    Offset,
    Concat,
    EqEq,
    NotEq,
    Le,
    Ge,
    Shl,
    Shr,
    Eq,
    Lt,
    Gt,
    Plus,
    Minus,
    Star,
    Slash,
    Percent,
    Amp,
    Pipe,
    Tilde,
    LParen,
    RParen,
    Comma,
    Semi,
    Dot,
    IntegerLit(i64),
    RealLit(u64),
    StringLit(String),
    QuotedIdent(String),
    BacktickIdent(String),
    BlobLit(Vec<u8>),
    Ident(String),
    BindParam,
    NamedParam(String),
    AtParam(String),
    DollarParam(String),
}

/// A token with its source span, in bytes.
#[derive(Debug, Clone, PartialEq)]
pub struct SpannedToken {
    pub token: Token,
    pub start: usize,
    pub end: usize,
}

/// The number of keywords; they are the first tokens.
pub const KEYWORD_COUNT: usize = 78;

/// The place of each token that carries a value, or that no keyword or
/// operator text stands for.
pub const INTEGER_LIT: usize = 101;
pub const REAL_LIT: usize = 102;
pub const STRING_LIT: usize = 103;
pub const QUOTED_IDENT: usize = 104;
pub const BACKTICK_IDENT: usize = 105;
pub const BLOB_LIT: usize = 106;
pub const IDENT: usize = 107;
pub const BIND_PARAM: usize = 108;
pub const NAMED_PARAM: usize = 109;
pub const AT_PARAM: usize = 110;
pub const DOLLAR_PARAM: usize = 111;
/// The number of tokens.
pub const TOKEN_COUNT: usize = 112;

/// The place of a token in the declaration of `Token`.
pub open spec fn token_index(t: Token) -> int {
    match t {
        Token::Select => 0,
        Token::From => 1,
        Token::Where => 2,
        Token::Insert => 3,
        Token::Into => 4,
        Token::Values => 5,
        Token::Update => 6,
        Token::SetKw => 7,
        Token::Delete => 8,
        Token::Create => 9,
        Token::Table => 10,
        Token::Index => 11,
        Token::Drop => 12,
        Token::If => 13,
        Token::Not => 14,
        Token::Exists => 15,
        Token::Primary => 16,
        Token::Key => 17,
        Token::Autoincrement => 18,
        Token::Null => 19,
        Token::Integer => 20,
        Token::Real => 21,
        Token::Text => 22,
        Token::Blob => 23,
        Token::And => 24,
        Token::Or => 25,
        Token::Order => 26,
        Token::By => 27,
        Token::Asc => 28,
        Token::Desc => 29,
        Token::Limit => 30,
        Token::Begin => 31,
        Token::Commit => 32,
        Token::Rollback => 33,
        Token::Transaction => 34,
        Token::Pragma => 35,
        Token::Unique => 36,
        Token::Default => 37,
        Token::As => 38,
        Token::On => 39,
        Token::Join => 40,
        Token::Left => 41,
        Token::Inner => 42,
        Token::Cross => 43,
        Token::Group => 44,
        Token::Having => 45,
        Token::Distinct => 46,
        Token::Count => 47,
        Token::Like => 48,
        Token::Is => 49,
        Token::In => 50,
        Token::Between => 51,
        Token::Case => 52,
        Token::When => 53,
        Token::Then => 54,
        Token::Else => 55,
        Token::End => 56,
        Token::Collate => 57,
        Token::Constraint => 58,
        Token::Foreign => 59,
        Token::References => 60,
        Token::Check => 61,
        Token::View => 62,
        Token::Trigger => 63,
        Token::Temp => 64,
        Token::Temporary => 65,
        Token::Without => 66,
        Token::Rowid => 67,
        Token::Replace => 68,
        Token::Ignore => 69,
        Token::Fail => 70,
        Token::AbortKw => 71,
        Token::With => 72,
        Token::Union => 73,
        Token::All => 74,
        Token::Except => 75,
        Token::Intersect => 76,
        Token::Offset => 77,
        Token::Concat => 78,
        Token::EqEq => 79,
        Token::NotEq => 80,
        Token::Le => 81,
        Token::Ge => 82,
        Token::Shl => 83,
        Token::Shr => 84,
        Token::Eq => 85,
        Token::Lt => 86,
        Token::Gt => 87,
        Token::Plus => 88,
        Token::Minus => 89,
        Token::Star => 90,
        Token::Slash => 91,
        Token::Percent => 92,
        Token::Amp => 93,
        Token::Pipe => 94,
        Token::Tilde => 95,
        Token::LParen => 96,
        Token::RParen => 97,
        Token::Comma => 98,
        Token::Semi => 99,
        Token::Dot => 100,
        Token::IntegerLit(_) => 101,
        Token::RealLit(_) => 102,
        Token::StringLit(_) => 103,
        Token::QuotedIdent(_) => 104,
        Token::BacktickIdent(_) => 105,
        Token::BlobLit(_) => 106,
        Token::Ident(_) => 107,
        Token::BindParam => 108,
        Token::NamedParam(_) => 109,
        Token::AtParam(_) => 110,
        Token::DollarParam(_) => 111,
    }
}

/// Whether the token at place `k` carries no value.
pub open spec fn is_unit_index(k: int) -> bool {
    (0 <= k < 101) || k == 108
}

/// The place of a token in the declaration of `Token`.
pub fn index_of(t: &Token) -> (k: usize)
    ensures
        k == token_index(*t),
{
    match t {
        Token::Select => 0,
        Token::From => 1,
        Token::Where => 2,
        Token::Insert => 3,
        Token::Into => 4,
        Token::Values => 5,
        Token::Update => 6,
        Token::SetKw => 7,
        Token::Delete => 8,
        Token::Create => 9,
        Token::Table => 10,
        Token::Index => 11,
        Token::Drop => 12,
        Token::If => 13,
        Token::Not => 14,
        Token::Exists => 15,
        Token::Primary => 16,
        Token::Key => 17,
        Token::Autoincrement => 18,
        Token::Null => 19,
        Token::Integer => 20,
        Token::Real => 21,
        Token::Text => 22,
        Token::Blob => 23,
        Token::And => 24,
        Token::Or => 25,
        Token::Order => 26,
        Token::By => 27,
        Token::Asc => 28,
        Token::Desc => 29,
        Token::Limit => 30,
        Token::Begin => 31,
        Token::Commit => 32,
        Token::Rollback => 33,
        Token::Transaction => 34,
        Token::Pragma => 35,
        Token::Unique => 36,
        Token::Default => 37,
        Token::As => 38,
        Token::On => 39,
        Token::Join => 40,
        Token::Left => 41,
        Token::Inner => 42,
        Token::Cross => 43,
        Token::Group => 44,
        Token::Having => 45,
        Token::Distinct => 46,
        Token::Count => 47,
        Token::Like => 48,
        Token::Is => 49,
        Token::In => 50,
        Token::Between => 51,
        Token::Case => 52,
        Token::When => 53,
        Token::Then => 54,
        Token::Else => 55,
        Token::End => 56,
        Token::Collate => 57,
        Token::Constraint => 58,
        Token::Foreign => 59,
        Token::References => 60,
        Token::Check => 61,
        Token::View => 62,
        Token::Trigger => 63,
        Token::Temp => 64,
        Token::Temporary => 65,
        Token::Without => 66,
        Token::Rowid => 67,
        Token::Replace => 68,
        Token::Ignore => 69,
        Token::Fail => 70,
        Token::AbortKw => 71,
        Token::With => 72,
        Token::Union => 73,
        Token::All => 74,
        Token::Except => 75,
        Token::Intersect => 76,
        Token::Offset => 77,
        Token::Concat => 78,
        Token::EqEq => 79,
        Token::NotEq => 80,
        Token::Le => 81,
        Token::Ge => 82,
        Token::Shl => 83,
        Token::Shr => 84,
        Token::Eq => 85,
        Token::Lt => 86,
        Token::Gt => 87,
        Token::Plus => 88,
        Token::Minus => 89,
        Token::Star => 90,
        Token::Slash => 91,
        Token::Percent => 92,
        Token::Amp => 93,
        Token::Pipe => 94,
        Token::Tilde => 95,
        Token::LParen => 96,
        Token::RParen => 97,
        Token::Comma => 98,
        Token::Semi => 99,
        Token::Dot => 100,
        Token::IntegerLit(_) => 101,
        Token::RealLit(_) => 102,
        Token::StringLit(_) => 103,
        Token::QuotedIdent(_) => 104,
        Token::BacktickIdent(_) => 105,
        Token::BlobLit(_) => 106,
        Token::Ident(_) => 107,
        Token::BindParam => 108,
        Token::NamedParam(_) => 109,
        Token::AtParam(_) => 110,
        Token::DollarParam(_) => 111,
    }
}

/// The token that carries no value at place `k`.
pub fn unit_token(k: usize) -> (t: Token)
    requires
        is_unit_index(k as int),
    ensures
        token_index(t) == k,
{
    match k {
        0 => Token::Select,
        1 => Token::From,
        2 => Token::Where,
        3 => Token::Insert,
        4 => Token::Into,
        5 => Token::Values,
        6 => Token::Update,
        7 => Token::SetKw,
        8 => Token::Delete,
        9 => Token::Create,
        10 => Token::Table,
        11 => Token::Index,
        12 => Token::Drop,
        13 => Token::If,
        14 => Token::Not,
        15 => Token::Exists,
        16 => Token::Primary,
        17 => Token::Key,
        18 => Token::Autoincrement,
        19 => Token::Null,
        20 => Token::Integer,
        21 => Token::Real,
        22 => Token::Text,
        23 => Token::Blob,
        24 => Token::And,
        25 => Token::Or,
        26 => Token::Order,
        27 => Token::By,
        28 => Token::Asc,
        29 => Token::Desc,
        30 => Token::Limit,
        31 => Token::Begin,
        32 => Token::Commit,
        33 => Token::Rollback,
        34 => Token::Transaction,
        35 => Token::Pragma,
        36 => Token::Unique,
        37 => Token::Default,
        38 => Token::As,
        39 => Token::On,
        40 => Token::Join,
        41 => Token::Left,
        42 => Token::Inner,
        43 => Token::Cross,
        44 => Token::Group,
        45 => Token::Having,
        46 => Token::Distinct,
        47 => Token::Count,
        48 => Token::Like,
        49 => Token::Is,
        50 => Token::In,
        51 => Token::Between,
        52 => Token::Case,
        53 => Token::When,
        54 => Token::Then,
        55 => Token::Else,
        56 => Token::End,
        57 => Token::Collate,
        58 => Token::Constraint,
        59 => Token::Foreign,
        60 => Token::References,
        61 => Token::Check,
        62 => Token::View,
        63 => Token::Trigger,
        64 => Token::Temp,
        65 => Token::Temporary,
        66 => Token::Without,
        67 => Token::Rowid,
        68 => Token::Replace,
        69 => Token::Ignore,
        70 => Token::Fail,
        71 => Token::AbortKw,
        72 => Token::With,
        73 => Token::Union,
        74 => Token::All,
        75 => Token::Except,
        76 => Token::Intersect,
        77 => Token::Offset,
        78 => Token::Concat,
        79 => Token::EqEq,
        80 => Token::NotEq,
        81 => Token::Le,
        82 => Token::Ge,
        83 => Token::Shl,
        84 => Token::Shr,
        85 => Token::Eq,
        86 => Token::Lt,
        87 => Token::Gt,
        88 => Token::Plus,
        89 => Token::Minus,
        90 => Token::Star,
        91 => Token::Slash,
        92 => Token::Percent,
        93 => Token::Amp,
        94 => Token::Pipe,
        95 => Token::Tilde,
        96 => Token::LParen,
        97 => Token::RParen,
        98 => Token::Comma,
        99 => Token::Semi,
        100 => Token::Dot,
        _ => Token::BindParam,
    }
}

/// The name of the token at place `k`, as it is declared.
pub open spec fn token_name(k: int) -> Seq<char> {
    if k == 0 {
        "Select"@
    } else if k == 1 {
        "From"@
    } else if k == 2 {
        "Where"@
    } else if k == 3 {
        "Insert"@
    } else if k == 4 {
        "Into"@
    } else if k == 5 {
        "Values"@
    } else if k == 6 {
        "Update"@
    } else if k == 7 {
        "SetKw"@
    } else if k == 8 {
        "Delete"@
    } else if k == 9 {
        "Create"@
    } else if k == 10 {
        "Table"@
    } else if k == 11 {
        "Index"@
    } else if k == 12 {
        "Drop"@
    } else if k == 13 {
        "If"@
    } else if k == 14 {
        "Not"@
    } else if k == 15 {
        "Exists"@
    } else if k == 16 {
        "Primary"@
    } else if k == 17 {
        "Key"@
    } else if k == 18 {
        "Autoincrement"@
    } else if k == 19 {
        "Null"@
    } else if k == 20 {
        "Integer"@
    } else if k == 21 {
        "Real"@
    } else if k == 22 {
        "Text"@
    } else if k == 23 {
        "Blob"@
    } else if k == 24 {
        "And"@
    } else if k == 25 {
        "Or"@
    } else if k == 26 {
        "Order"@
    } else if k == 27 {
        "By"@
    } else if k == 28 {
        "Asc"@
    } else if k == 29 {
        "Desc"@
    } else if k == 30 {
        "Limit"@
    } else if k == 31 {
        "Begin"@
    } else if k == 32 {
        "Commit"@
    } else if k == 33 {
        "Rollback"@
    } else if k == 34 {
        "Transaction"@
    } else if k == 35 {
        "Pragma"@
    } else if k == 36 {
        "Unique"@
    } else if k == 37 {
        "Default"@
    } else if k == 38 {
        "As"@
    } else if k == 39 {
        "On"@
    } else if k == 40 {
        "Join"@
    } else if k == 41 {
        "Left"@
    } else if k == 42 {
        "Inner"@
    } else if k == 43 {
        "Cross"@
    } else if k == 44 {
        "Group"@
    } else if k == 45 {
        "Having"@
    } else if k == 46 {
        "Distinct"@
    } else if k == 47 {
        "Count"@
    } else if k == 48 {
        "Like"@
    } else if k == 49 {
        "Is"@
    } else if k == 50 {
        "In"@
    } else if k == 51 {
        "Between"@
    } else if k == 52 {
        "Case"@
    } else if k == 53 {
        "When"@
    } else if k == 54 {
        "Then"@
    } else if k == 55 {
        "Else"@
    } else if k == 56 {
        "End"@
    } else if k == 57 {
        "Collate"@
    } else if k == 58 {
        "Constraint"@
    } else if k == 59 {
        "Foreign"@
    } else if k == 60 {
        "References"@
    } else if k == 61 {
        "Check"@
    } else if k == 62 {
        "View"@
    } else if k == 63 {
        "Trigger"@
    } else if k == 64 {
        "Temp"@
    } else if k == 65 {
        "Temporary"@
    } else if k == 66 {
        "Without"@
    } else if k == 67 {
        "Rowid"@
    } else if k == 68 {
        "Replace"@
    } else if k == 69 {
        "Ignore"@
    } else if k == 70 {
        "Fail"@
    } else if k == 71 {
        "AbortKw"@
    } else if k == 72 {
        "With"@
    } else if k == 73 {
        "Union"@
    } else if k == 74 {
        "All"@
    } else if k == 75 {
        "Except"@
    } else if k == 76 {
        "Intersect"@
    } else if k == 77 {
        "Offset"@
    } else if k == 78 {
        "Concat"@
    } else if k == 79 {
        "EqEq"@
    } else if k == 80 {
        "NotEq"@
    } else if k == 81 {
        "Le"@
    } else if k == 82 {
        "Ge"@
    } else if k == 83 {
        "Shl"@
    } else if k == 84 {
        "Shr"@
    } else if k == 85 {
        "Eq"@
    } else if k == 86 {
        "Lt"@
    } else if k == 87 {
        "Gt"@
    } else if k == 88 {
        "Plus"@
    } else if k == 89 {
        "Minus"@
    } else if k == 90 {
        "Star"@
    } else if k == 91 {
        "Slash"@
    } else if k == 92 {
        "Percent"@
    } else if k == 93 {
        "Amp"@
    } else if k == 94 {
        "Pipe"@
    } else if k == 95 {
        "Tilde"@
    } else if k == 96 {
        "LParen"@
    } else if k == 97 {
        "RParen"@
    } else if k == 98 {
        "Comma"@
    } else if k == 99 {
        "Semi"@
    } else if k == 100 {
        "Dot"@
    } else if k == 101 {
        "IntegerLit"@
    } else if k == 102 {
        "RealLit"@
    } else if k == 103 {
        "StringLit"@
    } else if k == 104 {
        "QuotedIdent"@
    } else if k == 105 {
        "BacktickIdent"@
    } else if k == 106 {
        "BlobLit"@
    } else if k == 107 {
        "Ident"@
    } else if k == 108 {
        "BindParam"@
    } else if k == 109 {
        "NamedParam"@
    } else if k == 110 {
        "AtParam"@
    } else if k == 111 {
        "DollarParam"@
    } else {
        Seq::empty()
    }
}

/// The name of the token at place `k`, as it is declared.
pub fn name_of(k: usize) -> (s: &'static str)
    requires
        k < 112,
    ensures
        s@ == token_name(k as int),
{
    match k {
        0 => "Select",
        1 => "From",
        2 => "Where",
        3 => "Insert",
        4 => "Into",
        5 => "Values",
        6 => "Update",
        7 => "SetKw",
        8 => "Delete",
        9 => "Create",
        10 => "Table",
        11 => "Index",
        12 => "Drop",
        13 => "If",
        14 => "Not",
        15 => "Exists",
        16 => "Primary",
        17 => "Key",
        18 => "Autoincrement",
        19 => "Null",
        20 => "Integer",
        21 => "Real",
        22 => "Text",
        23 => "Blob",
        24 => "And",
        25 => "Or",
        26 => "Order",
        27 => "By",
        28 => "Asc",
        29 => "Desc",
        30 => "Limit",
        31 => "Begin",
        32 => "Commit",
        33 => "Rollback",
        34 => "Transaction",
        35 => "Pragma",
        36 => "Unique",
        37 => "Default",
        38 => "As",
        39 => "On",
        40 => "Join",
        41 => "Left",
        42 => "Inner",
        43 => "Cross",
        44 => "Group",
        45 => "Having",
        46 => "Distinct",
        47 => "Count",
        48 => "Like",
        49 => "Is",
        50 => "In",
        51 => "Between",
        52 => "Case",
        53 => "When",
        54 => "Then",
        55 => "Else",
        56 => "End",
        57 => "Collate",
        58 => "Constraint",
        59 => "Foreign",
        60 => "References",
        61 => "Check",
        62 => "View",
        63 => "Trigger",
        64 => "Temp",
        65 => "Temporary",
        66 => "Without",
        67 => "Rowid",
        68 => "Replace",
        69 => "Ignore",
        70 => "Fail",
        71 => "AbortKw",
        72 => "With",
        73 => "Union",
        74 => "All",
        75 => "Except",
        76 => "Intersect",
        77 => "Offset",
        78 => "Concat",
        79 => "EqEq",
        80 => "NotEq",
        81 => "Le",
        82 => "Ge",
        83 => "Shl",
        84 => "Shr",
        85 => "Eq",
        86 => "Lt",
        87 => "Gt",
        88 => "Plus",
        89 => "Minus",
        90 => "Star",
        91 => "Slash",
        92 => "Percent",
        93 => "Amp",
        94 => "Pipe",
        95 => "Tilde",
        96 => "LParen",
        97 => "RParen",
        98 => "Comma",
        99 => "Semi",
        100 => "Dot",
        101 => "IntegerLit",
        102 => "RealLit",
        103 => "StringLit",
        104 => "QuotedIdent",
        105 => "BacktickIdent",
        106 => "BlobLit",
        107 => "Ident",
        108 => "BindParam",
        109 => "NamedParam",
        110 => "AtParam",
        _ => "DollarParam",
    }
}

/// The text of the `k`-th keyword, in lower case.
pub open spec fn keyword_text(k: int) -> Seq<char> {
    if k == 0 {
        "select"@
    } else if k == 1 {
        "from"@
    } else if k == 2 {
        "where"@
    } else if k == 3 {
        "insert"@
    } else if k == 4 {
        "into"@
    } else if k == 5 {
        "values"@
    } else if k == 6 {
        "update"@
    } else if k == 7 {
        "set"@
    } else if k == 8 {
        "delete"@
    } else if k == 9 {
        "create"@
    } else if k == 10 {
        "table"@
    } else if k == 11 {
        "index"@
    } else if k == 12 {
        "drop"@
    } else if k == 13 {
        "if"@
    } else if k == 14 {
        "not"@
    } else if k == 15 {
        "exists"@
    } else if k == 16 {
        "primary"@
    } else if k == 17 {
        "key"@
    } else if k == 18 {
        "autoincrement"@
    } else if k == 19 {
        "null"@
    } else if k == 20 {
        "integer"@
    } else if k == 21 {
        "real"@
    } else if k == 22 {
        "text"@
    } else if k == 23 {
        "blob"@
    } else if k == 24 {
        "and"@
    } else if k == 25 {
        "or"@
    } else if k == 26 {
        "order"@
    } else if k == 27 {
        "by"@
    } else if k == 28 {
        "asc"@
    } else if k == 29 {
        "desc"@
    } else if k == 30 {
        "limit"@
    } else if k == 31 {
        "begin"@
    } else if k == 32 {
        "commit"@
    } else if k == 33 {
        "rollback"@
    } else if k == 34 {
        "transaction"@
    } else if k == 35 {
        "pragma"@
    } else if k == 36 {
        "unique"@
    } else if k == 37 {
        "default"@
    } else if k == 38 {
        "as"@
    } else if k == 39 {
        "on"@
    } else if k == 40 {
        "join"@
    } else if k == 41 {
        "left"@
    } else if k == 42 {
        "inner"@
    } else if k == 43 {
        "cross"@
    } else if k == 44 {
        "group"@
    } else if k == 45 {
        "having"@
    } else if k == 46 {
        "distinct"@
    } else if k == 47 {
        "count"@
    } else if k == 48 {
        "like"@
    } else if k == 49 {
        "is"@
    } else if k == 50 {
        "in"@
    } else if k == 51 {
        "between"@
    } else if k == 52 {
        "case"@
    } else if k == 53 {
        "when"@
    } else if k == 54 {
        "then"@
    } else if k == 55 {
        "else"@
    } else if k == 56 {
        "end"@
    } else if k == 57 {
        "collate"@
    } else if k == 58 {
        "constraint"@
    } else if k == 59 {
        "foreign"@
    } else if k == 60 {
        "references"@
    } else if k == 61 {
        "check"@
    } else if k == 62 {
        "view"@
    } else if k == 63 {
        "trigger"@
    } else if k == 64 {
        "temp"@
    } else if k == 65 {
        "temporary"@
    } else if k == 66 {
        "without"@
    } else if k == 67 {
        "rowid"@
    } else if k == 68 {
        "replace"@
    } else if k == 69 {
        "ignore"@
    } else if k == 70 {
        "fail"@
    } else if k == 71 {
        "abort"@
    } else if k == 72 {
        "with"@
    } else if k == 73 {
        "union"@
    } else if k == 74 {
        "all"@
    } else if k == 75 {
        "except"@
    } else if k == 76 {
        "intersect"@
    } else if k == 77 {
        "offset"@
    } else {
        Seq::empty()
    }
}

/// The text of the `k`-th keyword, in lower case.
pub fn keyword_str(k: usize) -> (s: &'static str)
    requires
        k < KEYWORD_COUNT,
    ensures
        s@ == keyword_text(k as int),
{
    match k {
        0 => "select",
        1 => "from",
        2 => "where",
        3 => "insert",
        4 => "into",
        5 => "values",
        6 => "update",
        7 => "set",
        8 => "delete",
        9 => "create",
        10 => "table",
        11 => "index",
        12 => "drop",
        13 => "if",
        14 => "not",
        15 => "exists",
        16 => "primary",
        17 => "key",
        18 => "autoincrement",
        19 => "null",
        20 => "integer",
        21 => "real",
        22 => "text",
        23 => "blob",
        24 => "and",
        25 => "or",
        26 => "order",
        27 => "by",
        28 => "asc",
        29 => "desc",
        30 => "limit",
        31 => "begin",
        32 => "commit",
        33 => "rollback",
        34 => "transaction",
        35 => "pragma",
        36 => "unique",
        37 => "default",
        38 => "as",
        39 => "on",
        40 => "join",
        41 => "left",
        42 => "inner",
        43 => "cross",
        44 => "group",
        45 => "having",
        46 => "distinct",
        47 => "count",
        48 => "like",
        49 => "is",
        50 => "in",
        51 => "between",
        52 => "case",
        53 => "when",
        54 => "then",
        55 => "else",
        56 => "end",
        57 => "collate",
        58 => "constraint",
        59 => "foreign",
        60 => "references",
        61 => "check",
        62 => "view",
        63 => "trigger",
        64 => "temp",
        65 => "temporary",
        66 => "without",
        67 => "rowid",
        68 => "replace",
        69 => "ignore",
        70 => "fail",
        71 => "abort",
        72 => "with",
        73 => "union",
        74 => "all",
        75 => "except",
        76 => "intersect",
        _ => "offset",
    }
}

} // verus!
