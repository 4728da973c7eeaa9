//! Recursive descent SQL parser over the tokens of the lexer.

use vstd::prelude::*;

use crate::ast::{
    BinaryOp, ColumnConstraint, ColumnDef, ColumnType, ConflictAction, CreateIndex, CreateTable,
    Delete, DropTable, Expr, Insert, JoinType, OrderTerm, ParseError, ParseResult, Pragma,
    ResultColumn, Select, Statement, TableRef, UnaryOp, Update,
};
use crate::text::{
    ascii_lowercase, chars_of, push_str_chars, same_chars, string_of, to_ascii_lowercase,
};
use crate::token::{index_of, name_of, token_index, token_name, SpannedToken, Token, TOKEN_COUNT};

verus! {

/// The decimal digits of `n`.
pub open spec fn decimal(n: nat) -> Seq<char>
    decreases n,
{
    if n < 10 {
        seq![('0' as u32 + n) as char]
    } else {
        decimal(n / 10) + seq![('0' as u32 + n % 10) as char]
    }
}

/// The decimal text of `v`, with a `-` when it is negative.
pub open spec fn signed_decimal(v: int) -> Seq<char> {
    if v < 0 {
        seq!['-'] + decimal((-v) as nat)
    } else {
        decimal(v as nat)
    }
}

/// The decimal digits of `n`.
pub(crate) fn decimal_text(n: u128) -> (r: Vec<char>)
    ensures
        r@ == decimal(n as nat),
    decreases n,
{
    let digit = ((n % 10) as u32 + '0' as u32) as u8 as char;
    proof {
        assert(('0' as u32 + n % 10) as char == digit) by {
            assert((n % 10) as u32 + 48 < 128);
        }
    }
    if n < 10 {
        vec![digit]
    } else {
        let mut r = decimal_text(n / 10);
        r.push(digit);
        r
    }
}

/// The decimal text of `v`.
pub(crate) fn signed_decimal_text(v: i64) -> (r: Vec<char>)
    ensures
        r@ == signed_decimal(v as int),
{
    if v < 0 {
        let m: u128 = (-(v as i128)) as u128;
        let mut r: Vec<char> = vec!['-'];
        let d = decimal_text(m);
        let ghost r0 = r@;
        let mut k: usize = 0;
        while k < d.len()
            invariant
                k <= d@.len(),
                r@ == r0 + d@.subrange(0, k as int),
            decreases d@.len() - k,
        {
            r.push(d[k]);
            k = k + 1;
            proof {
                assert(d@.subrange(0, k as int) =~= d@.subrange(0, k - 1).push(d@[k - 1]));
            }
        }
        assert(d@.subrange(0, d@.len() as int) =~= d@);
        r
    } else {
        decimal_text(v as u128)
    }
}

/// The bytes `b` as `{:?}` shows a list of numbers: `[1, 2, 3]`.
pub open spec fn byte_list_text(b: Seq<u8>) -> Seq<char> {
    seq!['['] + byte_items_text(b) + seq![']']
}

/// The bytes `b` in decimal, separated by `, `.
pub open spec fn byte_items_text(b: Seq<u8>) -> Seq<char>
    decreases b.len(),
{
    if b.len() == 0 {
        seq![]
    } else if b.len() == 1 {
        decimal(b[0] as nat)
    } else {
        byte_items_text(b.drop_last()) + ", "@ + decimal(b.last() as nat)
    }
}

/// The text of `s` as `{:?}` shows a string: between double quotes, with
/// quotes, backslashes and characters that do not print escaped.
pub uninterp spec fn str_debug(s: Seq<char>) -> Seq<char>;

/// std's `Debug` for `str`. The text is named: it is a function of the
/// characters alone, and how each is escaped is left to std.
#[verifier::external_body]
fn debug_str(s: &str) -> (r: String)
    ensures
        r@ == str_debug(s@),
{
    format!("{:?}", s)
}

/// How a parse error names a token: as `{:?}` shows it, a real literal by
/// the bits it holds.
pub open spec fn token_text(t: Token) -> Seq<char> {
    match t {
        Token::IntegerLit(v) => wrapped_text("IntegerLit"@, signed_decimal(v as int)),
        Token::RealLit(b) => wrapped_text("RealLit"@, decimal(b as nat)),
        Token::StringLit(x) => wrapped_text("StringLit"@, str_debug(x@)),
        Token::QuotedIdent(x) => wrapped_text("QuotedIdent"@, str_debug(x@)),
        Token::BacktickIdent(x) => wrapped_text("BacktickIdent"@, str_debug(x@)),
        Token::BlobLit(b) => wrapped_text("BlobLit"@, byte_list_text(b@)),
        Token::Ident(x) => wrapped_text("Ident"@, str_debug(x@)),
        Token::NamedParam(x) => wrapped_text("NamedParam"@, str_debug(x@)),
        Token::AtParam(x) => wrapped_text("AtParam"@, str_debug(x@)),
        Token::DollarParam(x) => wrapped_text("DollarParam"@, str_debug(x@)),
        _ => token_name(token_index(t)),
    }
}

/// `NAME(INNER)`.
pub open spec fn wrapped_text(name: Seq<char>, inner: Seq<char>) -> Seq<char> {
    name + "("@ + inner + ")"@
}

fn push_chars(buf: &mut Vec<char>, cs: &Vec<char>)
    ensures
        final(buf)@ == old(buf)@ + cs@,
{
    let ghost base = buf@;
    let mut k: usize = 0;
    while k < cs.len()
        invariant
            k <= cs@.len(),
            buf@ == base + cs@.subrange(0, k as int),
        decreases cs@.len() - k,
    {
        buf.push(cs[k]);
        k = k + 1;
        proof {
            assert(cs@.subrange(0, k as int) =~= cs@.subrange(0, k - 1).push(cs@[k - 1]));
        }
    }
    assert(cs@.subrange(0, cs@.len() as int) =~= cs@);
}

/// `NAME(` + `inner` + `)`.
fn wrapped(name: &str, inner: &Vec<char>) -> (r: String)
    ensures
        r@ == name@ + "("@ + inner@ + ")"@,
{
    let mut cs: Vec<char> = Vec::new();
    push_str_chars(&mut cs, name);
    push_str_chars(&mut cs, "(");
    push_chars(&mut cs, inner);
    push_str_chars(&mut cs, ")");
    string_of(cs.as_slice())
}

/// The bytes `b` as `{:?}` shows them.
fn byte_list(b: &Vec<u8>) -> (r: Vec<char>)
    ensures
        r@ == byte_list_text(b@),
{
    let mut items: Vec<char> = Vec::new();
    let mut k: usize = 0;
    while k < b.len()
        invariant
            k <= b@.len(),
            items@ == byte_items_text(b@.subrange(0, k as int)),
        decreases b@.len() - k,
    {
        let d = decimal_text(b[k] as u128);
        let ghost before = b@.subrange(0, k as int);
        if k > 0 {
            push_str_chars(&mut items, ", ");
        }
        push_chars(&mut items, &d);
        k = k + 1;
        proof {
            let now = b@.subrange(0, k as int);
            assert(now.drop_last() =~= before);
            assert(now.last() == b@[k - 1]);
            if k == 1 {
                assert(before =~= Seq::<u8>::empty());
                assert(items@ =~= decimal(now[0] as nat));
            }
        }
    }
    assert(b@.subrange(0, b@.len() as int) =~= b@);
    let mut r: Vec<char> = vec!['['];
    push_chars(&mut r, &items);
    r.push(']');
    assert(r@ =~= byte_list_text(b@));
    r
}

/// How a parse error names the token `t`.
fn describe_token(t: &Token) -> (r: String)
    ensures
        r@ == token_text(*t),
{
    match t {
        Token::IntegerLit(v) => wrapped("IntegerLit", &signed_decimal_text(*v)),
        Token::RealLit(b) => wrapped("RealLit", &decimal_text(*b as u128)),
        Token::StringLit(x) => wrapped("StringLit", &chars_of(debug_str(x.as_str()).as_str())),
        Token::QuotedIdent(x) => wrapped("QuotedIdent", &chars_of(debug_str(x.as_str()).as_str())),
        Token::BacktickIdent(x) => wrapped(
            "BacktickIdent",
            &chars_of(debug_str(x.as_str()).as_str()),
        ),
        Token::BlobLit(b) => wrapped("BlobLit", &byte_list(b)),
        Token::Ident(x) => wrapped("Ident", &chars_of(debug_str(x.as_str()).as_str())),
        Token::NamedParam(x) => wrapped("NamedParam", &chars_of(debug_str(x.as_str()).as_str())),
        Token::AtParam(x) => wrapped("AtParam", &chars_of(debug_str(x.as_str()).as_str())),
        Token::DollarParam(x) => wrapped("DollarParam", &chars_of(debug_str(x.as_str()).as_str())),
        _ => {
            let k = index_of(t);
            string_of(chars_of(name_of(k)).as_slice())
        },
    }
}


/// The message of a failed `expect` of the token at place `k`: std's
/// `{:?}` of its discriminant.
pub open spec fn expect_message(k: int) -> Seq<char> {
    "expected Discriminant("@ + decimal(k as nat) + ")"@
}

/// The syntax error naming `found` with `message`.
pub open spec fn syntax_error(e: ParseError, found: Seq<char>, message: Seq<char>) -> bool {
    e matches ParseError::Syntax { found: f, message: m } && f@ == found && m@ == message
}

/// An identifier token: bare, in double quotes or in backticks.
pub open spec fn is_ident_kind(k: int) -> bool {
    k == token_index(Token::Ident(arbitrary())) || k == token_index(Token::QuotedIdent(arbitrary()))
        || k == token_index(Token::BacktickIdent(arbitrary()))
}

/// The name an identifier token holds.
pub open spec fn ident_name(t: Token) -> Seq<char> {
    match t {
        Token::Ident(x) => x@,
        Token::QuotedIdent(x) => x@,
        Token::BacktickIdent(x) => x@,
        _ => Seq::empty(),
    }
}

/// The column type a type name, in lower case, stands for: INT and
/// INTEGER, BOOLEAN and BOOL are integers; FLOAT, DOUBLE and REAL are
/// reals; VARCHAR, CHAR, CHARACTER, TEXT and CLOB are text; BLOB is a blob;
/// anything else is numeric.
pub open spec fn type_named(w: Seq<char>) -> ColumnType {
    if w == "int"@ || w == "integer"@ || w == "boolean"@ || w == "bool"@ {
        ColumnType::Integer
    } else if w == "float"@ || w == "double"@ || w == "real"@ {
        ColumnType::Real
    } else if w == "varchar"@ || w == "char"@ || w == "character"@ || w == "text"@ || w
        == "clob"@ {
        ColumnType::Text
    } else if w == "blob"@ {
        ColumnType::Blob
    } else {
        ColumnType::Numeric
    }
}

/// The column type a type name, in lower case, stands for.
fn type_of_name(w: &Vec<char>) -> (t: ColumnType)
    ensures
        t == type_named(w@),
{
    if same_chars(w, &chars_of("int")) || same_chars(w, &chars_of("integer")) || same_chars(
        w,
        &chars_of("boolean"),
    ) || same_chars(w, &chars_of("bool")) {
        ColumnType::Integer
    } else if same_chars(w, &chars_of("float")) || same_chars(w, &chars_of("double")) || same_chars(
        w,
        &chars_of("real"),
    ) {
        ColumnType::Real
    } else if same_chars(w, &chars_of("varchar")) || same_chars(w, &chars_of("char")) || same_chars(
        w,
        &chars_of("character"),
    ) || same_chars(w, &chars_of("text")) || same_chars(w, &chars_of("clob")) {
        ColumnType::Text
    } else if same_chars(w, &chars_of("blob")) {
        ColumnType::Blob
    } else {
        ColumnType::Numeric
    }
}

/// The text a subquery in an expression is kept as: `(` and the query as
/// `{:?}` shows it, and `)`. Nothing is stated of the text: it is std's
/// formatting of the query's derived `Debug`.
#[verifier::external_body]
fn subquery_text(select: &Select) -> String {
    format!("({:?})", select)
}

/// Whether a token of place `k` begins a statement.
pub open spec fn starts_statement(k: int) -> bool {
    ||| k == token_index(Token::Select)
    ||| k == token_index(Token::Insert)
    ||| k == token_index(Token::Update)
    ||| k == token_index(Token::Delete)
    ||| k == token_index(Token::Create)
    ||| k == token_index(Token::Drop)
    ||| k == token_index(Token::Pragma)
    ||| k == token_index(Token::Begin)
    ||| k == token_index(Token::Commit)
    ||| k == token_index(Token::Rollback)
}

/// Whether the token where `p` stands begins a statement.
pub open spec fn statement_start(p: Parser) -> bool {
    ||| p.at_kind(token_index(Token::Select))
    ||| p.at_kind(token_index(Token::Insert))
    ||| p.at_kind(token_index(Token::Update))
    ||| p.at_kind(token_index(Token::Delete))
    ||| p.at_kind(token_index(Token::Create))
    ||| p.at_kind(token_index(Token::Drop))
    ||| p.at_kind(token_index(Token::Pragma))
    ||| p.at_kind(token_index(Token::Begin))
    ||| p.at_kind(token_index(Token::Commit))
    ||| p.at_kind(token_index(Token::Rollback))
}

/// The error names the token where the parser stopped.
pub open spec fn fails_at(e: ParseError, p: Parser) -> bool {
    e is Syntax && e->found@ == p.found()
}

/// The tokens of `p` from position `from` up to `to`.
pub open spec fn tokens_between(p: Parser, from: int, to: int) -> Seq<Token> {
    Seq::new((to - from) as nat, |i: int| p.spec_tokens()[from + i].token)
}

/// The operators written between two operands: OR, AND, the comparisons
/// (`=`, `!=`, `<`, `<=`, `>`, `>=`, LIKE, IS, IS NOT) and `+ - || * / %`.
pub open spec fn infix_op(op: BinaryOp) -> bool {
    ||| op is Or || op is And
    ||| op is Eq || op is NotEq || op is Lt || op is Le || op is Gt || op is Ge || op is Like
        || op is Is || op is IsNot
    ||| op is Add || op is Sub || op is Concat || op is Mul || op is Div || op is Mod
}

/// The token that writes the operator `op` (for `=` also `==`, for IS NOT
/// the IS before NOT).
pub open spec fn op_kind(op: BinaryOp) -> int {
    match op {
        BinaryOp::Or => token_index(Token::Or),
        BinaryOp::And => token_index(Token::And),
        BinaryOp::Eq => token_index(Token::Eq),
        BinaryOp::NotEq => token_index(Token::NotEq),
        BinaryOp::Lt => token_index(Token::Lt),
        BinaryOp::Le => token_index(Token::Le),
        BinaryOp::Gt => token_index(Token::Gt),
        BinaryOp::Ge => token_index(Token::Ge),
        BinaryOp::Like => token_index(Token::Like),
        BinaryOp::Is => token_index(Token::Is),
        BinaryOp::IsNot => token_index(Token::Is),
        BinaryOp::Add => token_index(Token::Plus),
        BinaryOp::Sub => token_index(Token::Minus),
        BinaryOp::Concat => token_index(Token::Concat),
        BinaryOp::Mul => token_index(Token::Star),
        BinaryOp::Div => token_index(Token::Slash),
        _ => token_index(Token::Percent),
    }
}

/// The `w` tokens of `toks` from `i` write the operator `op`: IS NOT is IS
/// and NOT, `=` is `=` or `==`, any other is its one token.
pub open spec fn op_written(toks: Seq<Token>, i: int, w: int, op: BinaryOp) -> bool {
    if op is IsNot {
        w == 2 && i + 1 < toks.len() && token_index(toks[i]) == token_index(Token::Is)
            && token_index(toks[i + 1]) == token_index(Token::Not)
    } else if op is Eq {
        w == 1 && (token_index(toks[i]) == token_index(Token::Eq) || token_index(toks[i])
            == token_index(Token::EqEq))
    } else {
        w == 1 && token_index(toks[i]) == op_kind(op)
    }
}

/// How loosely an operator binds: OR (0), AND (1), the comparisons (3),
/// `+ - ||` (4), `* / %` (5); NOT stands at level 2, a single operand at 6.
pub open spec fn op_level(op: BinaryOp) -> int {
    if op is Or {
        0
    } else if op is And {
        1
    } else if op is Add || op is Sub || op is Concat {
        4
    } else if op is Mul || op is Div || op is Mod {
        5
    } else {
        3
    }
}

/// The expressions built of NULL, integers, doubles, strings, names
/// (qualified or not), NOT,
/// negation and the operators of `infix_op`.
pub open spec fn expr_form(e: Expr) -> bool
    decreases e,
{
    match e {
        Expr::Null => true,
        Expr::Integer(_) => true,
        Expr::Real(_) => true,
        Expr::String(_) => true,
        Expr::Ident(_) => true,
        Expr::QualifiedIdent { .. } => true,
        Expr::UnaryOp { op, expr } => (op is Minus || op is Not) && expr_form(*expr),
        Expr::BinaryOp { op, left, right } => infix_op(op) && expr_form(*left) && expr_form(*right),
        _ => false,
    }
}

/// The tokens `toks` write the expression `e` as an operand at level `lvl`
/// (see `op_level`): in parentheses (as a whole expression inside them),
/// after a `+`, or as a literal (NULL, an integer, a double, a string); a name
/// (an identifier token of that name, or a subquery in parentheses, which
/// stands for a name); a table name, a dot and a column name; `-` before an
/// operand; NOT before an operand at the
/// level of NOT, where that level is allowed; or, at a level no tighter than
/// the operator's, a left operand at the operator's level, the tokens of the
/// operator, and a right operand at the next level, so that operators of
/// one level group from the left and tighter ones bind first.
pub open spec fn spells(e: Expr, toks: Seq<Token>, lvl: int) -> bool
    decreases toks.len(),
{
    ||| toks.len() >= 2 && token_index(toks[0]) == token_index(Token::LParen) && token_index(
        toks[toks.len() - 1],
    ) == token_index(Token::RParen) && spells(e, toks.subrange(1, toks.len() - 1), 0)
    ||| toks.len() >= 2 && token_index(toks[0]) == token_index(Token::Plus) && spells(
        e,
        toks.subrange(1, toks.len() as int),
        6,
    )
    ||| match e {
        Expr::Null => toks.len() == 1 && token_index(toks[0]) == token_index(Token::Null),
        Expr::Integer(n) => toks.len() == 1 && toks[0] == Token::IntegerLit(n),
        Expr::Real(b) => toks.len() == 1 && toks[0] == Token::RealLit(b),
        Expr::String(v) => toks.len() == 1 && (toks[0] matches Token::StringLit(x) && x@ == v@),
        Expr::Ident(name) => {
            ||| toks.len() == 1 && is_ident_kind(token_index(toks[0])) && ident_name(toks[0]) == name@
            ||| toks.len() >= 2 && token_index(toks[0]) == token_index(Token::LParen) && token_index(
                toks[1],
            ) == token_index(Token::Select)
        },
        Expr::QualifiedIdent { table, column } => toks.len() == 3 && is_ident_kind(
            token_index(toks[0]),
        ) && ident_name(toks[0]) == table@ && token_index(toks[1]) == token_index(Token::Dot)
            && is_ident_kind(token_index(toks[2])) && ident_name(toks[2]) == column@,
        Expr::UnaryOp { op, expr } => {
            ||| op is Minus && toks.len() >= 2 && token_index(toks[0]) == token_index(Token::Minus)
                && spells(*expr, toks.subrange(1, toks.len() as int), 6)
            ||| op is Not && lvl <= 2 && toks.len() >= 2 && token_index(toks[0]) == token_index(
                Token::Not,
            ) && spells(*expr, toks.subrange(1, toks.len() as int), 2)
        },
        Expr::BinaryOp { op, left, right } => infix_op(op) && lvl <= op_level(op) && exists|
            i: int,
            w: int,
        |
            #![trigger toks[i], op_written(toks, i, w, op)]
            0 < i && 1 <= w <= 2 && i + w < toks.len() && op_written(toks, i, w, op) && spells(
                *left,
                toks.subrange(0, i),
                op_level(op),
            ) && spells(*right, toks.subrange(i + w, toks.len() as int), op_level(op) + 1),
        _ => false,
    }
}

/// What tokens write as an operand at one level they write at any looser
/// level.
pub proof fn lemma_spells_looser(e: Expr, toks: Seq<Token>, lvl: int, looser: int)
    requires
        spells(e, toks, lvl),
        looser <= lvl,
    ensures
        spells(e, toks, looser),
{
}

/// Where a parse of `before` ended in `after` with the expression `e`, the
/// tokens read write `e` as an operand at level `lvl`, when `e` is of the
/// forms of `expr_form`.
pub open spec fn reads_expr(before: Parser, after: Parser, r: Result<Expr, ParseError>, lvl: int) -> bool {
    match r {
        Ok(e) => expr_form(e) ==> spells(e, tokens_between(before, before.spec_pos(), after.spec_pos()), lvl),
        Err(_) => true,
    }
}

/// Two operands written one after the other with the tokens of `op`
/// between them, the left one at the level of `op` and the right one at the
/// next, write the expression that joins them by `op`.
pub proof fn lemma_spells_binary(p: Parser, a: int, b: int, w: int, c: int, op: BinaryOp, l: Expr, r: Expr)
    requires
        0 <= a < b,
        1 <= w <= 2,
        b + w < c <= p.spec_tokens().len(),
        infix_op(op),
        op_written(tokens_between(p, a, c), b - a, w, op),
        spells(l, tokens_between(p, a, b), op_level(op)),
        spells(r, tokens_between(p, b + w, c), op_level(op) + 1),
    ensures
        spells(
            Expr::BinaryOp { op, left: Box::new(l), right: Box::new(r) },
            tokens_between(p, a, c),
            op_level(op),
        ),
{
    let t = tokens_between(p, a, c);
    assert(t.subrange(0, b - a) =~= tokens_between(p, a, b));
    assert(t.subrange(b - a + w, t.len() as int) =~= tokens_between(p, b + w, c));
    let _ = t[b - a];
}

/// From `before` to `after` the parser read a phrase: it moved on by at
/// least one token when it succeeded, and a failure names where it
/// stopped.
pub open spec fn read_phrase<T>(before: Parser, after: Parser, r: Result<T, ParseError>) -> bool {
    &&& after.wf()
    &&& before.moved_to(&after)
    &&& r is Ok ==> after.spec_pos() > before.spec_pos()
    &&& r matches Err(e) ==> fails_at(e, after)
}

/// A parser over a sequence of tokens, at a position among them.
pub struct Parser {
    tokens: Vec<SpannedToken>,
    pos: usize,
}

impl Parser {
    pub closed spec fn spec_tokens(&self) -> Seq<SpannedToken> {
        self.tokens@
    }

    pub closed spec fn spec_pos(&self) -> int {
        self.pos as int
    }

    /// The place of the `i`-th token.
    pub open spec fn kind_at(&self, i: int) -> int {
        token_index(self.spec_tokens()[i].token)
    }

    /// The position is within the tokens.
    pub open spec fn wf(&self) -> bool {
        0 <= self.spec_pos() <= self.spec_tokens().len()
    }

    /// Whether the token at the position is of place `k`.
    pub open spec fn at_kind(&self, k: int) -> bool {
        self.spec_pos() < self.spec_tokens().len() && self.kind_at(self.spec_pos()) == k
    }

    /// How an error names where the parser stands: the token there, or
    /// the end of the input.
    pub open spec fn found(&self) -> Seq<char> {
        if self.spec_pos() < self.spec_tokens().len() {
            token_text(self.spec_tokens()[self.spec_pos()].token)
        } else {
            "end of input"@
        }
    }

    /// `later` is this parser over the same tokens, moved on or not.
    pub open spec fn moved_to(&self, later: &Self) -> bool {
        &&& later.spec_tokens() == self.spec_tokens()
        &&& self.spec_pos() <= later.spec_pos() <= self.spec_tokens().len()
    }

    /// `later` is this parser moved on by `n` tokens.
    pub open spec fn stepped(&self, later: &Self, n: int) -> bool {
        &&& later.spec_tokens() == self.spec_tokens()
        &&& later.spec_pos() == self.spec_pos() + n
    }

    pub fn new(tokens: Vec<SpannedToken>) -> (p: Self)
        ensures
            p.spec_tokens() == tokens@,
            p.spec_pos() == 0,
            p.wf(),
    {
        Self { tokens, pos: 0 }
    }

    pub fn is_at_end(&self) -> (b: bool)
        ensures
            b == (self.spec_pos() >= self.spec_tokens().len()),
    {
        self.pos >= self.tokens.len()
    }

    /// The place of the token at the position.
    fn current_kind(&self) -> (k: Option<usize>)
        ensures
            match k {
                Some(k) => self.spec_pos() < self.spec_tokens().len() && k == self.kind_at(
                    self.spec_pos(),
                ),
                None => self.spec_pos() >= self.spec_tokens().len(),
            },
    {
        if self.pos < self.tokens.len() {
            Some(index_of(&self.tokens[self.pos].token))
        } else {
            None
        }
    }

    /// Whether the token at the position is of place `k`.
    fn check(&self, k: usize) -> (b: bool)
        ensures
            b == self.at_kind(k as int),
    {
        match self.current_kind() {
            Some(c) => c == k,
            None => false,
        }
    }

    /// Moves past the token at the position, if there is one.
    fn advance(&mut self)
        requires
            old(self).wf(),
        ensures
            final(self).spec_tokens() == old(self).spec_tokens(),
            final(self).spec_pos() == if old(self).spec_pos() < old(self).spec_tokens().len() {
                old(self).spec_pos() + 1
            } else {
                old(self).spec_pos()
            },
            final(self).wf(),
    {
        if self.pos < self.tokens.len() {
            self.pos = self.pos + 1;
        }
    }

    /// Moves past the token at the position when it is of place `k`.
    fn match_token(&mut self, k: usize) -> (b: bool)
        requires
            old(self).wf(),
        ensures
            b == old(self).at_kind(k as int),
            old(self).stepped(final(self), if b {
                1int
            } else {
                0int
            }),
            final(self).wf(),
    {
        if self.check(k) {
            self.advance();
            true
        } else {
            false
        }
    }

    /// The syntax error at the position, with `message`.
    fn error(&self, message: &str) -> (e: ParseError)
        ensures
            syntax_error(e, self.found(), message@),
    {
        let found = if self.pos < self.tokens.len() {
            describe_token(&self.tokens[self.pos].token)
        } else {
            string_of(chars_of("end of input").as_slice())
        };
        ParseError::Syntax { found, message: string_of(chars_of(message).as_slice()) }
    }

    /// Moves past the token of place `k`, or fails naming the token there.
    fn expect(&mut self, k: usize) -> (r: Result<(), ParseError>)
        requires
            old(self).wf(),
            k < TOKEN_COUNT,
        ensures
            final(self).wf(),
            r is Ok == old(self).at_kind(k as int),
            old(self).stepped(final(self), if r is Ok {
                1int
            } else {
                0int
            }),
            r matches Err(e) ==> syntax_error(e, old(self).found(), expect_message(k as int)),
    {
        if self.match_token(k) {
            Ok(())
        } else {
            let mut m = chars_of("expected Discriminant(");
            let d = decimal_text(k as u128);
            push_chars(&mut m, &d);
            push_str_chars(&mut m, ")");
            Err(self.error(string_of(m.as_slice()).as_str()))
        }
    }

    /// Whether the token at the position is an identifier.
    fn check_ident(&self) -> (b: bool)
        ensures
            b == (self.spec_pos() < self.spec_tokens().len() && is_ident_kind(
                self.kind_at(self.spec_pos()),
            )),
    {
        if self.pos < self.tokens.len() {
            match &self.tokens[self.pos].token {
                Token::Ident(_) | Token::QuotedIdent(_) | Token::BacktickIdent(_) => true,
                _ => false,
            }
        } else {
            false
        }
    }

    /// Moves past the semicolons at the position.
    pub fn skip_semicolons(&mut self)
        requires
            old(self).wf(),
        ensures
            final(self).wf(),
            old(self).moved_to(final(self)),
            !final(self).at_kind(token_index(Token::Semi)),
            forall|i: int|
                old(self).spec_pos() <= i < final(self).spec_pos() ==> old(self).kind_at(i)
                    == token_index(Token::Semi),
    {
        let semi = index_of(&Token::Semi);
        while self.check(semi)
            invariant
                self.wf(),
                old(self).moved_to(self),
                semi == token_index(Token::Semi),
                forall|i: int|
                    old(self).spec_pos() <= i < self.spec_pos() ==> old(self).kind_at(i) == semi,
            decreases self.spec_tokens().len() - self.spec_pos(),
        {
            self.advance();
        }
    }

    /// Reads an identifier: its name.
    fn parse_ident(&mut self) -> (r: Result<String, ParseError>)
        requires
            old(self).wf(),
        ensures
            final(self).wf(),
            match r {
                Ok(name) => old(self).spec_pos() < old(self).spec_tokens().len() && is_ident_kind(
                    old(self).kind_at(old(self).spec_pos()),
                ) && name@ == ident_name(old(self).spec_tokens()[old(self).spec_pos()].token)
                    && old(self).stepped(final(self), 1),
                Err(e) => !(old(self).spec_pos() < old(self).spec_tokens().len() && is_ident_kind(
                    old(self).kind_at(old(self).spec_pos()),
                )) && syntax_error(e, old(self).found(), "expected identifier"@)
                    && old(self).stepped(final(self), 0),
            },
    {
        if self.pos < self.tokens.len() {
            let name = match &self.tokens[self.pos].token {
                Token::Ident(x) => Some(string_of(chars_of(x.as_str()).as_slice())),
                Token::QuotedIdent(x) => Some(string_of(chars_of(x.as_str()).as_slice())),
                Token::BacktickIdent(x) => Some(string_of(chars_of(x.as_str()).as_slice())),
                _ => None,
            };
            if let Some(n) = name {
                self.advance();
                return Ok(n);
            }
        }
        Err(self.error("expected identifier"))
    }

    /// Whether the token at the position begins a join: JOIN, INNER, LEFT
    /// or CROSS.
    fn at_join(&self) -> (b: bool)
        ensures
            b == (self.at_kind(token_index(Token::Join)) || self.at_kind(token_index(Token::Inner))
                || self.at_kind(token_index(Token::Left)) || self.at_kind(
                token_index(Token::Cross),
            )),
    {
        self.check(index_of(&Token::Join)) || self.check(index_of(&Token::Inner)) || self.check(
            index_of(&Token::Left),
        ) || self.check(index_of(&Token::Cross))
    }

    /// Whether the token at the position ends a table name in FROM: JOIN,
    /// ON, WHERE, ORDER, GROUP, LIMIT or a comma.
    fn is_join_keyword(&self) -> (b: bool)
        ensures
            b == (self.at_kind(token_index(Token::Join)) || self.at_kind(token_index(Token::On))
                || self.at_kind(token_index(Token::Where)) || self.at_kind(
                token_index(Token::Order),
            ) || self.at_kind(token_index(Token::Group)) || self.at_kind(
                token_index(Token::Limit),
            ) || self.at_kind(token_index(Token::Comma))),
    {
        self.check(index_of(&Token::Join)) || self.check(index_of(&Token::On)) || self.check(
            index_of(&Token::Where),
        ) || self.check(index_of(&Token::Order)) || self.check(index_of(&Token::Group))
            || self.check(index_of(&Token::Limit)) || self.check(index_of(&Token::Comma))
    }

    /// Reads a join type: CROSS, LEFT or INNER; INNER when there is none.
    fn parse_join_type(&mut self) -> (j: JoinType)
        requires
            old(self).wf(),
        ensures
            final(self).wf(),
            if old(self).at_kind(token_index(Token::Cross)) {
                j == JoinType::Cross && old(self).stepped(final(self), 1)
            } else if old(self).at_kind(token_index(Token::Left)) {
                j == JoinType::Left && old(self).stepped(final(self), 1)
            } else if old(self).at_kind(token_index(Token::Inner)) {
                j == JoinType::Inner && old(self).stepped(final(self), 1)
            } else {
                j == JoinType::Inner && old(self).stepped(final(self), 0)
            },
    {
        if self.match_token(index_of(&Token::Cross)) {
            JoinType::Cross
        } else if self.match_token(index_of(&Token::Left)) {
            JoinType::Left
        } else if self.match_token(index_of(&Token::Inner)) {
            JoinType::Inner
        } else {
            JoinType::Inner
        }
    }

    /// Reads `OR ROLLBACK`, `OR ABORT`, `OR FAIL`, `OR IGNORE` or `OR
    /// REPLACE`; a lone OR is read and gives no action.
    fn parse_or_conflict(&mut self) -> (c: Option<ConflictAction>)
        requires
            old(self).wf(),
        ensures
            final(self).wf(),
            !old(self).at_kind(token_index(Token::Or)) ==> c is None && old(self).stepped(
                final(self),
                0,
            ),
            old(self).at_kind(token_index(Token::Or)) ==> {
                let next = old(self).spec_pos() + 1 < old(self).spec_tokens().len();
                let k = if next {
                    old(self).kind_at(old(self).spec_pos() + 1)
                } else {
                    -1
                };
                let action = if k == token_index(Token::Rollback) {
                    Some(ConflictAction::Rollback)
                } else if k == token_index(Token::AbortKw) {
                    Some(ConflictAction::Abort)
                } else if k == token_index(Token::Fail) {
                    Some(ConflictAction::Fail)
                } else if k == token_index(Token::Ignore) {
                    Some(ConflictAction::Ignore)
                } else if k == token_index(Token::Replace) {
                    Some(ConflictAction::Replace)
                } else {
                    None
                };
                &&& c == action
                &&& old(self).stepped(final(self), if action is Some {
                    2int
                } else {
                    1int
                })
            },
    {
        if !self.match_token(index_of(&Token::Or)) {
            return None;
        }
        if self.match_token(index_of(&Token::Rollback)) {
            Some(ConflictAction::Rollback)
        } else if self.match_token(index_of(&Token::AbortKw)) {
            Some(ConflictAction::Abort)
        } else if self.match_token(index_of(&Token::Fail)) {
            Some(ConflictAction::Fail)
        } else if self.match_token(index_of(&Token::Ignore)) {
            Some(ConflictAction::Ignore)
        } else if self.match_token(index_of(&Token::Replace)) {
            Some(ConflictAction::Replace)
        } else {
            None
        }
    }

    /// Reads a column type: a type keyword, or a type name whose lower case
    /// decides it; NUMERIC, reading nothing, when there is neither.
    fn parse_column_type(&mut self) -> (t: ColumnType)
        requires
            old(self).wf(),
        ensures
            final(self).wf(),
            ({
                let p = old(self).spec_pos();
                let here = p < old(self).spec_tokens().len();
                if old(self).at_kind(token_index(Token::Integer)) {
                    t == ColumnType::Integer && old(self).stepped(final(self), 1)
                } else if old(self).at_kind(token_index(Token::Real)) {
                    t == ColumnType::Real && old(self).stepped(final(self), 1)
                } else if old(self).at_kind(token_index(Token::Text)) {
                    t == ColumnType::Text && old(self).stepped(final(self), 1)
                } else if old(self).at_kind(token_index(Token::Blob)) {
                    t == ColumnType::Blob && old(self).stepped(final(self), 1)
                } else if old(self).at_kind(token_index(Token::Null)) {
                    t == ColumnType::Null && old(self).stepped(final(self), 1)
                } else if here && old(self).spec_tokens()[p].token is Ident {
                    t == type_named(ascii_lowercase(old(self).spec_tokens()[p].token->Ident_0@))
                        && old(self).stepped(final(self), 1)
                } else {
                    t == ColumnType::Numeric && old(self).stepped(final(self), 0)
                }
            }),
    {
        if self.match_token(index_of(&Token::Integer)) {
            return ColumnType::Integer;
        }
        if self.match_token(index_of(&Token::Real)) {
            return ColumnType::Real;
        }
        if self.match_token(index_of(&Token::Text)) {
            return ColumnType::Text;
        }
        if self.match_token(index_of(&Token::Blob)) {
            return ColumnType::Blob;
        }
        if self.match_token(index_of(&Token::Null)) {
            return ColumnType::Null;
        }
        if self.pos < self.tokens.len() {
            let lower = match &self.tokens[self.pos].token {
                Token::Ident(name) => Some(to_ascii_lowercase(name.as_str())),
                _ => None,
            };
            if let Some(w) = lower {
                self.advance();
                return type_of_name(&w);
            }
        }
        ColumnType::Numeric
    }

    /// Reads an expression.
    fn parse_expr(&mut self) -> (r: Result<Expr, ParseError>)
        requires
            old(self).wf(),
        ensures
            read_phrase(*old(self), *final(self), r),
            reads_expr(*old(self), *final(self), r, 0),
        decreases old(self).spec_tokens().len() - old(self).spec_pos(), 9int,
    {
        self.parse_or_expr()
    }

    /// Reads operands joined by OR, grouped from the left.
    fn parse_or_expr(&mut self) -> (r: Result<Expr, ParseError>)
        requires
            old(self).wf(),
        ensures
            read_phrase(*old(self), *final(self), r),
            reads_expr(*old(self), *final(self), r, 0),
        decreases old(self).spec_tokens().len() - old(self).spec_pos(), 8int,
    {
        let mut left = match self.parse_and_expr() {
            Ok(e) => e,
            Err(e) => return Err(e),
        };
        proof {
            if expr_form(left) {
                lemma_spells_looser(
                    left,
                    tokens_between(*old(self), old(self).spec_pos(), self.spec_pos()),
                    1,
                    0,
                );
            }
        }
        loop
            invariant
                self.wf(),
                old(self).moved_to(self),
                self.spec_pos() > old(self).spec_pos(),
                expr_form(left) ==> spells(
                    left,
                    tokens_between(*old(self), old(self).spec_pos(), self.spec_pos()),
                    0,
                ),
            decreases self.spec_tokens().len() - self.spec_pos(),
        {
            let ghost p0 = self.spec_pos();
            let op = if self.match_token(index_of(&Token::Or)) {
                BinaryOp::Or
            } else {
                break;
            };
            let ghost mid = *self;
            let right = match self.parse_and_expr() {
                Ok(e) => e,
                Err(e) => return Err(e),
            };
            proof {
                let t = tokens_between(*old(self), old(self).spec_pos(), self.spec_pos());
                let w = mid.spec_pos() - p0;
                assert(t[p0 - old(self).spec_pos()] == old(self).spec_tokens()[p0].token);
                assert(w == 2 ==> t[p0 + 1 - old(self).spec_pos()] == old(self).spec_tokens()[p0 + 1].token);
                assert(op_written(t, p0 - old(self).spec_pos(), w, op));
                if expr_form(left) && expr_form(right) {
                    assert(tokens_between(mid, mid.spec_pos(), self.spec_pos()) =~= tokens_between(
                        *old(self),
                        p0 + w,
                        self.spec_pos(),
                    ));
                    lemma_spells_binary(
                        *old(self),
                        old(self).spec_pos(),
                        p0,
                        w,
                        self.spec_pos(),
                        op,
                        left,
                        right,
                    );
                }
            }
            left = Expr::BinaryOp { op, left: Box::new(left), right: Box::new(right) };
        }
        Ok(left)
    }

    /// Reads operands joined by AND, grouped from the left.
    fn parse_and_expr(&mut self) -> (r: Result<Expr, ParseError>)
        requires
            old(self).wf(),
        ensures
            read_phrase(*old(self), *final(self), r),
            reads_expr(*old(self), *final(self), r, 1),
        decreases old(self).spec_tokens().len() - old(self).spec_pos(), 7int,
    {
        let mut left = match self.parse_not_expr() {
            Ok(e) => e,
            Err(e) => return Err(e),
        };
        proof {
            if expr_form(left) {
                lemma_spells_looser(
                    left,
                    tokens_between(*old(self), old(self).spec_pos(), self.spec_pos()),
                    2,
                    1,
                );
            }
        }
        loop
            invariant
                self.wf(),
                old(self).moved_to(self),
                self.spec_pos() > old(self).spec_pos(),
                expr_form(left) ==> spells(
                    left,
                    tokens_between(*old(self), old(self).spec_pos(), self.spec_pos()),
                    1,
                ),
            decreases self.spec_tokens().len() - self.spec_pos(),
        {
            let ghost p0 = self.spec_pos();
            let op = if self.match_token(index_of(&Token::And)) {
                BinaryOp::And
            } else {
                break;
            };
            let ghost mid = *self;
            let right = match self.parse_not_expr() {
                Ok(e) => e,
                Err(e) => return Err(e),
            };
            proof {
                let t = tokens_between(*old(self), old(self).spec_pos(), self.spec_pos());
                let w = mid.spec_pos() - p0;
                assert(t[p0 - old(self).spec_pos()] == old(self).spec_tokens()[p0].token);
                assert(w == 2 ==> t[p0 + 1 - old(self).spec_pos()] == old(self).spec_tokens()[p0 + 1].token);
                assert(op_written(t, p0 - old(self).spec_pos(), w, op));
                if expr_form(left) && expr_form(right) {
                    assert(tokens_between(mid, mid.spec_pos(), self.spec_pos()) =~= tokens_between(
                        *old(self),
                        p0 + w,
                        self.spec_pos(),
                    ));
                    lemma_spells_binary(
                        *old(self),
                        old(self).spec_pos(),
                        p0,
                        w,
                        self.spec_pos(),
                        op,
                        left,
                        right,
                    );
                }
            }
            left = Expr::BinaryOp { op, left: Box::new(left), right: Box::new(right) };
        }
        Ok(left)
    }

    /// Reads an operand with any number of NOTs before it.
    fn parse_not_expr(&mut self) -> (r: Result<Expr, ParseError>)
        requires
            old(self).wf(),
        ensures
            read_phrase(*old(self), *final(self), r),
            reads_expr(*old(self), *final(self), r, 2),
        decreases old(self).spec_tokens().len() - old(self).spec_pos(), 6int,
    {
        if self.match_token(index_of(&Token::Not)) {
            let ghost mid = *self;
            let expr = match self.parse_not_expr() {
                Ok(e) => e,
                Err(e) => return Err(e),
            };
            proof {
                let t = tokens_between(*old(self), old(self).spec_pos(), self.spec_pos());
                assert(t[0] == old(self).spec_tokens()[old(self).spec_pos()].token);
                assert(t.subrange(1, t.len() as int) =~= tokens_between(mid, mid.spec_pos(), self.spec_pos()));
            }
            return Ok(Expr::UnaryOp { op: UnaryOp::Not, expr: Box::new(expr) });
        }
        let r = self.parse_comparison_expr();
        proof {
            if r is Ok && expr_form(r->Ok_0) {
                lemma_spells_looser(
                    r->Ok_0,
                    tokens_between(*old(self), old(self).spec_pos(), self.spec_pos()),
                    3,
                    2,
                );
            }
        }
        r
    }

    /// Reads operands joined by comparisons (`=` or `==`, `!=` or `<>`,
    /// `<`, `<=`, `>`, `>=`, LIKE, IS, IS NOT), grouped from the left.
    fn parse_comparison_expr(&mut self) -> (r: Result<Expr, ParseError>)
        requires
            old(self).wf(),
        ensures
            read_phrase(*old(self), *final(self), r),
            reads_expr(*old(self), *final(self), r, 3),
        decreases old(self).spec_tokens().len() - old(self).spec_pos(), 5int,
    {
        let mut left = match self.parse_additive_expr() {
            Ok(e) => e,
            Err(e) => return Err(e),
        };
        proof {
            if expr_form(left) {
                lemma_spells_looser(
                    left,
                    tokens_between(*old(self), old(self).spec_pos(), self.spec_pos()),
                    4,
                    3,
                );
            }
        }
        loop
            invariant
                self.wf(),
                old(self).moved_to(self),
                self.spec_pos() > old(self).spec_pos(),
                expr_form(left) ==> spells(
                    left,
                    tokens_between(*old(self), old(self).spec_pos(), self.spec_pos()),
                    3,
                ),
            decreases self.spec_tokens().len() - self.spec_pos(),
        {
            let ghost p0 = self.spec_pos();
            let op = if self.match_token(index_of(&Token::Eq)) || self.match_token(
                index_of(&Token::EqEq),
            ) {
                BinaryOp::Eq
            } else if self.match_token(index_of(&Token::NotEq)) {
                BinaryOp::NotEq
            } else if self.match_token(index_of(&Token::Lt)) {
                BinaryOp::Lt
            } else if self.match_token(index_of(&Token::Le)) {
                BinaryOp::Le
            } else if self.match_token(index_of(&Token::Gt)) {
                BinaryOp::Gt
            } else if self.match_token(index_of(&Token::Ge)) {
                BinaryOp::Ge
            } else if self.match_token(index_of(&Token::Like)) {
                BinaryOp::Like
            } else if self.match_token(index_of(&Token::Is)) {
                if self.match_token(index_of(&Token::Not)) {
                    BinaryOp::IsNot
                } else {
                    BinaryOp::Is
                }
            } else {
                break;
            };
            let ghost mid = *self;
            let right = match self.parse_additive_expr() {
                Ok(e) => e,
                Err(e) => return Err(e),
            };
            proof {
                let t = tokens_between(*old(self), old(self).spec_pos(), self.spec_pos());
                let w = mid.spec_pos() - p0;
                assert(t[p0 - old(self).spec_pos()] == old(self).spec_tokens()[p0].token);
                assert(w == 2 ==> t[p0 + 1 - old(self).spec_pos()] == old(self).spec_tokens()[p0 + 1].token);
                assert(op_written(t, p0 - old(self).spec_pos(), w, op));
                if expr_form(left) && expr_form(right) {
                    assert(tokens_between(mid, mid.spec_pos(), self.spec_pos()) =~= tokens_between(
                        *old(self),
                        p0 + w,
                        self.spec_pos(),
                    ));
                    lemma_spells_binary(
                        *old(self),
                        old(self).spec_pos(),
                        p0,
                        w,
                        self.spec_pos(),
                        op,
                        left,
                        right,
                    );
                }
            }
            left = Expr::BinaryOp { op, left: Box::new(left), right: Box::new(right) };
        }
        Ok(left)
    }

    /// Reads operands joined by `+`, `-` and `||`, grouped from the left.
    fn parse_additive_expr(&mut self) -> (r: Result<Expr, ParseError>)
        requires
            old(self).wf(),
        ensures
            read_phrase(*old(self), *final(self), r),
            reads_expr(*old(self), *final(self), r, 4),
        decreases old(self).spec_tokens().len() - old(self).spec_pos(), 4int,
    {
        let mut left = match self.parse_multiplicative_expr() {
            Ok(e) => e,
            Err(e) => return Err(e),
        };
        proof {
            if expr_form(left) {
                lemma_spells_looser(
                    left,
                    tokens_between(*old(self), old(self).spec_pos(), self.spec_pos()),
                    5,
                    4,
                );
            }
        }
        loop
            invariant
                self.wf(),
                old(self).moved_to(self),
                self.spec_pos() > old(self).spec_pos(),
                expr_form(left) ==> spells(
                    left,
                    tokens_between(*old(self), old(self).spec_pos(), self.spec_pos()),
                    4,
                ),
            decreases self.spec_tokens().len() - self.spec_pos(),
        {
            let ghost p0 = self.spec_pos();
            let op = if self.match_token(index_of(&Token::Plus)) {
                BinaryOp::Add
            } else if self.match_token(index_of(&Token::Minus)) {
                BinaryOp::Sub
            } else if self.match_token(index_of(&Token::Concat)) {
                BinaryOp::Concat
            } else {
                break;
            };
            let ghost mid = *self;
            let right = match self.parse_multiplicative_expr() {
                Ok(e) => e,
                Err(e) => return Err(e),
            };
            proof {
                let t = tokens_between(*old(self), old(self).spec_pos(), self.spec_pos());
                let w = mid.spec_pos() - p0;
                assert(t[p0 - old(self).spec_pos()] == old(self).spec_tokens()[p0].token);
                assert(w == 2 ==> t[p0 + 1 - old(self).spec_pos()] == old(self).spec_tokens()[p0 + 1].token);
                assert(op_written(t, p0 - old(self).spec_pos(), w, op));
                if expr_form(left) && expr_form(right) {
                    assert(tokens_between(mid, mid.spec_pos(), self.spec_pos()) =~= tokens_between(
                        *old(self),
                        p0 + w,
                        self.spec_pos(),
                    ));
                    lemma_spells_binary(
                        *old(self),
                        old(self).spec_pos(),
                        p0,
                        w,
                        self.spec_pos(),
                        op,
                        left,
                        right,
                    );
                }
            }
            left = Expr::BinaryOp { op, left: Box::new(left), right: Box::new(right) };
        }
        Ok(left)
    }

    /// Reads operands joined by `*`, `/` and `%`, grouped from the left.
    fn parse_multiplicative_expr(&mut self) -> (r: Result<Expr, ParseError>)
        requires
            old(self).wf(),
        ensures
            read_phrase(*old(self), *final(self), r),
            reads_expr(*old(self), *final(self), r, 5),
        decreases old(self).spec_tokens().len() - old(self).spec_pos(), 3int,
    {
        let mut left = match self.parse_unary_expr() {
            Ok(e) => e,
            Err(e) => return Err(e),
        };
        proof {
            if expr_form(left) {
                lemma_spells_looser(
                    left,
                    tokens_between(*old(self), old(self).spec_pos(), self.spec_pos()),
                    6,
                    5,
                );
            }
        }
        loop
            invariant
                self.wf(),
                old(self).moved_to(self),
                self.spec_pos() > old(self).spec_pos(),
                expr_form(left) ==> spells(
                    left,
                    tokens_between(*old(self), old(self).spec_pos(), self.spec_pos()),
                    5,
                ),
            decreases self.spec_tokens().len() - self.spec_pos(),
        {
            let ghost p0 = self.spec_pos();
            let op = if self.match_token(index_of(&Token::Star)) {
                BinaryOp::Mul
            } else if self.match_token(index_of(&Token::Slash)) {
                BinaryOp::Div
            } else if self.match_token(index_of(&Token::Percent)) {
                BinaryOp::Mod
            } else {
                break;
            };
            let ghost mid = *self;
            let right = match self.parse_unary_expr() {
                Ok(e) => e,
                Err(e) => return Err(e),
            };
            proof {
                let t = tokens_between(*old(self), old(self).spec_pos(), self.spec_pos());
                let w = mid.spec_pos() - p0;
                assert(t[p0 - old(self).spec_pos()] == old(self).spec_tokens()[p0].token);
                assert(w == 2 ==> t[p0 + 1 - old(self).spec_pos()] == old(self).spec_tokens()[p0 + 1].token);
                assert(op_written(t, p0 - old(self).spec_pos(), w, op));
                if expr_form(left) && expr_form(right) {
                    assert(tokens_between(mid, mid.spec_pos(), self.spec_pos()) =~= tokens_between(
                        *old(self),
                        p0 + w,
                        self.spec_pos(),
                    ));
                    lemma_spells_binary(
                        *old(self),
                        old(self).spec_pos(),
                        p0,
                        w,
                        self.spec_pos(),
                        op,
                        left,
                        right,
                    );
                }
            }
            left = Expr::BinaryOp { op, left: Box::new(left), right: Box::new(right) };
        }
        Ok(left)
    }

    /// Reads an operand with any number of signs before it; a `+` is
    /// dropped.
    fn parse_unary_expr(&mut self) -> (r: Result<Expr, ParseError>)
        requires
            old(self).wf(),
        ensures
            read_phrase(*old(self), *final(self), r),
            reads_expr(*old(self), *final(self), r, 6),
        decreases old(self).spec_tokens().len() - old(self).spec_pos(), 2int,
    {
        if self.match_token(index_of(&Token::Minus)) {
            let ghost mid = *self;
            let expr = match self.parse_unary_expr() {
                Ok(e) => e,
                Err(e) => return Err(e),
            };
            proof {
                let t = tokens_between(*old(self), old(self).spec_pos(), self.spec_pos());
                assert(t[0] == old(self).spec_tokens()[old(self).spec_pos()].token);
                assert(t.subrange(1, t.len() as int) =~= tokens_between(mid, mid.spec_pos(), self.spec_pos()));
            }
            return Ok(Expr::UnaryOp { op: UnaryOp::Minus, expr: Box::new(expr) });
        }
        if self.match_token(index_of(&Token::Plus)) {
            let ghost mid = *self;
            let r = self.parse_unary_expr();
            proof {
                let t = tokens_between(*old(self), old(self).spec_pos(), self.spec_pos());
                assert(t[0] == old(self).spec_tokens()[old(self).spec_pos()].token);
                assert(t.subrange(1, t.len() as int) =~= tokens_between(mid, mid.spec_pos(), self.spec_pos()));
            }
            return r;
        }
        self.parse_primary_expr()
    }

    /// Reads expressions separated by commas, up to the first that no comma
    /// follows.
    fn parse_expr_list(&mut self) -> (r: Result<Vec<Expr>, ParseError>)
        requires
            old(self).wf(),
        ensures
            read_phrase(*old(self), *final(self), r),
            r matches Ok(v) ==> v@.len() >= 1,
        decreases old(self).spec_tokens().len() - old(self).spec_pos(), 10int,
    {
        let mut items: Vec<Expr> = Vec::new();
        loop
            invariant
                self.wf(),
                old(self).moved_to(self),
                items@.len() > 0 ==> self.spec_pos() > old(self).spec_pos(),
            ensures
                self.wf(),
                old(self).moved_to(self),
                items@.len() > 0,
                self.spec_pos() > old(self).spec_pos(),
            decreases self.spec_tokens().len() - self.spec_pos(),
        {
            let e = match self.parse_expr() {
                Ok(e) => e,
                Err(e) => return Err(e),
            };
            items.push(e);
            if !self.match_token(index_of(&Token::Comma)) {
                break;
            }
        }
        Ok(items)
    }

    /// Reads a primary expression: NULL, a literal, `*`, an expression or
    /// a subquery in parentheses, COUNT(..), a function call, a qualified
    /// or a bare identifier.
    fn parse_primary_expr(&mut self) -> (r: Result<Expr, ParseError>)
        requires
            old(self).wf(),
        ensures
            read_phrase(*old(self), *final(self), r),
            old(self).at_kind(token_index(Token::Null)) ==> r matches Ok(Expr::Null),
            old(self).spec_pos() < old(self).spec_tokens().len() ==> match old(
                self,
            ).spec_tokens()[old(self).spec_pos()].token {
                Token::IntegerLit(n) => r matches Ok(Expr::Integer(v)) && v == n,
                Token::RealLit(b) => r matches Ok(Expr::Real(v)) && v == b,
                Token::StringLit(x) => r matches Ok(Expr::String(v)) && v@ == x@,
                Token::BlobLit(x) => r matches Ok(Expr::Blob(v)) && v@ == x@,
                Token::Star => r matches Ok(Expr::Star),
                _ => true,
            },
            reads_expr(*old(self), *final(self), r, 6),
        decreases old(self).spec_tokens().len() - old(self).spec_pos(), 1int,
    {
        if self.match_token(index_of(&Token::Null)) {
            assert(tokens_between(*old(self), old(self).spec_pos(), self.spec_pos()) =~= seq![
                old(self).spec_tokens()[old(self).spec_pos()].token,
            ]);
            return Ok(Expr::Null);
        }
        if self.pos >= self.tokens.len() {
            return Err(self.error("expected expression"));
        }
        let k = index_of(&self.tokens[self.pos].token);
        let literal = match &self.tokens[self.pos].token {
            Token::IntegerLit(n) => Some(Expr::Integer(*n)),
            Token::RealLit(b) => Some(Expr::Real(*b)),
            Token::StringLit(x) => Some(Expr::String(string_of(chars_of(x.as_str()).as_slice()))),
            Token::BlobLit(b) => Some(Expr::Blob(vstd::slice::slice_to_vec(b.as_slice()))),
            Token::Star => Some(Expr::Star),
            _ => None,
        };
        if let Some(e) = literal {
            self.advance();
            assert(tokens_between(*old(self), old(self).spec_pos(), self.spec_pos()) =~= seq![
                old(self).spec_tokens()[old(self).spec_pos()].token,
            ]);
            return Ok(e);
        }
        if k == index_of(&Token::LParen) {
            self.advance();
            if self.match_token(index_of(&Token::Select)) {
                let select = match self.parse_select() {
                    Ok(s) => s,
                    Err(e) => return Err(e),
                };
                match self.expect(index_of(&Token::RParen)) {
                    Ok(()) => {},
                    Err(e) => return Err(e),
                }
                proof {
                    let t = tokens_between(*old(self), old(self).spec_pos(), self.spec_pos());
                    assert(t[0] == old(self).spec_tokens()[old(self).spec_pos()].token);
                    assert(t[1] == old(self).spec_tokens()[old(self).spec_pos() + 1].token);
                }
                return Ok(Expr::Ident(subquery_text(&select)));
            }
            let ghost inner = *self;
            let expr = match self.parse_expr() {
                Ok(e) => e,
                Err(e) => return Err(e),
            };
            let ghost q = self.spec_pos();
            match self.expect(index_of(&Token::RParen)) {
                Ok(()) => {},
                Err(e) => return Err(e),
            }
            proof {
                let t = tokens_between(*old(self), old(self).spec_pos(), self.spec_pos());
                assert(t[0] == old(self).spec_tokens()[old(self).spec_pos()].token);
                assert(t[t.len() - 1] == old(self).spec_tokens()[q].token);
                assert(t.subrange(1, t.len() - 1) =~= tokens_between(inner, inner.spec_pos(), q));
            }
            return Ok(expr);
        }
        if k == index_of(&Token::Count) {
            self.advance();
            match self.expect(index_of(&Token::LParen)) {
                Ok(()) => {},
                Err(e) => return Err(e),
            }
            let distinct = self.match_token(index_of(&Token::Distinct));
            let args = if self.match_token(index_of(&Token::Star)) {
                vec![Expr::Star]
            } else {
                match self.parse_expr_list() {
                    Ok(v) => v,
                    Err(e) => return Err(e),
                }
            };
            match self.expect(index_of(&Token::RParen)) {
                Ok(()) => {},
                Err(e) => return Err(e),
            }
            return Ok(
                Expr::Function { name: string_of(chars_of("count").as_slice()), distinct, args },
            );
        }
        if self.check_ident() {
            let name = match self.parse_ident() {
                Ok(n) => n,
                Err(e) => return Err(e),
            };
            if self.match_token(index_of(&Token::LParen)) {
                let args = if !self.check(index_of(&Token::RParen)) {
                    match self.parse_expr_list() {
                        Ok(v) => v,
                        Err(e) => return Err(e),
                    }
                } else {
                    Vec::new()
                };
                match self.expect(index_of(&Token::RParen)) {
                    Ok(()) => {},
                    Err(e) => return Err(e),
                }
                return Ok(Expr::Function { name, distinct: false, args });
            }
            if self.match_token(index_of(&Token::Dot)) {
                let column = match self.parse_ident() {
                    Ok(n) => n,
                    Err(e) => return Err(e),
                };
                proof {
                    let t = tokens_between(*old(self), old(self).spec_pos(), self.spec_pos());
                    assert(t[0] == old(self).spec_tokens()[old(self).spec_pos()].token);
                    assert(t[1] == old(self).spec_tokens()[old(self).spec_pos() + 1].token);
                    assert(t[2] == old(self).spec_tokens()[old(self).spec_pos() + 2].token);
                }
                return Ok(Expr::QualifiedIdent { table: name, column });
            }
            assert(tokens_between(*old(self), old(self).spec_pos(), self.spec_pos()) =~= seq![
                old(self).spec_tokens()[old(self).spec_pos()].token,
            ]);
            return Ok(Expr::Ident(name));
        }
        Err(self.error("expected expression"))
    }

    /// Reads the result columns of a SELECT: `*`, or expressions each with
    /// an optional `AS alias`, separated by commas.
    fn parse_result_columns(&mut self) -> (r: Result<Vec<ResultColumn>, ParseError>)
        requires
            old(self).wf(),
        ensures
            read_phrase(*old(self), *final(self), r),
        decreases old(self).spec_tokens().len() - old(self).spec_pos(), 11int,
    {
        let mut cols: Vec<ResultColumn> = Vec::new();
        if self.match_token(index_of(&Token::Star)) {
            cols.push(ResultColumn { expr: Expr::Star, alias: None });
            return Ok(cols);
        }
        loop
            invariant
                self.wf(),
                old(self).moved_to(self),
                cols@.len() > 0 ==> self.spec_pos() > old(self).spec_pos(),
            ensures
                self.wf(),
                old(self).moved_to(self),
                self.spec_pos() > old(self).spec_pos(),
            decreases self.spec_tokens().len() - self.spec_pos(),
        {
            let expr = match self.parse_expr() {
                Ok(e) => e,
                Err(e) => return Err(e),
            };
            let alias = if self.match_token(index_of(&Token::As)) {
                match self.parse_ident() {
                    Ok(n) => Some(n),
                    Err(e) => return Err(e),
                }
            } else {
                None
            };
            cols.push(ResultColumn { expr, alias });
            if !self.match_token(index_of(&Token::Comma)) {
                break;
            }
        }
        Ok(cols)
    }

    /// Reads an optional alias after a table name: an identifier that is
    /// not a keyword ending the name.
    fn parse_alias(&mut self) -> (r: Result<Option<String>, ParseError>)
        requires
            old(self).wf(),
        ensures
            final(self).wf(),
            old(self).moved_to(final(self)),
            r matches Err(e) ==> fails_at(e, *final(self)),
            ({
                let p = old(self).spec_pos();
                if p < old(self).spec_tokens().len() && is_ident_kind(old(self).kind_at(p)) {
                    (r matches Ok(Some(n)) && n@ == ident_name(old(self).spec_tokens()[p].token))
                        && old(self).stepped(final(self), 1)
                } else {
                    (r matches Ok(None)) && old(self).stepped(final(self), 0)
                }
            }),
    {
        if self.check_ident() && !self.is_join_keyword() {
            match self.parse_ident() {
                Ok(n) => Ok(Some(n)),
                Err(e) => Err(e),
            }
        } else {
            Ok(None)
        }
    }

    /// Reads the FROM clause: a table with an optional alias, then any
    /// number of joins, each with an optional ON condition.
    fn parse_table_ref(&mut self) -> (r: Result<TableRef, ParseError>)
        requires
            old(self).wf(),
        ensures
            read_phrase(*old(self), *final(self), r),
        decreases old(self).spec_tokens().len() - old(self).spec_pos(), 11int,
    {
        let name = match self.parse_ident() {
            Ok(n) => n,
            Err(e) => return Err(e),
        };
        let alias = match self.parse_alias() {
            Ok(a) => a,
            Err(e) => return Err(e),
        };
        let mut left = TableRef::Table { name, alias };
        while self.at_join()
            invariant
                self.wf(),
                old(self).moved_to(self),
                self.spec_pos() > old(self).spec_pos(),
            decreases self.spec_tokens().len() - self.spec_pos(),
        {
            let join_type = self.parse_join_type();
            match self.expect(index_of(&Token::Join)) {
                Ok(()) => {},
                Err(e) => return Err(e),
            }
            let right_name = match self.parse_ident() {
                Ok(n) => n,
                Err(e) => return Err(e),
            };
            let right_alias = match self.parse_alias() {
                Ok(a) => a,
                Err(e) => return Err(e),
            };
            let on = if self.match_token(index_of(&Token::On)) {
                match self.parse_expr() {
                    Ok(e) => Some(e),
                    Err(e) => return Err(e),
                }
            } else {
                None
            };
            left = TableRef::Join {
                left: Box::new(left),
                right: Box::new(TableRef::Table { name: right_name, alias: right_alias }),
                join_type,
                on,
            };
        }
        Ok(left)
    }

    /// Reads an optional clause that is a keyword and an expression.
    fn parse_optional_expr(&mut self, keyword: usize) -> (r: Result<Option<Expr>, ParseError>)
        requires
            old(self).wf(),
        ensures
            final(self).wf(),
            old(self).moved_to(final(self)),
            r matches Err(e) ==> fails_at(e, *final(self)),
            !old(self).at_kind(keyword as int) ==> (r matches Ok(None)) && old(self).stepped(
                final(self),
                0,
            ),
            old(self).at_kind(keyword as int) ==> !(r matches Ok(None)) && (r is Ok ==> final(self).spec_pos() >= old(self).spec_pos() + 2),
        decreases old(self).spec_tokens().len() - old(self).spec_pos(), 10int,
    {
        if self.match_token(keyword) {
            match self.parse_expr() {
                Ok(e) => Ok(Some(e)),
                Err(e) => Err(e),
            }
        } else {
            Ok(None)
        }
    }

    /// Reads the rest of a SELECT after its keyword: DISTINCT, the result
    /// columns, then FROM, WHERE, GROUP BY, HAVING, ORDER BY (each term ASC
    /// or DESC), LIMIT and OFFSET (or a comma), each when it is there.
    fn parse_select(&mut self) -> (r: Result<Select, ParseError>)
        requires
            old(self).wf(),
        ensures
            read_phrase(*old(self), *final(self), r),
        decreases old(self).spec_tokens().len() - old(self).spec_pos(), 12int,
    {
        let distinct = self.match_token(index_of(&Token::Distinct));
        let columns = match self.parse_result_columns() {
            Ok(c) => c,
            Err(e) => return Err(e),
        };
        let from = if self.match_token(index_of(&Token::From)) {
            match self.parse_table_ref() {
                Ok(t) => Some(t),
                Err(e) => return Err(e),
            }
        } else {
            None
        };
        let where_clause = match self.parse_optional_expr(index_of(&Token::Where)) {
            Ok(w) => w,
            Err(e) => return Err(e),
        };
        let mut group_by: Vec<Expr> = Vec::new();
        if self.match_token(index_of(&Token::Group)) {
            match self.expect(index_of(&Token::By)) {
                Ok(()) => {},
                Err(e) => return Err(e),
            }
            group_by = match self.parse_expr_list() {
                Ok(v) => v,
                Err(e) => return Err(e),
            };
        }
        let having = match self.parse_optional_expr(index_of(&Token::Having)) {
            Ok(h) => h,
            Err(e) => return Err(e),
        };
        let mut order_by: Vec<OrderTerm> = Vec::new();
        if self.match_token(index_of(&Token::Order)) {
            match self.expect(index_of(&Token::By)) {
                Ok(()) => {},
                Err(e) => return Err(e),
            }
            loop
                invariant
                    self.wf(),
                    old(self).moved_to(self),
                    self.spec_pos() > old(self).spec_pos(),
                decreases self.spec_tokens().len() - self.spec_pos(),
            {
                let expr = match self.parse_expr() {
                    Ok(e) => e,
                    Err(e) => return Err(e),
                };
                let desc = self.match_token(index_of(&Token::Desc));
                if !desc {
                    let _ = self.match_token(index_of(&Token::Asc));
                }
                order_by.push(OrderTerm { expr, desc });
                if !self.match_token(index_of(&Token::Comma)) {
                    break;
                }
            }
        }
        let limit = match self.parse_optional_expr(index_of(&Token::Limit)) {
            Ok(l) => l,
            Err(e) => return Err(e),
        };
        let offset = if self.match_token(index_of(&Token::Comma)) || self.match_token(
            index_of(&Token::Offset),
        ) {
            let _ = self.match_token(index_of(&Token::Offset));
            match self.parse_expr() {
                Ok(e) => Some(e),
                Err(e) => return Err(e),
            }
        } else {
            None
        };
        Ok(
            Select {
                distinct,
                columns,
                from,
                where_clause,
                group_by,
                having,
                order_by,
                limit,
                offset,
            },
        )
    }

    /// Reads identifiers separated by commas.
    fn parse_ident_list(&mut self) -> (r: Result<Vec<String>, ParseError>)
        requires
            old(self).wf(),
        ensures
            read_phrase(*old(self), *final(self), r),
            r matches Ok(v) ==> v@.len() >= 1,
    {
        let mut names: Vec<String> = Vec::new();
        loop
            invariant
                self.wf(),
                old(self).moved_to(self),
                names@.len() > 0 ==> self.spec_pos() > old(self).spec_pos(),
            ensures
                self.wf(),
                old(self).moved_to(self),
                names@.len() > 0,
                self.spec_pos() > old(self).spec_pos(),
            decreases self.spec_tokens().len() - self.spec_pos(),
        {
            let n = match self.parse_ident() {
                Ok(n) => n,
                Err(e) => return Err(e),
            };
            names.push(n);
            if !self.match_token(index_of(&Token::Comma)) {
                break;
            }
        }
        Ok(names)
    }

    /// Reads the rest of an INSERT after its keyword: an optional OR
    /// action, INTO, the table, optional columns in parentheses, VALUES and
    /// rows of expressions in parentheses separated by commas.
    fn parse_insert(&mut self) -> (r: Result<Insert, ParseError>)
        requires
            old(self).wf(),
        ensures
            read_phrase(*old(self), *final(self), r),
    {
        let or_conflict = self.parse_or_conflict();
        match self.expect(index_of(&Token::Into)) {
            Ok(()) => {},
            Err(e) => return Err(e),
        }
        let table = match self.parse_ident() {
            Ok(n) => n,
            Err(e) => return Err(e),
        };
        let mut columns: Vec<String> = Vec::new();
        if self.match_token(index_of(&Token::LParen)) {
            columns = match self.parse_ident_list() {
                Ok(v) => v,
                Err(e) => return Err(e),
            };
            match self.expect(index_of(&Token::RParen)) {
                Ok(()) => {},
                Err(e) => return Err(e),
            }
        }
        match self.expect(index_of(&Token::Values)) {
            Ok(()) => {},
            Err(e) => return Err(e),
        }
        let mut values: Vec<Vec<Expr>> = Vec::new();
        loop
            invariant
                self.wf(),
                old(self).moved_to(self),
                self.spec_pos() > old(self).spec_pos(),
            decreases self.spec_tokens().len() - self.spec_pos(),
        {
            match self.expect(index_of(&Token::LParen)) {
                Ok(()) => {},
                Err(e) => return Err(e),
            }
            let row = match self.parse_expr_list() {
                Ok(v) => v,
                Err(e) => return Err(e),
            };
            match self.expect(index_of(&Token::RParen)) {
                Ok(()) => {},
                Err(e) => return Err(e),
            }
            values.push(row);
            if !self.match_token(index_of(&Token::Comma)) {
                break;
            }
        }
        Ok(Insert { or_conflict, table, columns, values, select: None })
    }

    /// Reads the rest of an UPDATE after its keyword: the table, SET,
    /// `column = expression` pairs separated by commas, and an optional
    /// WHERE.
    fn parse_update(&mut self) -> (r: Result<Update, ParseError>)
        requires
            old(self).wf(),
        ensures
            read_phrase(*old(self), *final(self), r),
    {
        let table = match self.parse_ident() {
            Ok(n) => n,
            Err(e) => return Err(e),
        };
        match self.expect(index_of(&Token::SetKw)) {
            Ok(()) => {},
            Err(e) => return Err(e),
        }
        let mut assignments: Vec<(String, Expr)> = Vec::new();
        loop
            invariant
                self.wf(),
                old(self).moved_to(self),
                self.spec_pos() > old(self).spec_pos(),
            decreases self.spec_tokens().len() - self.spec_pos(),
        {
            let col = match self.parse_ident() {
                Ok(n) => n,
                Err(e) => return Err(e),
            };
            match self.expect(index_of(&Token::Eq)) {
                Ok(()) => {},
                Err(e) => return Err(e),
            }
            let val = match self.parse_expr() {
                Ok(e) => e,
                Err(e) => return Err(e),
            };
            assignments.push((col, val));
            if !self.match_token(index_of(&Token::Comma)) {
                break;
            }
        }
        let where_clause = match self.parse_optional_expr(index_of(&Token::Where)) {
            Ok(w) => w,
            Err(e) => return Err(e),
        };
        Ok(Update { table, assignments, where_clause })
    }

    /// Reads the rest of a DELETE after its keyword: FROM, the table and
    /// an optional WHERE.
    fn parse_delete(&mut self) -> (r: Result<Delete, ParseError>)
        requires
            old(self).wf(),
        ensures
            read_phrase(*old(self), *final(self), r),
    {
        match self.expect(index_of(&Token::From)) {
            Ok(()) => {},
            Err(e) => return Err(e),
        }
        let table = match self.parse_ident() {
            Ok(n) => n,
            Err(e) => return Err(e),
        };
        let where_clause = match self.parse_optional_expr(index_of(&Token::Where)) {
            Ok(w) => w,
            Err(e) => return Err(e),
        };
        Ok(Delete { table, where_clause })
    }

    /// Reads `IF NOT EXISTS` when it is there: whether it was.
    fn parse_if_not_exists(&mut self) -> (r: Result<bool, ParseError>)
        requires
            old(self).wf(),
        ensures
            final(self).wf(),
            old(self).moved_to(final(self)),
            r matches Err(e) ==> fails_at(e, *final(self)),
            r == Ok::<bool, ParseError>(false) ==> old(self).stepped(final(self), 0),
            !old(self).at_kind(token_index(Token::If)) ==> r == Ok::<bool, ParseError>(false),
            r == Ok::<bool, ParseError>(true) ==> old(self).stepped(final(self), 3),
            ({
                let p = old(self).spec_pos();
                let n = old(self).spec_tokens().len();
                let not_next = p + 1 < n && old(self).kind_at(p + 1) == token_index(Token::Not);
                let exists_next = p + 2 < n && old(self).kind_at(p + 2) == token_index(
                    Token::Exists,
                );
                &&& old(self).at_kind(token_index(Token::If)) && not_next && exists_next ==> r
                    == Ok::<bool, ParseError>(true)
                &&& old(self).at_kind(token_index(Token::If)) && !not_next ==> (r matches Err(e)
                    && syntax_error(e, final(self).found(), expect_message(token_index(Token::Not)))
                    && old(self).stepped(final(self), 1))
                &&& old(self).at_kind(token_index(Token::If)) && not_next && !exists_next ==> (
                r matches Err(e) && syntax_error(
                    e,
                    final(self).found(),
                    expect_message(token_index(Token::Exists)),
                ) && old(self).stepped(final(self), 2))
            }),
    {
        if self.match_token(index_of(&Token::If)) {
            match self.expect(index_of(&Token::Not)) {
                Ok(()) => {},
                Err(e) => return Err(e),
            }
            match self.expect(index_of(&Token::Exists)) {
                Ok(()) => {},
                Err(e) => return Err(e),
            }
            Ok(true)
        } else {
            Ok(false)
        }
    }

    /// Reads the rest of a CREATE INDEX after INDEX: `IF NOT EXISTS`
    /// optionally, the name, ON, the table and its columns in parentheses.
    fn parse_create_index(&mut self, unique: bool) -> (r: Result<CreateIndex, ParseError>)
        requires
            old(self).wf(),
        ensures
            read_phrase(*old(self), *final(self), r),
            r matches Ok(c) ==> c.unique == unique && c.columns@.len() >= 1,
    {
        let if_not_exists = match self.parse_if_not_exists() {
            Ok(b) => b,
            Err(e) => return Err(e),
        };
        let name = match self.parse_ident() {
            Ok(n) => n,
            Err(e) => return Err(e),
        };
        match self.expect(index_of(&Token::On)) {
            Ok(()) => {},
            Err(e) => return Err(e),
        }
        let table = match self.parse_ident() {
            Ok(n) => n,
            Err(e) => return Err(e),
        };
        match self.expect(index_of(&Token::LParen)) {
            Ok(()) => {},
            Err(e) => return Err(e),
        }
        let columns = match self.parse_ident_list() {
            Ok(v) => v,
            Err(e) => return Err(e),
        };
        match self.expect(index_of(&Token::RParen)) {
            Ok(()) => {},
            Err(e) => return Err(e),
        }
        Ok(CreateIndex { if_not_exists, unique, name, table, columns })
    }

    /// Reads a column definition: the name, the type, then PRIMARY KEY
    /// (with AUTOINCREMENT) any number of times, NOT NULL, UNIQUE and
    /// DEFAULT with an expression, each once at most and in that order.
    fn parse_column_def(&mut self) -> (r: Result<ColumnDef, ParseError>)
        requires
            old(self).wf(),
        ensures
            read_phrase(*old(self), *final(self), r),
    {
        let name = match self.parse_ident() {
            Ok(n) => n,
            Err(e) => return Err(e),
        };
        let col_type = self.parse_column_type();
        let mut constraints: Vec<ColumnConstraint> = Vec::new();
        while self.match_token(index_of(&Token::Primary))
            invariant
                self.wf(),
                old(self).moved_to(self),
                self.spec_pos() > old(self).spec_pos(),
            decreases self.spec_tokens().len() - self.spec_pos(),
        {
            match self.expect(index_of(&Token::Key)) {
                Ok(()) => {},
                Err(e) => return Err(e),
            }
            let autoincrement = self.match_token(index_of(&Token::Autoincrement));
            constraints.push(ColumnConstraint::PrimaryKey { autoincrement });
        }
        if self.match_token(index_of(&Token::Not)) {
            match self.expect(index_of(&Token::Null)) {
                Ok(()) => {},
                Err(e) => return Err(e),
            }
            constraints.push(ColumnConstraint::NotNull);
        }
        if self.match_token(index_of(&Token::Unique)) {
            constraints.push(ColumnConstraint::Unique);
        }
        if self.match_token(index_of(&Token::Default)) {
            match self.parse_expr() {
                Ok(e) => constraints.push(ColumnConstraint::Default(e)),
                Err(e) => return Err(e),
            }
        }
        Ok(ColumnDef { name, col_type, constraints })
    }

    /// Reads the rest of a CREATE TABLE after TABLE: `IF NOT EXISTS`
    /// optionally, the name and column definitions in parentheses.
    fn parse_create_table(&mut self) -> (r: Result<CreateTable, ParseError>)
        requires
            old(self).wf(),
        ensures
            read_phrase(*old(self), *final(self), r),
            r matches Ok(c) ==> !c.temp && c.columns@.len() >= 1,
    {
        let if_not_exists = match self.parse_if_not_exists() {
            Ok(b) => b,
            Err(e) => return Err(e),
        };
        let name = match self.parse_ident() {
            Ok(n) => n,
            Err(e) => return Err(e),
        };
        match self.expect(index_of(&Token::LParen)) {
            Ok(()) => {},
            Err(e) => return Err(e),
        }
        let mut columns: Vec<ColumnDef> = Vec::new();
        loop
            invariant
                self.wf(),
                old(self).moved_to(self),
                self.spec_pos() > old(self).spec_pos(),
            ensures
                self.wf(),
                old(self).moved_to(self),
                self.spec_pos() > old(self).spec_pos(),
                columns@.len() >= 1,
            decreases self.spec_tokens().len() - self.spec_pos(),
        {
            match self.parse_column_def() {
                Ok(c) => columns.push(c),
                Err(e) => return Err(e),
            }
            if !self.match_token(index_of(&Token::Comma)) {
                break;
            }
        }
        assert(columns@.len() >= 1);
        match self.expect(index_of(&Token::RParen)) {
            Ok(()) => {},
            Err(e) => return Err(e),
        }
        Ok(CreateTable { if_not_exists, name, columns, temp: false })
    }

    /// Reads the rest of a DROP TABLE after TABLE: `IF EXISTS` optionally
    /// and the name.
    fn parse_drop_table(&mut self) -> (r: Result<DropTable, ParseError>)
        requires
            old(self).wf(),
        ensures
            read_phrase(*old(self), *final(self), r),
            ({
                let p = old(self).spec_pos();
                let t = old(self).spec_tokens();
                &&& old(self).at_kind(token_index(Token::If)) ==> (r matches Ok(d) ==> d.if_exists
                    && p + 2 < t.len() && old(self).kind_at(p + 1) == token_index(Token::Exists)
                    && d.name@ == ident_name(t[p + 2].token))
                &&& !old(self).at_kind(token_index(Token::If)) ==> (r matches Ok(d) ==> !d.if_exists
                    && d.name@ == ident_name(t[p].token))
                &&& (p + 1 < t.len() && old(self).kind_at(p) == token_index(Token::If) && old(
                    self,
                ).kind_at(p + 1) == token_index(Token::Exists) && p + 2 < t.len() && is_ident_kind(
                    old(self).kind_at(p + 2),
                )) ==> r is Ok && old(self).stepped(final(self), 3)
                &&& (p < t.len() && is_ident_kind(old(self).kind_at(p))) ==> r is Ok && old(
                    self,
                ).stepped(final(self), 1)
            }),
    {
        let if_exists = if self.match_token(index_of(&Token::If)) {
            match self.expect(index_of(&Token::Exists)) {
                Ok(()) => {},
                Err(e) => return Err(e),
            }
            true
        } else {
            false
        };
        let name = match self.parse_ident() {
            Ok(n) => n,
            Err(e) => return Err(e),
        };
        Ok(DropTable { if_exists, name })
    }

    /// Reads the rest of a PRAGMA after its keyword: the name, then `=`
    /// and a value, or a value in parentheses, when there is one.
    fn parse_pragma(&mut self) -> (r: Result<Pragma, ParseError>)
        requires
            old(self).wf(),
        ensures
            read_phrase(*old(self), *final(self), r),
            r matches Ok(p) ==> p.name@ == ident_name(old(self).spec_tokens()[old(
                self,
            ).spec_pos()].token),
    {
        let name = match self.parse_ident() {
            Ok(n) => n,
            Err(e) => return Err(e),
        };
        let value = if self.match_token(index_of(&Token::Eq)) {
            match self.parse_expr() {
                Ok(e) => Some(e),
                Err(e) => return Err(e),
            }
        } else if self.match_token(index_of(&Token::LParen)) {
            let arg = match self.parse_expr() {
                Ok(e) => e,
                Err(e) => return Err(e),
            };
            match self.expect(index_of(&Token::RParen)) {
                Ok(()) => {},
                Err(e) => return Err(e),
            }
            Some(arg)
        } else {
            None
        };
        Ok(Pragma { name, value })
    }

    /// Reads one statement, chosen by its first token: SELECT, INSERT,
    /// UPDATE, DELETE, CREATE [UNIQUE] INDEX, CREATE TABLE, DROP TABLE,
    /// PRAGMA, BEGIN, COMMIT or ROLLBACK. Any other start fails with
    /// "syntax error" naming the token there.
    pub fn parse_statement(&mut self) -> (r: Result<Statement, ParseError>)
        requires
            old(self).wf(),
        ensures
            read_phrase(*old(self), *final(self), r),
            ({
                let o = *old(self);
                &&& o.at_kind(token_index(Token::Begin)) ==> (r matches Ok(Statement::Begin))
                    && o.stepped(final(self), 1)
                &&& o.at_kind(token_index(Token::Commit)) ==> (r matches Ok(Statement::Commit))
                    && o.stepped(final(self), 1)
                &&& o.at_kind(token_index(Token::Rollback)) ==> (r matches Ok(Statement::Rollback))
                    && o.stepped(final(self), 1)
                &&& r matches Ok(Statement::Select(_)) ==> o.at_kind(token_index(Token::Select))
                &&& r matches Ok(Statement::Insert(_)) ==> o.at_kind(token_index(Token::Insert))
                &&& r matches Ok(Statement::Update(_)) ==> o.at_kind(token_index(Token::Update))
                &&& r matches Ok(Statement::Delete(_)) ==> o.at_kind(token_index(Token::Delete))
                &&& r matches Ok(Statement::CreateTable(_)) ==> o.at_kind(
                    token_index(Token::Create),
                )
                &&& r matches Ok(Statement::CreateIndex(_)) ==> o.at_kind(
                    token_index(Token::Create),
                )
                &&& r matches Ok(Statement::DropTable(_)) ==> o.at_kind(token_index(Token::Drop))
                &&& r matches Ok(Statement::Pragma(_)) ==> o.at_kind(token_index(Token::Pragma))
                &&& !statement_start(o) ==> (r matches Err(e) && syntax_error(
                    e,
                    o.found(),
                    "syntax error"@,
                )) && o.stepped(final(self), 0)
            }),
    {
        if self.match_token(index_of(&Token::Select)) {
            return match self.parse_select() {
                Ok(s) => Ok(Statement::Select(s)),
                Err(e) => Err(e),
            };
        }
        if self.match_token(index_of(&Token::Insert)) {
            return match self.parse_insert() {
                Ok(s) => Ok(Statement::Insert(s)),
                Err(e) => Err(e),
            };
        }
        if self.match_token(index_of(&Token::Update)) {
            return match self.parse_update() {
                Ok(s) => Ok(Statement::Update(s)),
                Err(e) => Err(e),
            };
        }
        if self.match_token(index_of(&Token::Delete)) {
            return match self.parse_delete() {
                Ok(s) => Ok(Statement::Delete(s)),
                Err(e) => Err(e),
            };
        }
        if self.match_token(index_of(&Token::Create)) {
            let unique = self.match_token(index_of(&Token::Unique));
            if self.match_token(index_of(&Token::Index)) {
                return match self.parse_create_index(unique) {
                    Ok(s) => Ok(Statement::CreateIndex(s)),
                    Err(e) => Err(e),
                };
            }
            match self.expect(index_of(&Token::Table)) {
                Ok(()) => {},
                Err(e) => return Err(e),
            }
            return match self.parse_create_table() {
                Ok(s) => Ok(Statement::CreateTable(s)),
                Err(e) => Err(e),
            };
        }
        if self.match_token(index_of(&Token::Drop)) {
            match self.expect(index_of(&Token::Table)) {
                Ok(()) => {},
                Err(e) => return Err(e),
            }
            return match self.parse_drop_table() {
                Ok(s) => Ok(Statement::DropTable(s)),
                Err(e) => Err(e),
            };
        }
        if self.match_token(index_of(&Token::Pragma)) {
            return match self.parse_pragma() {
                Ok(s) => Ok(Statement::Pragma(s)),
                Err(e) => Err(e),
            };
        }
        if self.match_token(index_of(&Token::Begin)) {
            return Ok(Statement::Begin);
        }
        if self.match_token(index_of(&Token::Commit)) {
            return Ok(Statement::Commit);
        }
        if self.match_token(index_of(&Token::Rollback)) {
            return Ok(Statement::Rollback);
        }
        Err(self.error("syntax error"))
    }
}


/// Parses the statements of `tokens`, each followed by any number of
/// semicolons; the first that fails to parse fails the whole.
pub fn parse_tokens(tokens: Vec<SpannedToken>) -> (r: Result<ParseResult, ParseError>)
    ensures
        tokens@.len() == 0 ==> (r matches Ok(p) && p.statements@.len() == 0),
        r matches Ok(p) ==> p.statements@.len() <= tokens@.len(),
        tokens@.len() > 0 && r is Ok ==> r->Ok_0.statements@.len() >= 1,
        tokens@.len() > 0 && !starts_statement(token_index(tokens@[0].token)) ==> (r matches Err(e)
            && syntax_error(e, token_text(tokens@[0].token), "syntax error"@)),
        r matches Err(e) ==> e is Syntax,
{
    let ghost n = tokens@.len();
    let mut parser = Parser::new(tokens);
    let mut statements: Vec<Statement> = Vec::new();
    while !parser.is_at_end()
        invariant
            parser.wf(),
            parser.spec_tokens().len() == n,
            n == tokens@.len(),
            parser.spec_tokens() == tokens@,
            statements@.len() <= parser.spec_pos(),
            parser.spec_pos() > 0 ==> statements@.len() >= 1 && starts_statement(
                token_index(tokens@[0].token),
            ),
        decreases parser.spec_tokens().len() - parser.spec_pos(),
    {
        match parser.parse_statement() {
            Ok(s) => statements.push(s),
            Err(e) => return Err(e),
        }
        parser.skip_semicolons();
    }
    Ok(ParseResult { statements })
}

/// Parses the first statement of `tokens`; what follows it is left.
pub fn parse_one_tokens(tokens: Vec<SpannedToken>) -> (r: Result<Statement, ParseError>)
    ensures
        tokens@.len() == 0 ==> (r matches Err(e) && syntax_error(
            e,
            "end of input"@,
            "syntax error"@,
        )),
        tokens@.len() > 0 && token_index(tokens@[0].token) == token_index(Token::Begin) ==> (
        r matches Ok(Statement::Begin)),
        tokens@.len() > 0 && token_index(tokens@[0].token) == token_index(Token::Commit) ==> (
        r matches Ok(Statement::Commit)),
        tokens@.len() > 0 && token_index(tokens@[0].token) == token_index(Token::Rollback) ==> (
        r matches Ok(Statement::Rollback)),
        r matches Err(e) ==> e is Syntax,
{
    let mut parser = Parser::new(tokens);
    parser.parse_statement()
}

} // verus!
