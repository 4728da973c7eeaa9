use sqllite::ast::{
    BinaryOp, ColumnConstraint, ColumnDef, ColumnType, ConflictAction, CreateIndex, CreateTable,
    Delete, DropTable, Expr, Insert, JoinType, OrderTerm, ParseError, Pragma, ResultColumn,
    Select, Statement, TableRef, UnaryOp, Update,
};
use sqllite::lexer::{real_literals, tokenize_with_reals};
use sqllite::parser::{parse_one_tokens, parse_tokens, Parser};
use sqllite::token::{SpannedToken, Token};

/// Tokens of `sql`, the real literals read as doubles.
fn tokenize(sql: &str) -> Vec<SpannedToken> {
    let reals: Vec<u64> =
        real_literals(sql).iter().map(|t| t.parse::<f64>().unwrap().to_bits()).collect();
    tokenize_with_reals(sql, &reals)
}

fn kinds(sql: &str) -> Vec<Token> {
    tokenize(sql).into_iter().map(|t| t.token).collect()
}

fn parse_all(sql: &str) -> Result<Vec<Statement>, ParseError> {
    parse_tokens(tokenize(sql)).map(|r| r.statements)
}

fn parse_one(sql: &str) -> Result<Statement, ParseError> {
    parse_one_tokens(tokenize(sql))
}

fn syntax(found: &str, message: &str) -> ParseError {
    ParseError::Syntax { found: found.to_string(), message: message.to_string() }
}

fn ident(s: &str) -> Expr {
    Expr::Ident(s.to_string())
}

fn bin(op: BinaryOp, l: Expr, r: Expr) -> Expr {
    Expr::BinaryOp { op, left: Box::new(l), right: Box::new(r) }
}

#[test]
fn tokenize_select() {
    let tokens = tokenize("SELECT * FROM t WHERE x = 1");
    assert!(tokens.iter().any(|t| t.token == Token::Select));
    assert!(tokens.iter().any(|t| t.token == Token::Star));
    assert!(tokens.iter().any(|t| matches!(t.token, Token::IntegerLit(1))));
}

#[test]
fn keywords_take_any_case_and_words_are_read_whole() {
    assert_eq!(
        kinds("SeLeCt selected abort set _x1"),
        vec![
            Token::Select,
            Token::Ident("selected".into()),
            Token::AbortKw,
            Token::SetKw,
            Token::Ident("_x1".into()),
        ]
    );
}

#[test]
fn literals_are_read_by_the_longest_match() {
    assert_eq!(
        kinds("12abc -5 1-2 1.5e3 1.5e 2. x'0aFF' X"),
        vec![
            Token::IntegerLit(12),
            Token::Ident("abc".into()),
            Token::IntegerLit(-5),
            Token::IntegerLit(1),
            Token::IntegerLit(-2),
            Token::RealLit(1500.0f64.to_bits()),
            Token::RealLit(1.5f64.to_bits()),
            Token::Ident("e".into()),
            Token::IntegerLit(2),
            Token::Dot,
            Token::BlobLit(vec![10, 255]),
            Token::Ident("X".into()),
        ]
    );
}

#[test]
fn quoted_text_is_unescaped() {
    assert_eq!(
        kinds(r#"'it''s' 'a\'b' "q""d" `b``t` :name @at $d ?"#),
        vec![
            Token::StringLit("it's".into()),
            Token::StringLit("a'b".into()),
            Token::QuotedIdent("q\"d".into()),
            Token::BacktickIdent("b`t".into()),
            Token::NamedParam("name".into()),
            Token::AtParam("at".into()),
            Token::DollarParam("d".into()),
            Token::BindParam,
        ]
    );
}

#[test]
fn operators_of_one_and_two_characters() {
    assert_eq!(
        kinds("|| == != <> <= >= << >> = < > + - * / % & | ~ ( ) , ; ."),
        vec![
            Token::Concat,
            Token::EqEq,
            Token::NotEq,
            Token::NotEq,
            Token::Le,
            Token::Ge,
            Token::Shl,
            Token::Shr,
            Token::Eq,
            Token::Lt,
            Token::Gt,
            Token::Plus,
            Token::Minus,
            Token::Star,
            Token::Slash,
            Token::Percent,
            Token::Amp,
            Token::Pipe,
            Token::Tilde,
            Token::LParen,
            Token::RParen,
            Token::Comma,
            Token::Semi,
            Token::Dot,
        ]
    );
}

#[test]
fn blanks_comments_and_errors_are_left_out() {
    assert_eq!(kinds("-- note\nSELECT /* x */ 1"), vec![Token::Select, Token::IntegerLit(1)]);
    assert_eq!(kinds("a # ! b"), vec![Token::Ident("a".into()), Token::Ident("b".into())]);
    assert_eq!(kinds("99999999999999999999 x'ABC' 7"), vec![Token::IntegerLit(7)]);
    assert_eq!(kinds("'abc def"), vec![]);
    assert_eq!(kinds("'ab'' x"), vec![Token::StringLit("ab".into())]);
    assert_eq!(kinds("/* open"), vec![Token::Slash, Token::Star, Token::Ident("open".into())]);
    assert_eq!(
        kinds("-9223372036854775808 9223372036854775807"),
        vec![Token::IntegerLit(i64::MIN), Token::IntegerLit(i64::MAX)]
    );
}

#[test]
fn spans_count_bytes() {
    let tokens = tokenize("é = 1");
    assert_eq!(
        tokens,
        vec![
            SpannedToken { token: Token::Eq, start: 3, end: 4 },
            SpannedToken { token: Token::IntegerLit(1), start: 5, end: 6 },
        ]
    );
}

#[test]
fn statements_are_parsed_one_after_another() {
    let stmts = parse_all(
        "CREATE TABLE t(a INTEGER PRIMARY KEY, b TEXT NOT NULL DEFAULT 'x');;\
         INSERT INTO t VALUES (1, 'y'), (2, 'z'); SELECT a, b AS bb FROM t WHERE a = 1 \
         ORDER BY b DESC LIMIT 5",
    )
    .unwrap();
    assert_eq!(stmts.len(), 3);
    assert_eq!(
        stmts[0],
        Statement::CreateTable(CreateTable {
            if_not_exists: false,
            name: "t".into(),
            columns: vec![
                ColumnDef {
                    name: "a".into(),
                    col_type: ColumnType::Integer,
                    constraints: vec![ColumnConstraint::PrimaryKey { autoincrement: false }],
                },
                ColumnDef {
                    name: "b".into(),
                    col_type: ColumnType::Text,
                    constraints: vec![
                        ColumnConstraint::NotNull,
                        ColumnConstraint::Default(Expr::String("x".into())),
                    ],
                },
            ],
            temp: false,
        })
    );
    assert_eq!(
        stmts[1],
        Statement::Insert(Insert {
            or_conflict: None,
            table: "t".into(),
            columns: vec![],
            values: vec![
                vec![Expr::Integer(1), Expr::String("y".into())],
                vec![Expr::Integer(2), Expr::String("z".into())],
            ],
            select: None,
        })
    );
    assert_eq!(
        stmts[2],
        Statement::Select(Select {
            distinct: false,
            columns: vec![
                ResultColumn { expr: ident("a"), alias: None },
                ResultColumn { expr: ident("b"), alias: Some("bb".into()) },
            ],
            from: Some(TableRef::Table { name: "t".into(), alias: None }),
            where_clause: Some(bin(BinaryOp::Eq, ident("a"), Expr::Integer(1))),
            group_by: vec![],
            having: None,
            order_by: vec![OrderTerm { expr: ident("b"), desc: true }],
            limit: Some(Expr::Integer(5)),
            offset: None,
        })
    );
}

#[test]
fn operators_bind_by_precedence() {
    let Statement::Select(s) = parse_one("SELECT NOT a = 1 OR b AND -c + 2 * 3 || 'x'").unwrap()
    else {
        panic!("not a select");
    };
    let not_a = Expr::UnaryOp {
        op: UnaryOp::Not,
        expr: Box::new(bin(BinaryOp::Eq, ident("a"), Expr::Integer(1))),
    };
    let neg_c = Expr::UnaryOp { op: UnaryOp::Minus, expr: Box::new(ident("c")) };
    let sum = bin(
        BinaryOp::Concat,
        bin(BinaryOp::Add, neg_c, bin(BinaryOp::Mul, Expr::Integer(2), Expr::Integer(3))),
        Expr::String("x".into()),
    );
    assert_eq!(s.columns[0].expr, bin(BinaryOp::Or, not_a, bin(BinaryOp::And, ident("b"), sum)));
}

#[test]
fn parse_errors_name_the_token_and_what_was_expected() {
    assert_eq!(parse_one("FOO"), Err(syntax("Ident(\"FOO\")", "syntax error")));
    assert_eq!(parse_one(""), Err(syntax("end of input", "syntax error")));
    assert_eq!(parse_one("SELECT"), Err(syntax("end of input", "expected expression")));
    assert_eq!(parse_one("DROP t"), Err(syntax("Ident(\"t\")", "expected Discriminant(10)")));
    assert_eq!(parse_one("SELECT 1 FROM 2"), Err(syntax("IntegerLit(2)", "expected identifier")));
    assert_eq!(parse_all(";SELECT 1"), Err(syntax("Semi", "syntax error")));
    assert_eq!(
        parse_one("SELECT").unwrap_err().to_message(),
        "parse error near \"end of input\": expected expression"
    );
    assert_eq!(ParseError::Eof.to_message(), "unexpected end of input");
}

#[test]
fn column_types_follow_their_names() {
    let Statement::CreateTable(c) =
        parse_one("CREATE TABLE IF NOT EXISTS t(a int, b VarChar, c double, d bool, e whatever, f, g BLOB)")
            .unwrap()
    else {
        panic!("not a create table");
    };
    assert!(c.if_not_exists);
    let types: Vec<ColumnType> = c.columns.iter().map(|d| d.col_type).collect();
    assert_eq!(
        types,
        vec![
            ColumnType::Integer,
            ColumnType::Text,
            ColumnType::Real,
            ColumnType::Integer,
            ColumnType::Numeric,
            ColumnType::Numeric,
            ColumnType::Blob,
        ]
    );
}

#[test]
fn the_other_statements() {
    assert_eq!(
        parse_one("DROP TABLE IF EXISTS t").unwrap(),
        Statement::DropTable(DropTable { if_exists: true, name: "t".into() })
    );
    assert_eq!(
        parse_one("PRAGMA journal_mode = WAL").unwrap(),
        Statement::Pragma(Pragma { name: "journal_mode".into(), value: Some(ident("WAL")) })
    );
    assert_eq!(
        parse_one("PRAGMA table_info(t)").unwrap(),
        Statement::Pragma(Pragma { name: "table_info".into(), value: Some(ident("t")) })
    );
    assert_eq!(
        parse_one("CREATE UNIQUE INDEX IF NOT EXISTS i ON t(a, b)").unwrap(),
        Statement::CreateIndex(CreateIndex {
            if_not_exists: true,
            unique: true,
            name: "i".into(),
            table: "t".into(),
            columns: vec!["a".into(), "b".into()],
        })
    );
    assert_eq!(
        parse_one("INSERT OR REPLACE INTO t (a) VALUES (1)").unwrap(),
        Statement::Insert(Insert {
            or_conflict: Some(ConflictAction::Replace),
            table: "t".into(),
            columns: vec!["a".into()],
            values: vec![vec![Expr::Integer(1)]],
            select: None,
        })
    );
    assert_eq!(
        parse_one("UPDATE t SET a = 1, b = 2 WHERE c").unwrap(),
        Statement::Update(Update {
            table: "t".into(),
            assignments: vec![("a".into(), Expr::Integer(1)), ("b".into(), Expr::Integer(2))],
            where_clause: Some(ident("c")),
        })
    );
    assert_eq!(
        parse_one("DELETE FROM t").unwrap(),
        Statement::Delete(Delete { table: "t".into(), where_clause: None })
    );
    assert_eq!(parse_all("BEGIN; COMMIT; ROLLBACK").unwrap(), vec![
        Statement::Begin,
        Statement::Commit,
        Statement::Rollback
    ]);
}

#[test]
fn joins_functions_and_subqueries() {
    let Statement::Select(s) =
        parse_one("SELECT count(DISTINCT x), f(), g(1, 2), t.c, (SELECT 1) FROM a x LEFT JOIN b ON x.id = b.id")
            .unwrap()
    else {
        panic!("not a select");
    };
    assert_eq!(
        s.columns[0].expr,
        Expr::Function { name: "count".into(), distinct: true, args: vec![ident("x")] }
    );
    assert_eq!(s.columns[1].expr, Expr::Function { name: "f".into(), distinct: false, args: vec![] });
    assert_eq!(
        s.columns[2].expr,
        Expr::Function {
            name: "g".into(),
            distinct: false,
            args: vec![Expr::Integer(1), Expr::Integer(2)]
        }
    );
    assert_eq!(
        s.columns[3].expr,
        Expr::QualifiedIdent { table: "t".into(), column: "c".into() }
    );
    match &s.columns[4].expr {
        Expr::Ident(text) => assert!(text.starts_with("(Select")),
        other => panic!("unexpected {other:?}"),
    }
    let on = bin(
        BinaryOp::Eq,
        Expr::QualifiedIdent { table: "x".into(), column: "id".into() },
        Expr::QualifiedIdent { table: "b".into(), column: "id".into() },
    );
    assert_eq!(
        s.from,
        Some(TableRef::Join {
            left: Box::new(TableRef::Table { name: "a".into(), alias: Some("x".into()) }),
            right: Box::new(TableRef::Table { name: "b".into(), alias: None }),
            join_type: JoinType::Left,
            on: Some(on),
        })
    );
}

#[test]
fn a_parser_skips_semicolons_and_knows_its_end() {
    let mut p = Parser::new(tokenize(";; SELECT"));
    assert!(!p.is_at_end());
    p.skip_semicolons();
    assert_eq!(p.parse_statement(), Err(syntax("end of input", "expected expression")));
    assert!(p.is_at_end());
}
