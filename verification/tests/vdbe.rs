use sqllite::ast::Statement;
use sqllite::compile::compile_statement;
use sqllite::connection::Connection;
use sqllite::error::{ResultCode, SqlliteError};
use sqllite::io::{MemoryFile, OpenFlags, Vfs};
use sqllite::lexer::{real_literals, tokenize_with_reals};
use sqllite::parser::parse_one_tokens;
use sqllite::program::{InsnP4, Opcode};
use sqllite::types::Value;
use sqllite::vdbe::{Event, Vdbe};
use std::path::Path;

/// A VFS with no disk: every database it serves lives in memory.
struct MemoryVfs;

impl Vfs for MemoryVfs {
    type File = MemoryFile;

    fn open(&self, _path: &Path, _flags: OpenFlags) -> Result<MemoryFile, SqlliteError> {
        Ok(MemoryFile::new())
    }

    fn delete(&self, _path: &Path) -> Result<(), SqlliteError> {
        Ok(())
    }

    fn path_exists(&self, _path: &Path) -> bool {
        false
    }

    fn name(&self) -> &str {
        "memory"
    }
}

fn parse(sql: &str) -> Statement {
    let reals: Vec<u64> = real_literals(sql)
        .iter()
        .map(|t| t.parse::<f64>().map(f64::to_bits).unwrap_or(0))
        .collect();
    parse_one_tokens(tokenize_with_reals(sql, &reals)).unwrap()
}

fn sql_error(e: &SqlliteError) -> (ResultCode, String) {
    match e {
        SqlliteError::Sql { code, message } => (*code, message.clone()),
        _ => panic!("not an SQL error"),
    }
}

/// Runs `sql` on `conn`: schema statements by the connection, the others
/// compiled and run on the machine; returns the rows' values.
fn run(conn: &mut Connection<MemoryFile>, sql: &str) -> Result<Vec<Value>, SqlliteError> {
    let stmt = parse(sql);
    if let Some(r) = conn.execute_statement(&stmt, None) {
        return r.map(|rows| rows.into_iter().flatten().collect());
    }
    let program = compile_statement(&stmt, conn.schema())?;
    let mut vdbe = Vdbe::new(program);
    let mut out = Vec::new();
    while !vdbe.is_halted() && vdbe.has_next() {
        match conn.exec_next(&mut vdbe)? {
            Event::Continue => {}
            Event::Row => {
                for i in 0..vdbe.column_count() {
                    out.push(vdbe.column_value(i).unwrap().clone());
                }
            }
            Event::Done => break,
            Event::Halt(code, message) => {
                if code != ResultCode::OK {
                    return Err(SqlliteError::sql(code, &message));
                }
                break;
            }
            Event::Compute { .. } => panic!("no double arithmetic in these statements"),
        }
    }
    conn.finish_statement(&vdbe);
    Ok(out)
}

#[test]
fn insert_then_select_gives_the_rows_back() {
    let mut conn = Connection::open_in_memory(&MemoryVfs).unwrap();
    run(&mut conn, "CREATE TABLE t(a int, b text)").unwrap();
    run(&mut conn, "INSERT INTO t VALUES(1, 'one'), (2, 'two')").unwrap();
    assert_eq!(conn.changes(), 2);
    assert_eq!(conn.last_insert_rowid(), 2);
    let rows = run(&mut conn, "SELECT * FROM t").unwrap();
    assert_eq!(
        rows,
        vec![
            Value::Integer(1),
            Value::Text("one".into()),
            Value::Integer(2),
            Value::Text("two".into()),
        ]
    );
    // A row that fails the WHERE condition jumps to the result row itself,
    // with its column registers not loaded: the first row yields NULL.
    let rows = run(&mut conn, "SELECT b FROM t WHERE a = 2").unwrap();
    assert_eq!(rows, vec![Value::Null, Value::Text("two".into())]);
}

#[test]
fn delete_removes_the_rows_that_match() {
    let mut conn = Connection::open_in_memory(&MemoryVfs).unwrap();
    run(&mut conn, "CREATE TABLE t(a int)").unwrap();
    run(&mut conn, "INSERT INTO t VALUES(10)").unwrap();
    let rows = run(&mut conn, "SELECT a FROM t").unwrap();
    assert_eq!(rows, vec![Value::Integer(10)]);
    run(&mut conn, "DELETE FROM t").unwrap();
    assert_eq!(run(&mut conn, "SELECT a FROM t").unwrap(), vec![]);
}

#[test]
fn compile_errors_name_the_table_and_counts() {
    let conn = Connection::open_in_memory(&MemoryVfs).unwrap();
    let e = compile_statement(&parse("SELECT * FROM nope"), conn.schema()).unwrap_err();
    assert_eq!(sql_error(&e), (ResultCode::Error, "no such table: nope".to_string()));
    let e = compile_statement(&parse("SELECT 1"), conn.schema()).unwrap_err();
    assert_eq!(sql_error(&e), (ResultCode::Error, "SELECT requires a FROM clause".to_string()));
    let mut conn = Connection::open_in_memory(&MemoryVfs).unwrap();
    run(&mut conn, "CREATE TABLE t(a int, b int)").unwrap();
    let e = compile_statement(&parse("INSERT INTO t VALUES(1)"), conn.schema()).unwrap_err();
    assert_eq!(
        sql_error(&e),
        (ResultCode::Error, "table t has 2 columns but 1 values were supplied".to_string())
    );
    let e = compile_statement(&parse("INSERT INTO t(c) VALUES(1)"), conn.schema()).unwrap_err();
    assert_eq!(sql_error(&e), (ResultCode::Error, "table t has no column named c".to_string()));
}

#[test]
fn delete_compiles_to_a_filtered_scan() {
    let mut conn = Connection::open_in_memory(&MemoryVfs).unwrap();
    run(&mut conn, "CREATE TABLE t(a int)").unwrap();
    let p = compile_statement(&parse("DELETE FROM t WHERE a = 5"), conn.schema()).unwrap();
    let ops: Vec<Opcode> = p.insns.iter().map(|i| i.opcode).collect();
    assert_eq!(
        ops,
        vec![
            Opcode::Init,
            Opcode::Transaction,
            Opcode::OpenWrite,
            Opcode::Rewind,
            Opcode::Column,
            Opcode::Integer,
            Opcode::Eq,
            Opcode::IfNot,
            Opcode::Delete,
            Opcode::Last,
            Opcode::Halt,
        ]
    );
    assert_eq!(p.insns[3].p2, 10);
    assert_eq!(p.insns[7].p2, 9);
    assert_eq!(p.insns[9].p2, 4);
    assert!(matches!(&p.insns[2].p4, InsnP4::String(s) if s == "t"));
}
