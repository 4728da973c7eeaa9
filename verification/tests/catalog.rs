use sqllite::ast::{ColumnConstraint, ColumnDef, ColumnType, CreateIndex, CreateTable, Expr};
use sqllite::ast::{DropTable, Pragma, Statement};
use sqllite::btree::{btree_insert_row, Btree, BtreeFlags};
use sqllite::connection::Connection;
use sqllite::error::{ResultCode, SqlliteError};
use sqllite::io::{MemoryFile, OpenFlags, Vfs};
use sqllite::pager::{JournalMode, Pager, PagerFlags};
use sqllite::pragma::execute_pragma;
use sqllite::schema::{column_def_to_column, create_index_sql, create_sql, Schema};
use sqllite::types::{Affinity, Value};
use std::path::Path;

/// A VFS with no disk: every database it serves lives in memory.
struct MemoryVfs;

impl Vfs for MemoryVfs {
    type File = MemoryFile;

    fn open(&self, _path: &Path, _flags: OpenFlags) -> Result<MemoryFile, SqlliteError> {
        Ok(MemoryFile::new())
    }

    fn delete(&self, _path: &Path) -> Result<(), SqlliteError> {
        Ok(())
    }

    fn path_exists(&self, _path: &Path) -> bool {
        false
    }

    fn name(&self) -> &str {
        "memory"
    }
}

fn memory_pager() -> Pager<MemoryFile> {
    Pager::open(&MemoryVfs, None, PagerFlags { memory: true, ..Default::default() }).unwrap()
}

fn int_column(name: &str) -> ColumnDef {
    ColumnDef { name: name.to_string(), col_type: ColumnType::Integer, constraints: Vec::new() }
}

fn create_test1() -> CreateTable {
    CreateTable {
        if_not_exists: false,
        name: "test1".to_string(),
        columns: vec![int_column("one"), int_column("two"), int_column("three")],
        temp: false,
    }
}

fn sql_message(e: &SqlliteError) -> (ResultCode, String) {
    (e.code(), e.message())
}

#[test]
fn pragma_journal_mode_query() {
    let mut pager = memory_pager();
    let schema = Schema::new();
    let rows = execute_pragma("journal_mode", None, &mut pager, &schema).unwrap();
    assert_eq!(rows[0][0], Value::Text("delete".to_string()));
}

#[test]
fn pragma_page_size_query() {
    let mut pager = memory_pager();
    let schema = Schema::new();
    let rows = execute_pragma("page_size", None, &mut pager, &schema).unwrap();
    assert_eq!(rows[0][0], Value::Integer(4096));
}

#[test]
fn pragma_journal_mode_is_set_by_name_in_any_case() {
    let mut pager = memory_pager();
    let schema = Schema::new();
    let rows = execute_pragma("JOURNAL_MODE", Some("WAL"), &mut pager, &schema).unwrap();
    assert_eq!(rows, vec![vec![Value::Text("wal".to_string())]]);
    assert_eq!(pager.journal_mode(), JournalMode::Wal);
    let rows = execute_pragma("journal_mode", None, &mut pager, &schema).unwrap();
    assert_eq!(rows, vec![vec![Value::Text("wal".to_string())]]);
}

#[test]
fn pragma_journal_mode_refuses_an_unknown_mode() {
    let mut pager = memory_pager();
    let schema = Schema::new();
    let e = execute_pragma("journal_mode", Some("sideways"), &mut pager, &schema).unwrap_err();
    assert_eq!(sql_message(&e), (ResultCode::Error, "unknown journal mode: sideways".to_string()));
    assert_eq!(pager.journal_mode(), JournalMode::Delete);
}

#[test]
fn pragma_page_size_checks_its_value() {
    let mut pager = memory_pager();
    let schema = Schema::new();
    let e = execute_pragma("page_size", Some("big"), &mut pager, &schema).unwrap_err();
    assert_eq!(sql_message(&e), (ResultCode::Error, "invalid page_size value".to_string()));
    let e = execute_pragma("page_size", Some("-512"), &mut pager, &schema).unwrap_err();
    assert_eq!(sql_message(&e), (ResultCode::Error, "invalid page_size value".to_string()));
    let e = execute_pragma("page_size", Some("99999999999"), &mut pager, &schema).unwrap_err();
    assert_eq!(sql_message(&e), (ResultCode::Error, "invalid page_size value".to_string()));
    for bad in ["1000", "256", "131072", "0"] {
        let e = execute_pragma("page_size", Some(bad), &mut pager, &schema).unwrap_err();
        assert_eq!(
            sql_message(&e),
            (
                ResultCode::Error,
                "page_size must be a power of two between 512 and 65536".to_string()
            )
        );
    }
    let rows = execute_pragma("page_size", Some("+8192"), &mut pager, &schema).unwrap();
    assert_eq!(rows, vec![vec![Value::Integer(4096)]]);
}

#[test]
fn pragma_table_info_lists_the_columns() {
    let mut pager = memory_pager();
    let mut schema = Schema::new();
    let mut create = create_test1();
    create.columns[0].constraints.push(ColumnConstraint::PrimaryKey { autoincrement: false });
    create.columns[1].constraints.push(ColumnConstraint::NotNull);
    create.columns[2].constraints.push(ColumnConstraint::Default(Expr::Integer(7)));
    create.columns[2].col_type = ColumnType::Text;
    schema.create_table(&mut pager, &create).unwrap();
    let rows = execute_pragma("table_info", Some("TEST1"), &mut pager, &schema).unwrap();
    assert_eq!(
        rows,
        vec![
            vec![
                Value::Integer(0),
                Value::Text("one".into()),
                Value::Text("I".into()),
                Value::Integer(0),
                Value::Null,
                Value::Integer(1),
            ],
            vec![
                Value::Integer(1),
                Value::Text("two".into()),
                Value::Text("I".into()),
                Value::Integer(1),
                Value::Null,
                Value::Integer(0),
            ],
            vec![
                Value::Integer(2),
                Value::Text("three".into()),
                Value::Text("T".into()),
                Value::Integer(0),
                Value::Integer(7),
                Value::Integer(0),
            ],
        ]
    );
}

#[test]
fn pragma_errors_name_what_is_missing() {
    let mut pager = memory_pager();
    let schema = Schema::new();
    let e = execute_pragma("table_info", None, &mut pager, &schema).unwrap_err();
    assert_eq!(sql_message(&e), (ResultCode::Error, "table_info requires a table name".to_string()));
    let e = execute_pragma("table_info", Some("nope"), &mut pager, &schema).unwrap_err();
    assert_eq!(sql_message(&e), (ResultCode::Error, "no such table: nope".to_string()));
    let e = execute_pragma("Cache_Size", None, &mut pager, &schema).unwrap_err();
    assert_eq!(
        sql_message(&e),
        (ResultCode::Error, "unknown or unsupported pragma: cache_size".to_string())
    );
}

#[test]
fn create_table_records_the_table_and_bumps_the_cookie() {
    let mut pager = memory_pager();
    let mut schema = Schema::new();
    assert_eq!(schema.schema_cookie(), 0);
    schema.create_table(&mut pager, &create_test1()).unwrap();
    assert_eq!(schema.schema_cookie(), 1);
    let t = schema.table("TeSt1").unwrap();
    assert_eq!(t.name, "test1");
    assert_eq!(t.column_count(), 3);
    assert_eq!(t.column_index("TWO"), Some(1));
    assert_eq!(t.column_index("four"), None);
    assert!(t.root_page >= 2);
    assert!(schema.has_table("TEST1"));
    assert_eq!(schema.tables().len(), 1);
}

#[test]
fn create_table_twice_fails_unless_if_not_exists() {
    let mut pager = memory_pager();
    let mut schema = Schema::new();
    schema.create_table(&mut pager, &create_test1()).unwrap();
    let e = schema.create_table(&mut pager, &create_test1()).unwrap_err();
    assert_eq!(sql_message(&e), (ResultCode::Error, "table test1 already exists".to_string()));
    let mut again = create_test1();
    again.if_not_exists = true;
    schema.create_table(&mut pager, &again).unwrap();
    assert_eq!(schema.schema_cookie(), 1);
}

#[test]
fn the_schema_table_answers_to_both_names() {
    let schema = Schema::new();
    assert!(schema.has_table("sqlite_schema"));
    assert!(schema.has_table("SQLITE_MASTER"));
    assert!(!schema.has_table("other"));
}

#[test]
fn drop_table_removes_it_or_reports_it_missing() {
    let mut pager = memory_pager();
    let mut schema = Schema::new();
    schema.create_table(&mut pager, &create_test1()).unwrap();
    schema.drop_table("TEST1", false).unwrap();
    assert!(!schema.has_table("test1"));
    assert_eq!(schema.schema_cookie(), 2);
    let e = schema.drop_table("test1", false).unwrap_err();
    assert_eq!(sql_message(&e), (ResultCode::Error, "no such table: test1".to_string()));
    schema.drop_table("test1", true).unwrap();
    assert_eq!(schema.schema_cookie(), 2);
}

#[test]
fn create_index_fills_the_index_from_the_rows() {
    let mut pager = memory_pager();
    let mut schema = Schema::new();
    let create = CreateTable {
        if_not_exists: false,
        name: "t".to_string(),
        columns: vec![int_column("a"), int_column("b")],
        temp: false,
    };
    schema.create_table(&mut pager, &create).unwrap();
    let root = schema.table("t").unwrap().root_page;
    let mut table = Btree::new(root, BtreeFlags { intkey: true, blobkey: false });
    btree_insert_row(&mut table, &mut pager, 1, &[Value::Integer(2), Value::Integer(10)]).unwrap();
    btree_insert_row(&mut table, &mut pager, 2, &[Value::Integer(1), Value::Integer(20)]).unwrap();
    let index = CreateIndex {
        if_not_exists: false,
        unique: false,
        name: "idx_t_a".to_string(),
        table: "t".to_string(),
        columns: vec!["A".to_string()],
    };
    schema.create_index(&mut pager, &index).unwrap();
    let x = schema.index("IDX_T_A").unwrap();
    assert_eq!(x.name, "idx_t_a");
    assert_eq!(x.table, "t");
    assert_eq!(x.columns, vec!["A".to_string()]);
    assert!(!x.unique);
    let btree = Btree::new(x.root_page, BtreeFlags { intkey: false, blobkey: true });
    let mut cursor = btree.cursor();
    assert!(cursor.first(&mut pager).unwrap());
    assert_eq!(cursor.values().unwrap(), vec![Value::Integer(1)]);
    assert_eq!(cursor.key(), Some(2));
    assert!(cursor.next(&mut pager).unwrap());
    assert_eq!(cursor.values().unwrap(), vec![Value::Integer(2)]);
    assert_eq!(cursor.key(), Some(1));
    assert!(!cursor.next(&mut pager).unwrap());
    assert_eq!(schema.schema_cookie(), 2);
}

#[test]
fn create_index_reports_what_is_missing() {
    let mut pager = memory_pager();
    let mut schema = Schema::new();
    let mut index = CreateIndex {
        if_not_exists: false,
        unique: true,
        name: "i".to_string(),
        table: "t".to_string(),
        columns: vec!["z".to_string()],
    };
    let e = schema.create_index(&mut pager, &index).unwrap_err();
    assert_eq!(sql_message(&e), (ResultCode::Error, "no such table: t".to_string()));
    let create = CreateTable {
        if_not_exists: false,
        name: "t".to_string(),
        columns: vec![int_column("a")],
        temp: false,
    };
    schema.create_table(&mut pager, &create).unwrap();
    let e = schema.create_index(&mut pager, &index).unwrap_err();
    assert_eq!(sql_message(&e), (ResultCode::Error, "table t has no column named z".to_string()));
    index.columns = vec!["a".to_string()];
    schema.create_index(&mut pager, &index).unwrap();
    assert!(schema.index("i").unwrap().unique);
    let e = schema.create_index(&mut pager, &index).unwrap_err();
    assert_eq!(sql_message(&e), (ResultCode::Error, "index i already exists".to_string()));
    index.if_not_exists = true;
    schema.create_index(&mut pager, &index).unwrap();
    assert_eq!(schema.schema_cookie(), 2);
}

#[test]
fn init_schema_table_registers_the_schema_table_once() {
    let mut pager = memory_pager();
    let mut schema = Schema::new();
    schema.init_schema_table(&mut pager).unwrap();
    let t = schema.table("sqlite_schema").unwrap();
    let names: Vec<&str> = t.columns.iter().map(|c| c.name.as_str()).collect();
    assert_eq!(names, vec!["type", "name", "tbl_name", "rootpage", "sql"]);
    assert_eq!(t.columns[3].affinity, Affinity::Integer);
    assert_eq!(t.rowid_alias.as_deref(), Some("rowid"));
    let root = t.root_page;
    schema.init_schema_table(&mut pager).unwrap();
    assert_eq!(schema.table("sqlite_schema").unwrap().root_page, root);
}

#[test]
fn the_sql_text_of_a_table_and_an_index() {
    let mut create = create_test1();
    create.columns[1].col_type = ColumnType::Real;
    create.columns[2].col_type = ColumnType::Null;
    assert_eq!(create_sql(&create), "CREATE TABLE test1(one INTEGER, two REAL, three NULL)");
    create.if_not_exists = true;
    assert_eq!(
        create_sql(&create),
        "CREATE TABLE IF NOT EXISTS test1(one INTEGER, two REAL, three NULL)"
    );
    let index = CreateIndex {
        if_not_exists: true,
        unique: true,
        name: "i".to_string(),
        table: "t".to_string(),
        columns: vec!["a".to_string(), "b".to_string()],
    };
    assert_eq!(create_index_sql(&index), "CREATE UNIQUE INDEX IF NOT EXISTS i ON t(a, b)");
}

#[test]
fn a_column_definition_becomes_a_column() {
    let def = ColumnDef {
        name: "price".to_string(),
        col_type: ColumnType::Numeric,
        constraints: vec![
            ColumnConstraint::PrimaryKey { autoincrement: true },
            ColumnConstraint::NotNull,
            ColumnConstraint::Unique,
            ColumnConstraint::Default(Expr::String("x".to_string())),
        ],
    };
    let col = column_def_to_column(&def);
    assert_eq!(col.name, "price");
    assert_eq!(col.affinity, Affinity::Numeric);
    assert!(col.primary_key && col.autoincrement && col.not_null);
    assert_eq!(col.default_value, Some(Value::Text("x".to_string())));
}

#[test]
fn a_connection_runs_schema_statements_and_pragmas() {
    let mut conn = Connection::open_in_memory(&MemoryVfs).unwrap();
    assert!(conn.schema().has_table("sqlite_schema"));
    let rows = conn
        .execute_statement(&Statement::CreateTable(create_test1()), None)
        .unwrap()
        .unwrap();
    assert!(rows.is_empty());
    assert!(conn.schema().has_table("TEST1"));
    assert!(!conn.pager().in_transaction());
    let pragma = Statement::Pragma(Pragma { name: "journal_mode".into(), value: None });
    let rows = conn.execute_statement(&pragma, Some("wal")).unwrap().unwrap();
    assert_eq!(rows, vec![vec![Value::Text("wal".into())]]);
    let drop = Statement::DropTable(DropTable { if_exists: false, name: "test1".into() });
    conn.execute_statement(&drop, None).unwrap().unwrap();
    assert!(!conn.schema().has_table("test1"));
    let e = conn.execute_statement(&drop, None).unwrap().unwrap_err();
    assert_eq!(sql_message(&e), (ResultCode::Error, "no such table: test1".to_string()));
    conn.execute_statement(&Statement::Begin, None).unwrap().unwrap();
    assert!(conn.pager().in_transaction());
    conn.execute_statement(&Statement::Rollback, None).unwrap().unwrap();
    assert!(!conn.pager().in_transaction());
    assert!(conn.execute_statement(&Statement::Commit, None).unwrap().is_ok());
    assert_eq!(conn.changes(), 0);
    assert_eq!(conn.last_insert_rowid(), 0);
}
