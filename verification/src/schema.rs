//! Database schema catalog: the tables and indexes of a database, each
//! known by its name folded to lower case, and the schema table that
//! records them.

use vstd::prelude::*;

use vstd::slice::slice_to_vec;
use crate::ast::{ColumnConstraint, ColumnDef, ColumnType, CreateIndex, CreateTable, Expr};
use crate::btree::{btree_insert_index, btree_insert_row, Btree, BtreeFlags};
use crate::error::{is_sql_error, ResultCode, SqlliteError};
use crate::io::VfsFile;
use crate::pager::Pager;
use crate::record::serial_type_of;
use crate::text::{chars_of, push_str_chars, same_str, string_of};
use crate::tree::{
    can_add_page, cell_placed, empty_leaf_root, leaf_takes_cell, loadable_kept, page_bytes, pager_kept,
    pager_ready,
};
use crate::types::{Affinity, PageNo, Value, ValueView};

verus! {

/// Column metadata.
#[derive(Debug, Clone)]
pub struct Column {
    pub name: String,
    pub affinity: Affinity,
    pub not_null: bool,
    pub primary_key: bool,
    pub autoincrement: bool,
    pub default_value: Option<Value>,
}

/// Index metadata.
#[derive(Debug, Clone)]
pub struct Index {
    pub name: String,
    pub table: String,
    pub columns: Vec<String>,
    pub root_page: u32,
    pub unique: bool,
}

/// Table metadata.
#[derive(Debug, Clone)]
pub struct Table {
    pub name: String,
    pub root_page: u32,
    pub columns: Vec<Column>,
    pub rowid_alias: Option<String>,
}

/// `c` with its ASCII capital letters made small.
pub open spec fn fold_ascii(c: char) -> char {
    if 'A' <= c <= 'Z' {
        ((c as u32) + 32) as char
    } else {
        c
    }
}

/// `a` and `b` are the same but for the case of ASCII letters.
pub open spec fn eq_ignore_ascii_case(a: Seq<char>, b: Seq<char>) -> bool {
    &&& a.len() == b.len()
    &&& forall|i: int| 0 <= i < a.len() ==> fold_ascii(#[trigger] a[i]) == fold_ascii(b[i])
}

fn fold_char(c: char) -> (r: char)
    ensures
        r == fold_ascii(c),
{
    if 'A' <= c && c <= 'Z' {
        ((c as u8) + 32) as char
    } else {
        c
    }
}

/// Whether `a` and `b` are the same but for the case of ASCII letters.
fn same_ignoring_ascii_case(a: &str, b: &str) -> (r: bool)
    ensures
        r == eq_ignore_ascii_case(a@, b@),
{
    let x = crate::text::chars_of(a);
    let y = crate::text::chars_of(b);
    if x.len() != y.len() {
        return false;
    }
    let mut k: usize = 0;
    while k < x.len()
        invariant
            k <= x@.len(),
            x@.len() == y@.len(),
            x@ == a@,
            y@ == b@,
            forall|j: int| 0 <= j < k ==> fold_ascii(#[trigger] x@[j]) == fold_ascii(y@[j]),
        decreases x@.len() - k,
    {
        if fold_char(x[k]) != fold_char(y[k]) {
            return false;
        }
        k = k + 1;
    }
    true
}

/// Whether `t` has a column named `name`, the case of ASCII letters aside.
pub open spec fn has_column_named(t: Table, name: Seq<char>) -> bool {
    exists|j: int| 0 <= j < t.columns@.len() && eq_ignore_ascii_case(#[trigger] t.columns@[j].name@, name)
}

/// The `m`-th of `cols` is the first that `t` has no column for.
pub open spec fn first_missing_column(t: Table, cols: Seq<String>, m: int) -> bool {
    &&& 0 <= m < cols.len()
    &&& !has_column_named(t, cols[m]@)
    &&& forall|j: int| 0 <= j < m ==> has_column_named(t, #[trigger] cols[j]@)
}

impl Table {
    /// The position of the first column named `name`, the case of ASCII
    /// letters aside.
    pub fn column_index(&self, name: &str) -> (r: Option<usize>)
        ensures
            match r {
                Some(i) => i < self.columns@.len() && eq_ignore_ascii_case(
                    self.columns@[i as int].name@,
                    name@,
                ) && forall|j: int|
                    0 <= j < i ==> !eq_ignore_ascii_case(
                        #[trigger] self.columns@[j].name@,
                        name@,
                    ),
                None => forall|j: int|
                    0 <= j < self.columns@.len() ==> !eq_ignore_ascii_case(
                        #[trigger] self.columns@[j].name@,
                        name@,
                    ),
            },
    {
        let mut i: usize = 0;
        while i < self.columns.len()
            invariant
                i <= self.columns@.len(),
                forall|j: int|
                    0 <= j < i ==> !eq_ignore_ascii_case(#[trigger] self.columns@[j].name@, name@),
            decreases self.columns@.len() - i,
        {
            if same_ignoring_ascii_case(self.columns[i].name.as_str(), name) {
                return Some(i);
            }
            i = i + 1;
        }
        None
    }

    pub fn column_count(&self) -> (n: usize)
        ensures
            n == self.columns@.len(),
    {
        self.columns.len()
    }
}

/// The affinity a declared column type gives.
pub open spec fn affinity_of_type(t: ColumnType) -> Affinity {
    match t {
        ColumnType::Integer => Affinity::Integer,
        ColumnType::Real => Affinity::Real,
        ColumnType::Text => Affinity::Text,
        ColumnType::Blob => Affinity::Blob,
        _ => Affinity::Numeric,
    }
}

/// The value a constant expression stands for; NULL for any other expression.
pub open spec fn expr_value(e: Expr) -> ValueView {
    match e {
        Expr::Integer(i) => ValueView::Integer(i),
        Expr::Real(r) => ValueView::Real(r),
        Expr::String(s) => ValueView::Text(s@),
        Expr::Blob(b) => ValueView::Blob(b@),
        _ => ValueView::Null,
    }
}

/// The value of a constant expression; NULL for any other expression.
pub fn expr_to_value(expr: &Expr) -> (v: Value)
    ensures
        v@ == expr_value(*expr),
{
    match expr {
        Expr::Null => Value::Null,
        Expr::Integer(i) => Value::Integer(*i),
        Expr::Real(r) => Value::Real(*r),
        Expr::String(s) => Value::Text(string_of(crate::text::chars_of(s.as_str()).as_slice())),
        Expr::Blob(b) => Value::Blob(slice_to_vec(b.as_slice())),
        _ => Value::Null,
    }
}

/// What the constraints `cs[..n]` make of a column, in turn: whether it is
/// a primary key, whether it autoincrements, whether it is NOT NULL, and
/// its default value.
pub open spec fn constrained(cs: Seq<ColumnConstraint>, n: int) -> (bool, bool, bool, Option<ValueView>)
    decreases n,
{
    if n <= 0 {
        (false, false, false, None)
    } else {
        let (pk, auto, nn, dflt) = constrained(cs, n - 1);
        match cs[n - 1] {
            ColumnConstraint::PrimaryKey { autoincrement } => (true, autoincrement, nn, dflt),
            ColumnConstraint::NotNull => (pk, auto, true, dflt),
            ColumnConstraint::Unique => (pk, auto, nn, dflt),
            ColumnConstraint::Default(e) => (pk, auto, nn, Some(expr_value(e))),
        }
    }
}

/// `col` is the column metadata of the definition `def`: its name, the
/// affinity of its type, and what its constraints make of it.
pub open spec fn column_matches(col: Column, def: ColumnDef) -> bool {
    let (pk, auto, nn, dflt) = constrained(def.constraints@, def.constraints@.len() as int);
    &&& col.name@ == def.name@
    &&& col.affinity == affinity_of_type(def.col_type)
    &&& col.primary_key == pk
    &&& col.autoincrement == auto
    &&& col.not_null == nn
    &&& match col.default_value {
        Some(v) => dflt == Some(v@),
        None => dflt is None,
    }
}

/// The column metadata of a column definition.
pub fn column_def_to_column(def: &ColumnDef) -> (col: Column)
    ensures
        column_matches(col, *def),
{
    let affinity = match def.col_type {
        ColumnType::Integer => Affinity::Integer,
        ColumnType::Real => Affinity::Real,
        ColumnType::Text => Affinity::Text,
        ColumnType::Blob => Affinity::Blob,
        _ => Affinity::Numeric,
    };
    let mut col = Column {
        name: string_of(crate::text::chars_of(def.name.as_str()).as_slice()),
        affinity,
        not_null: false,
        primary_key: false,
        autoincrement: false,
        default_value: None,
    };
    let mut i: usize = 0;
    while i < def.constraints.len()
        invariant
            i <= def.constraints@.len(),
            col.name@ == def.name@,
            col.affinity == affinity_of_type(def.col_type),
            ({
                let (pk, auto, nn, dflt) = constrained(def.constraints@, i as int);
                &&& col.primary_key == pk
                &&& col.autoincrement == auto
                &&& col.not_null == nn
                &&& match col.default_value {
                    Some(v) => dflt == Some(v@),
                    None => dflt is None,
                }
            }),
        decreases def.constraints@.len() - i,
    {
        match &def.constraints[i] {
            ColumnConstraint::PrimaryKey { autoincrement } => {
                col.primary_key = true;
                col.autoincrement = *autoincrement;
            },
            ColumnConstraint::NotNull => col.not_null = true,
            ColumnConstraint::Unique => {},
            ColumnConstraint::Default(expr) => {
                col.default_value = Some(expr_to_value(expr));
            },
        }
        i = i + 1;
    }
    col
}

/// The name of a column type in the text of a CREATE TABLE statement.
pub open spec fn column_type_name(t: ColumnType) -> Seq<char> {
    match t {
        ColumnType::Integer => "INTEGER"@,
        ColumnType::Real => "REAL"@,
        ColumnType::Text => "TEXT"@,
        ColumnType::Blob => "BLOB"@,
        ColumnType::Null => "NULL"@,
        ColumnType::Numeric => "NUMERIC"@,
    }
}

/// The column list `NAME TYPE, NAME TYPE, ...` of the first `n` columns.
pub open spec fn column_list(cols: Seq<ColumnDef>, n: int) -> Seq<char>
    decreases n,
{
    if n <= 0 {
        Seq::empty()
    } else {
        let sep = if n > 1 {
            ", "@
        } else {
            Seq::empty()
        };
        column_list(cols, n - 1) + sep + cols[n - 1].name@ + " "@ + column_type_name(cols[n - 1].col_type)
    }
}

/// The names `A, B, ...` of the first `n` entries.
pub open spec fn name_list(names: Seq<String>, n: int) -> Seq<char>
    decreases n,
{
    if n <= 0 {
        Seq::empty()
    } else {
        let sep = if n > 1 {
            ", "@
        } else {
            Seq::empty()
        };
        name_list(names, n - 1) + sep + names[n - 1]@
    }
}

/// The text of a CREATE TABLE statement as the schema table records it.
pub open spec fn create_table_text(c: CreateTable) -> Seq<char> {
    "CREATE TABLE "@ + (if c.if_not_exists {
        "IF NOT EXISTS "@
    } else {
        Seq::empty()
    }) + c.name@ + "("@ + column_list(c.columns@, c.columns@.len() as int) + ")"@
}

/// The text of a CREATE INDEX statement as the schema table records it.
pub open spec fn create_index_text(c: CreateIndex) -> Seq<char> {
    "CREATE "@ + (if c.unique {
        "UNIQUE "@
    } else {
        Seq::empty()
    }) + "INDEX "@ + (if c.if_not_exists {
        "IF NOT EXISTS "@
    } else {
        Seq::empty()
    }) + c.name@ + " ON "@ + c.table@ + "("@ + name_list(c.columns@, c.columns@.len() as int)
        + ")"@
}

fn type_text(t: ColumnType) -> (s: &'static str)
    ensures
        s@ == column_type_name(t),
{
    match t {
        ColumnType::Integer => "INTEGER",
        ColumnType::Real => "REAL",
        ColumnType::Text => "TEXT",
        ColumnType::Blob => "BLOB",
        ColumnType::Null => "NULL",
        ColumnType::Numeric => "NUMERIC",
    }
}

/// The text of a CREATE TABLE statement for the schema table.
pub fn create_sql(create: &CreateTable) -> (sql: String)
    ensures
        sql@ == create_table_text(*create),
{
    proof {
        reveal_strlit("INTEGER");
        reveal_strlit("REAL");
        reveal_strlit("TEXT");
        reveal_strlit("BLOB");
        reveal_strlit("NULL");
        reveal_strlit("NUMERIC");
    }
    let mut sql: Vec<char> = Vec::new();
    push_str_chars(&mut sql, "CREATE TABLE ");
    if create.if_not_exists {
        push_str_chars(&mut sql, "IF NOT EXISTS ");
    }
    push_str_chars(&mut sql, create.name.as_str());
    push_str_chars(&mut sql, "(");
    let ghost head = sql@;
    let mut i: usize = 0;
    while i < create.columns.len()
        invariant
            i <= create.columns@.len(),
            sql@ == head + column_list(create.columns@, i as int),
        decreases create.columns@.len() - i,
    {
        if i > 0 {
            push_str_chars(&mut sql, ", ");
        }
        push_str_chars(&mut sql, create.columns[i].name.as_str());
        push_str_chars(&mut sql, " ");
        push_str_chars(&mut sql, type_text(create.columns[i].col_type));
        proof {
            let cols = create.columns@;
            let sep = if i + 1 > 1 {
                ", "@
            } else {
                Seq::<char>::empty()
            };
            assert(column_list(cols, i + 1) == column_list(cols, i as int) + sep + cols[i as int].name@
                + " "@ + column_type_name(cols[i as int].col_type));
            assert(sql@ =~= head + column_list(cols, i + 1));
        }
        i = i + 1;
    }
    push_str_chars(&mut sql, ")");
    assert(sql@ =~= create_table_text(*create));
    string_of(sql.as_slice())
}

/// The text of a CREATE INDEX statement for the schema table.
pub fn create_index_sql(create: &CreateIndex) -> (sql: String)
    ensures
        sql@ == create_index_text(*create),
{
    let mut sql: Vec<char> = Vec::new();
    push_str_chars(&mut sql, "CREATE ");
    if create.unique {
        push_str_chars(&mut sql, "UNIQUE ");
    }
    push_str_chars(&mut sql, "INDEX ");
    if create.if_not_exists {
        push_str_chars(&mut sql, "IF NOT EXISTS ");
    }
    push_str_chars(&mut sql, create.name.as_str());
    push_str_chars(&mut sql, " ON ");
    push_str_chars(&mut sql, create.table.as_str());
    push_str_chars(&mut sql, "(");
    let ghost head = sql@;
    let mut i: usize = 0;
    while i < create.columns.len()
        invariant
            i <= create.columns@.len(),
            sql@ == head + name_list(create.columns@, i as int),
        decreases create.columns@.len() - i,
    {
        if i > 0 {
            push_str_chars(&mut sql, ", ");
        }
        push_str_chars(&mut sql, create.columns[i].as_str());
        proof {
            let names = create.columns@;
            let sep = if i + 1 > 1 {
                ", "@
            } else {
                Seq::<char>::empty()
            };
            assert(name_list(names, i + 1) == name_list(names, i as int) + sep + names[i as int]@);
            assert(sql@ =~= head + name_list(names, i + 1));
        }
        i = i + 1;
    }
    push_str_chars(&mut sql, ")");
    assert(sql@ =~= create_index_text(*create));
    string_of(sql.as_slice())
}

/// The lower-case form of a string under Unicode's case mapping.
pub uninterp spec fn lowercase(s: Seq<char>) -> Seq<char>;

/// std's `str::to_lowercase`: every character replaced by its Unicode
/// lower-case mapping. The result is given a name: it depends on the
/// characters alone; nothing more is claimed of it.
#[verifier::external_body]
fn to_lowercase(s: &str) -> (r: String)
    ensures
        r@ == lowercase(s@),
{
    s.to_lowercase()
}

/// The row the schema table holds for an object: its type, its name twice,
/// its root page and its SQL text.
pub open spec fn schema_row(obj_type: Seq<char>, name: Seq<char>, root_page: u32, sql: Seq<char>) -> Seq<
    ValueView,
> {
    seq![
        ValueView::Text(obj_type),
        ValueView::Text(name),
        ValueView::Text(name),
        ValueView::Integer(root_page as i64),
        ValueView::Text(sql),
    ]
}

/// A text whose UTF-8 encoding is below `2^28` bytes.
pub open spec fn text_fits(t: Seq<char>) -> bool {
    vstd::utf8::encode_utf8(t).len() < 0x1000_0000
}

/// Whether a value's serial type can be written: text and blobs below
/// `2^28` bytes.
fn value_fits(v: &Value) -> (b: bool)
    ensures
        b ==> serial_type_of(v@) < 0x8000000000000000 && serial_type_of(v@) <= usize::MAX,
        b == match v@ {
            ValueView::Text(t) => vstd::utf8::encode_utf8(t).len() < 0x1000_0000,
            ValueView::Blob(x) => x.len() < 0x1000_0000,
            _ => true,
        },
{
    match v {
        Value::Text(s) => {
            let t = s.as_str();
            let n = t.as_bytes().len();
            assert(t@ == s@);
            n < 0x1000_0000
        },
        Value::Blob(b) => b.len() < 0x1000_0000,
        _ => true,
    }
}

/// A copy of a value.
pub(crate) fn copy_value(v: &Value) -> (c: Value)
    ensures
        c@ == v@,
{
    match v {
        Value::Null => Value::Null,
        Value::Integer(i) => Value::Integer(*i),
        Value::Real(r) => Value::Real(*r),
        Value::Text(s) => Value::Text(string_of(chars_of(s.as_str()).as_slice())),
        Value::Blob(b) => Value::Blob(slice_to_vec(b.as_slice())),
    }
}

/// The message `PREFIX NAME SUFFIX`.
fn message3(prefix: &str, name: &str, suffix: &str) -> (m: String)
    ensures
        m@ == prefix@ + name@ + suffix@,
{
    let mut cs: Vec<char> = Vec::new();
    push_str_chars(&mut cs, prefix);
    push_str_chars(&mut cs, name);
    push_str_chars(&mut cs, suffix);
    string_of(cs.as_slice())
}

/// Schema catalog for a database: the tables and the indexes, each beside
/// its name folded to lower case.
pub struct Schema {
    table_names: Vec<String>,
    tables: Vec<Table>,
    index_names: Vec<String>,
    indexes: Vec<Index>,
    schema_cookie: u32,
    schema_btree: Option<Btree>,
}

/// The characters of the names.
pub open spec fn keys_of(names: Seq<String>) -> Seq<Seq<char>> {
    names.map_values(|n: String| n@)
}

/// No key occurs twice.
pub open spec fn distinct_keys(keys: Seq<Seq<char>>) -> bool {
    forall|i: int, j: int| 0 <= i < j < keys.len() ==> keys[i] != keys[j]
}

/// The name of column `i` of the schema table.
pub open spec fn schema_column_name(i: int) -> Seq<char> {
    if i == 0 {
        "type"@
    } else if i == 1 {
        "name"@
    } else if i == 2 {
        "tbl_name"@
    } else if i == 3 {
        "rootpage"@
    } else {
        "sql"@
    }
}

/// A column named `name` of affinity `affinity`, with no constraint and no
/// default.
pub open spec fn plain_column(c: Column, name: Seq<char>, affinity: Affinity) -> bool {
    &&& c.name@ == name
    &&& c.affinity == affinity
    &&& !c.not_null
    &&& !c.primary_key
    &&& !c.autoincrement
    &&& c.default_value is None
}

/// The catalog entry of the schema table `sqlite_schema`, of root page
/// `root`: the text columns type, name and tbl_name, the integer column
/// rootpage and the text column sql, with `rowid` as its rowid alias.
pub open spec fn is_schema_table(t: Table, root: u32) -> bool {
    &&& t.name@ == "sqlite_schema"@
    &&& t.root_page == root
    &&& (t.rowid_alias matches Some(a) && a@ == "rowid"@)
    &&& t.columns@.len() == 5
    &&& forall|i: int|
        0 <= i < 5 ==> plain_column(
            #[trigger] t.columns@[i],
            schema_column_name(i),
            if i == 3 {
                Affinity::Integer
            } else {
                Affinity::Text
            },
        )
}

/// Where the key `k` stands among `keys`.
pub open spec fn key_position(keys: Seq<Seq<char>>, k: Seq<char>) -> int {
    choose|i: int| 0 <= i < keys.len() && keys[i] == k
}

/// A key found at `i` among keys that each occur once stands at `i`.
pub proof fn lemma_key_position(keys: Seq<Seq<char>>, k: Seq<char>, i: int)
    requires
        distinct_keys(keys),
        0 <= i < keys.len(),
        keys[i] == k,
    ensures
        key_position(keys, k) == i,
        keys.contains(k),
{
    let j = key_position(keys, k);
    assert(0 <= j < keys.len() && keys[j] == k);
    if j < i {
        assert(keys[j] != keys[i]);
    } else if i < j {
        assert(keys[i] != keys[j]);
    }
}

/// The position of the name `key`.
fn find_key(names: &Vec<String>, key: &str) -> (r: Option<usize>)
    ensures
        match r {
            Some(i) => i < names@.len() && keys_of(names@)[i as int] == key@,
            None => !keys_of(names@).contains(key@),
        },
{
    let mut i: usize = 0;
    while i < names.len()
        invariant
            i <= names@.len(),
            forall|j: int| 0 <= j < i ==> keys_of(names@)[j] != key@,
        decreases names@.len() - i,
    {
        if same_str(names[i].as_str(), key) {
            return Some(i);
        }
        i = i + 1;
    }
    None
}

impl Schema {
    /// The keys of the tables: their names folded to lower case.
    pub closed spec fn table_keys(&self) -> Seq<Seq<char>> {
        keys_of(self.table_names@)
    }

    /// The table keyed by the `i`-th key.
    pub closed spec fn table_at(&self, i: int) -> Table {
        self.tables@[i]
    }

    /// The keys of the indexes: their names folded to lower case.
    pub closed spec fn index_keys(&self) -> Seq<Seq<char>> {
        keys_of(self.index_names@)
    }

    /// The index keyed by the `i`-th key.
    pub closed spec fn index_at(&self, i: int) -> Index {
        self.indexes@[i]
    }

    pub closed spec fn spec_cookie(&self) -> u32 {
        self.schema_cookie
    }

    /// Whether the schema table has its b-tree.
    pub closed spec fn has_schema_btree(&self) -> bool {
        self.schema_btree is Some
    }

    /// The root page of the schema table's b-tree, when there is one.
    pub closed spec fn schema_root(&self) -> PageNo {
        self.schema_btree->Some_0.spec_root_page()
    }

    /// No table key and no index key occurs twice, and the schema table's
    /// b-tree, when there is one, is a table b-tree.
    pub closed spec fn wf(&self) -> bool {
        &&& self.tables@.len() == self.table_names@.len()
        &&& self.indexes@.len() == self.index_names@.len()
        &&& distinct_keys(self.table_keys())
        &&& distinct_keys(self.index_keys())
        &&& self.schema_btree matches Some(b) ==> !b.spec_flags().blobkey
    }

    /// In a well-formed catalog no table key and no index key occurs twice.
    pub proof fn lemma_wf_keys_distinct(&self)
        requires
            self.wf(),
        ensures
            distinct_keys(self.table_keys()),
            distinct_keys(self.index_keys()),
    {
    }

    pub fn new() -> (s: Self)
        ensures
            s.wf(),
            s.table_keys() == Seq::<Seq<char>>::empty(),
            s.index_keys() == Seq::<Seq<char>>::empty(),
            s.spec_cookie() == 0,
            !s.has_schema_btree(),
    {
        let s = Schema {
            table_names: Vec::new(),
            tables: Vec::new(),
            index_names: Vec::new(),
            indexes: Vec::new(),
            schema_cookie: 0,
            schema_btree: None,
        };
        assert(s.table_keys() =~= Seq::<Seq<char>>::empty());
        assert(s.index_keys() =~= Seq::<Seq<char>>::empty());
        s
    }

    pub fn schema_cookie(&self) -> (c: u32)
        ensures
            c == self.spec_cookie(),
    {
        self.schema_cookie
    }

    /// Advances the schema cookie.
    pub fn bump_cookie(&mut self)
        requires
            old(self).spec_cookie() < u32::MAX,
        ensures
            final(self).spec_cookie() == old(self).spec_cookie() + 1,
            final(self).table_keys() == old(self).table_keys(),
            final(self).index_keys() == old(self).index_keys(),
            forall|i: int| 0 <= i < old(self).table_keys().len() ==> #[trigger] final(self).table_at(i) == old(self).table_at(i),
            forall|i: int| 0 <= i < old(self).index_keys().len() ==> #[trigger] final(self).index_at(i) == old(self).index_at(i),
            final(self).has_schema_btree() == old(self).has_schema_btree(),
            old(self).wf() ==> final(self).wf(),
    {
        self.schema_cookie = self.schema_cookie + 1;
    }

    /// The table named `name`, the name folded to lower case.
    pub fn table(&self, name: &str) -> (r: Option<&Table>)
        requires
            self.wf(),
        ensures
            match r {
                Some(t) => exists|i: int|
                    0 <= i < self.table_keys().len() && self.table_keys()[i] == lowercase(name@)
                        && *t == #[trigger] self.table_at(i),
                None => !self.table_keys().contains(lowercase(name@)),
            },
            r matches Some(t) ==> self.table_keys().contains(lowercase(name@)) && *t
                == self.table_at(key_position(self.table_keys(), lowercase(name@))),
    {
        let key = to_lowercase(name);
        match find_key(&self.table_names, key.as_str()) {
            Some(i) => {
                proof {
                    lemma_key_position(self.table_keys(), key@, i as int);
                }
                assert(self.table_at(i as int) == self.tables@[i as int]);
                Some(&self.tables[i])
            },
            None => None,
        }
    }

    /// The table named `name`, the name folded to lower case, to change.
    pub fn table_mut(&mut self, name: &str) -> (r: Option<&mut Table>)
        requires
            old(self).wf(),
        ensures
            final(self).table_keys() == old(self).table_keys(),
            final(self).index_keys() == old(self).index_keys(),
            final(self).spec_cookie() == old(self).spec_cookie(),
            final(self).has_schema_btree() == old(self).has_schema_btree(),
            final(self).wf(),
            match r {
                Some(t) => {
                    let i = key_position(old(self).table_keys(), lowercase(name@));
                    &&& old(self).table_keys().contains(lowercase(name@))
                    &&& *t == old(self).table_at(i)
                    &&& final(self).table_at(i) == *final(t)
                    &&& forall|j: int|
                        0 <= j < old(self).table_keys().len() && j != i ==> #[trigger] final(self).table_at(j) == old(self).table_at(j)
                },
                None => !old(self).table_keys().contains(lowercase(name@)) && *final(self)
                    == *old(self),
            },
    {
        let key = to_lowercase(name);
        match find_key(&self.table_names, key.as_str()) {
            Some(i) => {
                proof {
                    lemma_key_position(self.table_keys(), key@, i as int);
                }
                Some(&mut self.tables[i])
            },
            None => None,
        }
    }

    /// The index named `name`, the name folded to lower case.
    pub fn index(&self, name: &str) -> (r: Option<&Index>)
        requires
            self.wf(),
        ensures
            match r {
                Some(x) => exists|i: int|
                    0 <= i < self.index_keys().len() && self.index_keys()[i] == lowercase(name@)
                        && *x == #[trigger] self.index_at(i),
                None => !self.index_keys().contains(lowercase(name@)),
            },
    {
        let key = to_lowercase(name);
        match find_key(&self.index_names, key.as_str()) {
            Some(i) => {
                assert(self.index_at(i as int) == self.indexes@[i as int]);
                Some(&self.indexes[i])
            },
            None => None,
        }
    }

    /// The tables, in the order they were made.
    pub fn tables(&self) -> (ts: Vec<&Table>)
        requires
            self.wf(),
        ensures
            ts@.len() == self.table_keys().len(),
            forall|i: int| 0 <= i < ts@.len() ==> *ts@[i] == #[trigger] self.table_at(i),
    {
        let mut ts: Vec<&Table> = Vec::new();
        let mut i: usize = 0;
        while i < self.tables.len()
            invariant
                self.wf(),
                i <= self.tables@.len(),
                ts@.len() == i,
                forall|j: int| 0 <= j < i ==> *ts@[j] == #[trigger] self.table_at(j),
            decreases self.tables@.len() - i,
        {
            ts.push(&self.tables[i]);
            i = i + 1;
        }
        ts
    }

    /// Whether a table named `name` exists: the schema table under either
    /// of its names, or one made in this schema.
    pub fn has_table(&self, name: &str) -> (b: bool)
        ensures
            b == (lowercase(name@) == "sqlite_schema"@ || lowercase(name@) == "sqlite_master"@
                || self.table_keys().contains(lowercase(name@))),
    {
        let lower = to_lowercase(name);
        if same_str(lower.as_str(), "sqlite_schema") || same_str(lower.as_str(), "sqlite_master") {
            return true;
        }
        find_key(&self.table_names, lower.as_str()).is_some()
    }

    /// Removes the table named `name`. Fails with `Error` "no such table:
    /// NAME" when there is none, unless `if_exists` asks to let it be.
    pub fn drop_table(&mut self, name: &str, if_exists: bool) -> (r: Result<(), SqlliteError>)
        requires
            old(self).wf(),
            old(self).spec_cookie() < u32::MAX,
        ensures
            ({
                let key = lowercase(name@);
                &&& !old(self).table_keys().contains(key) ==> *final(self) == *old(self) && if if_exists {
                    r is Ok
                } else {
                    r matches Err(e) && is_sql_error(e, ResultCode::Error, "no such table: "@ + name@)
                }
                &&& old(self).table_keys().contains(key) ==> r is Ok && final(self).spec_cookie()
                    == old(self).spec_cookie() + 1 && exists|i: int|
                    0 <= i < old(self).table_keys().len() && #[trigger] old(self).table_keys()[i] == key
                        && final(self).table_keys() == old(self).table_keys().remove(i)
                &&& final(self).index_keys() == old(self).index_keys()
                &&& final(self).has_schema_btree() == old(self).has_schema_btree()
                &&& final(self).wf()
            }),
    {
        let key = to_lowercase(name);
        match find_key(&self.table_names, key.as_str()) {
            None => {
                if if_exists {
                    return Ok(());
                }
                let m = message3("no such table: ", name, "");
                proof {
                    reveal_strlit("");
                    assert(m@ =~= "no such table: "@ + name@);
                }
                Err(SqlliteError::sql(ResultCode::Error, m.as_str()))
            },
            Some(i) => {
                let ghost t0 = self.table_names@;
                let _ = self.table_names.remove(i);
                let _ = self.tables.remove(i);
                proof {
                    assert(keys_of(self.table_names@) =~= keys_of(t0).remove(i as int));
                    assert forall|a: int, b: int|
                        0 <= a < b < self.table_keys().len() implies self.table_keys()[a]
                        != self.table_keys()[b] by {
                        let a0 = if a < i { a } else { a + 1 };
                        let b0 = if b < i { b } else { b + 1 };
                        assert(self.table_keys()[a] == keys_of(t0)[a0]);
                        assert(self.table_keys()[b] == keys_of(t0)[b0]);
                    }
                }
                self.schema_cookie = self.schema_cookie + 1;
                Ok(())
            },
        }
    }

    /// The next rowid of the schema table: one past the largest rowid it
    /// holds, 1 when it is empty. Fails with `Full` when the largest rowid is
    /// the largest there is, and with `Corrupt` when the scan does not end
    /// within the number of cells the pages can hold.
    fn next_schema_rowid<F: VfsFile>(&self, pager: &mut Pager<F>, btree: &Btree) -> (r: Result<
        i64,
        SqlliteError,
    >)
        requires
            pager_ready(old(pager)),
        ensures
            pager_ready(final(pager)),
            pager_kept(old(pager), final(pager)),
            final(pager).spec_page_count() == old(pager).spec_page_count(),
            r matches Ok(id) ==> id >= 1,
            empty_leaf_root(old(pager), btree.spec_root_page()) ==> r == Ok::<i64, SqlliteError>(1)
                && (forall|p: PageNo| #[trigger] page_bytes(final(pager), p) == page_bytes(
                old(pager),
                p,
            )) && loadable_kept(old(pager), final(pager)),
    {
        let mut cursor = btree.cursor();
        let mut max_id: i64 = 0;
        let first = match cursor.first(pager) {
            Ok(b) => b,
            Err(e) => return Err(e),
        };
        if first {
            let mut fuel: u64 = (pager.page_count() as u64 + 1) * 65536;
            loop
                invariant
                    pager_ready(pager),
                    pager_kept(old(pager), pager),
                    pager.spec_page_count() == old(pager).spec_page_count(),
                    cursor.wf(),
                    max_id >= 0,
                    !empty_leaf_root(old(pager), btree.spec_root_page()),
                decreases fuel,
            {
                if let Some(id) = cursor.key() {
                    if id > max_id {
                        max_id = id;
                    }
                }
                match cursor.next(pager) {
                    Ok(true) => {},
                    Ok(false) => break,
                    Err(e) => return Err(e),
                }
                if fuel == 0 {
                    return Err(SqlliteError::sql(ResultCode::Corrupt, "b-tree scan does not end"));
                }
                fuel = fuel - 1;
            }
        }
        if max_id == i64::MAX {
            return Err(SqlliteError::sql(ResultCode::Full, "database or disk is full"));
        }
        Ok(max_id + 1)
    }

    /// Records an object in the schema table: its type, its name (twice),
    /// its root page and its SQL text, under the next rowid. The schema
    /// table's b-tree is made first when there is none.
    fn insert_schema_row<F: VfsFile>(
        &mut self,
        pager: &mut Pager<F>,
        name: &str,
        obj_type: &str,
        root_page: u32,
        sql: &str,
    ) -> (r: Result<(), SqlliteError>)
        requires
            pager_ready(old(pager)),
            old(self).wf(),
        ensures
            pager_ready(final(pager)),
            pager_kept(old(pager), final(pager)),
            final(self).wf(),
            final(self).table_keys() == old(self).table_keys(),
            final(self).index_keys() == old(self).index_keys(),
            forall|i: int| 0 <= i < old(self).table_keys().len() ==> #[trigger] final(self).table_at(i) == old(self).table_at(i),
            forall|i: int| 0 <= i < old(self).index_keys().len() ==> #[trigger] final(self).index_at(i) == old(self).index_at(i),
            final(self).spec_cookie() == old(self).spec_cookie(),
            r is Ok ==> final(self).has_schema_btree(),
            old(self).has_schema_btree() ==> final(self).has_schema_btree(),
            ({
                let row = schema_row(obj_type@, name@, root_page, sql@);
                let cell = crate::btree::table_cell(1, crate::record::record_bytes(row));
                let root = old(self).schema_root();
                old(self).has_schema_btree() && empty_leaf_root(old(pager), root) && text_fits(
                    obj_type@,
                ) && text_fits(name@) && text_fits(sql@) && crate::record::record_bytes(row).len()
                    < 0x8000000000000000 && leaf_takes_cell(old(pager), root, cell, 1) ==> r is Ok
                    && cell_placed(old(pager), final(pager), root, cell, 1)
            }),
    {
        let mut btree = match self.schema_btree.take() {
            Some(b) => b,
            None => match Btree::create_table(pager) {
                Ok((b, _)) => b,
                Err(e) => return Err(e),
            },
        };
        let rowid = match self.next_schema_rowid(pager, &btree) {
            Ok(id) => id,
            Err(e) => {
                self.schema_btree = Some(btree);
                return Err(e);
            },
        };
        let values = vec![
            Value::Text(string_of(chars_of(obj_type).as_slice())),
            Value::Text(string_of(chars_of(name).as_slice())),
            Value::Text(string_of(chars_of(name).as_slice())),
            Value::Integer(root_page as i64),
            Value::Text(string_of(chars_of(sql).as_slice())),
        ];
        if !value_fits(&values[0]) || !value_fits(&values[1]) || !value_fits(&values[2])
            || !value_fits(&values[4]) {
            self.schema_btree = Some(btree);
            return Err(SqlliteError::sql(ResultCode::TooBig, "string or blob too big"));
        }
        assert forall|j: int| 0 <= j < values@.len() implies serial_type_of(#[trigger] values@[j]@)
            < 0x8000000000000000 && serial_type_of(values@[j]@) <= usize::MAX by {
            if j == 3 {
                assert(values@[3]@ == ValueView::Integer(root_page as i64));
            }
        }
        assert(crate::record::views(values@) =~= schema_row(obj_type@, name@, root_page, sql@));
        let r = btree_insert_row(&mut btree, pager, rowid, values.as_slice());
        self.schema_btree = Some(btree);
        r
    }

    /// Makes the schema table's b-tree and registers the schema table
    /// `sqlite_schema` (type, name, tbl_name, rootpage, sql) under its
    /// name; nothing happens when the b-tree is there already.
    pub fn init_schema_table<F: VfsFile>(&mut self, pager: &mut Pager<F>) -> (r: Result<
        (),
        SqlliteError,
    >)
        requires
            pager_ready(old(pager)),
            old(self).wf(),
        ensures
            pager_ready(final(pager)),
            pager_kept(old(pager), final(pager)),
            final(self).wf(),
            final(self).index_keys() == old(self).index_keys(),
            final(self).spec_cookie() == old(self).spec_cookie(),
            old(self).has_schema_btree() ==> r is Ok && *final(self) == *old(self)
                && *final(pager) == *old(pager),
            can_add_page(old(pager)) ==> r is Ok,
            !old(self).has_schema_btree() && r is Ok ==> final(self).has_schema_btree()
                && final(self).table_keys().contains(lowercase("sqlite_schema"@)) && is_schema_table(
                final(self).table_at(
                    key_position(final(self).table_keys(), lowercase("sqlite_schema"@)),
                ),
                final(self).schema_root(),
            ),
    {
        if self.schema_btree.is_some() {
            return Ok(());
        }
        let (btree, root_page) = match Btree::create_table(pager) {
            Ok(p) => p,
            Err(e) => return Err(e),
        };
        self.schema_btree = Some(btree);
        let names = ["type", "name", "tbl_name", "rootpage", "sql"];
        proof {
            reveal_strlit("type");
            reveal_strlit("name");
            reveal_strlit("tbl_name");
            reveal_strlit("rootpage");
            reveal_strlit("sql");
            assert(names@[0]@ == schema_column_name(0));
            assert(names@[1]@ == schema_column_name(1));
            assert(names@[2]@ == schema_column_name(2));
            assert(names@[3]@ == schema_column_name(3));
            assert(names@[4]@ == schema_column_name(4));
        }
        let mut columns: Vec<Column> = Vec::new();
        let mut k: usize = 0;
        while k < 5
            invariant
                k <= 5,
                names@.len() == 5,
                forall|j: int| 0 <= j < 5 ==> #[trigger] names@[j]@ == schema_column_name(j),
                columns@.len() == k,
                forall|j: int|
                    0 <= j < k ==> plain_column(
                        #[trigger] columns@[j],
                        schema_column_name(j),
                        if j == 3 {
                            Affinity::Integer
                        } else {
                            Affinity::Text
                        },
                    ),
            decreases 5 - k,
        {
            let affinity = if k == 3 {
                Affinity::Integer
            } else {
                Affinity::Text
            };
            columns.push(
                Column {
                    name: string_of(chars_of(names[k]).as_slice()),
                    affinity,
                    not_null: false,
                    primary_key: false,
                    autoincrement: false,
                    default_value: None,
                },
            );
            k = k + 1;
        }
        let schema_table = Table {
            name: string_of(chars_of("sqlite_schema").as_slice()),
            root_page,
            columns,
            rowid_alias: Some(string_of(chars_of("rowid").as_slice())),
        };
        proof {
            reveal_strlit("sqlite_schema");
            reveal_strlit("rowid");
        }
        assert(is_schema_table(schema_table, root_page));
        let key = to_lowercase("sqlite_schema");
        let ghost names0 = self.table_names@;
        match find_key(&self.table_names, key.as_str()) {
            Some(i) => {
                self.tables.set(i, schema_table);
                proof {
                    assert(self.table_keys().contains(key@)) by {
                        assert(self.table_keys()[i as int] == key@);
                    }
                    lemma_key_position(self.table_keys(), key@, i as int);
                }
            },
            None => {
                self.table_names.push(key);
                self.tables.push(schema_table);
                proof {
                    assert(keys_of(self.table_names@) =~= keys_of(names0).push(key@));
                    assert(self.table_keys()[names0.len() as int] == key@);
                    lemma_key_position(self.table_keys(), key@, names0.len() as int);
                }
            },
        }
        Ok(())
    }

    /// Creates a table: a new table b-tree, its row in the schema table and
    /// its entry in the catalog, and advances the schema cookie. A table of
    /// the same name (folded to lower case) fails with `Error` "table NAME
    /// already exists", or changes nothing under IF NOT EXISTS.
    pub fn create_table<F: VfsFile>(&mut self, pager: &mut Pager<F>, create: &CreateTable) -> (r:
        Result<(), SqlliteError>)
        requires
            pager_ready(old(pager)),
            old(self).wf(),
            old(self).spec_cookie() < u32::MAX,
        ensures
            pager_ready(final(pager)),
            pager_kept(old(pager), final(pager)),
            final(self).wf(),
            final(self).index_keys() == old(self).index_keys(),
            ({
                let key = lowercase(create.name@);
                &&& old(self).table_keys().contains(key) ==> *final(self) == *old(self)
                    && *final(pager) == *old(pager) && if create.if_not_exists {
                    r is Ok
                } else {
                    r matches Err(e) && is_sql_error(
                        e,
                        ResultCode::Error,
                        "table "@ + create.name@ + " already exists"@,
                    )
                }
                &&& !old(self).table_keys().contains(key) && r is Ok ==> {
                    let n = old(self).table_keys().len() as int;
                    let t = final(self).table_at(n);
                    &&& final(self).table_keys() == old(self).table_keys().push(key)
                    &&& forall|i: int| 0 <= i < n ==> #[trigger] final(self).table_at(i) == old(self).table_at(i)
                    &&& final(self).spec_cookie() == old(self).spec_cookie() + 1
                    &&& final(self).has_schema_btree()
                    &&& t.name@ == create.name@
                    &&& t.root_page == old(pager).spec_page_count() + 1
                    &&& t.rowid_alias is None
                    &&& t.columns@.len() == create.columns@.len()
                    &&& forall|j: int|
                        0 <= j < t.columns@.len() ==> column_matches(
                            #[trigger] t.columns@[j],
                            create.columns@[j],
                        )
                }
                &&& r is Err ==> final(self).table_keys() == old(self).table_keys()
                    && final(self).spec_cookie() == old(self).spec_cookie()
            }),
    {
        let key = to_lowercase(create.name.as_str());
        if find_key(&self.table_names, key.as_str()).is_some() {
            if create.if_not_exists {
                return Ok(());
            }
            let m = message3("table ", create.name.as_str(), " already exists");
            return Err(SqlliteError::sql(ResultCode::Error, m.as_str()));
        }
        let (_, root_page) = match Btree::create_table(pager) {
            Ok(p) => p,
            Err(e) => return Err(e),
        };
        let mut columns: Vec<Column> = Vec::new();
        let mut j: usize = 0;
        while j < create.columns.len()
            invariant
                j <= create.columns@.len(),
                columns@.len() == j,
                forall|k: int| 0 <= k < j ==> column_matches(#[trigger] columns@[k], create.columns@[k]),
            decreases create.columns@.len() - j,
        {
            columns.push(column_def_to_column(&create.columns[j]));
            j = j + 1;
        }
        let table = Table {
            name: string_of(chars_of(create.name.as_str()).as_slice()),
            root_page,
            columns,
            rowid_alias: None,
        };
        let sql = create_sql(create);
        match self.insert_schema_row(pager, create.name.as_str(), "table", root_page, sql.as_str()) {
            Ok(()) => {},
            Err(e) => return Err(e),
        }
        let ghost after_row = *self;
        let ghost names0 = self.table_names@;
        let ghost tables0 = self.tables@;
        self.table_names.push(key);
        self.tables.push(table);
        proof {
            assert(keys_of(self.table_names@) =~= keys_of(names0).push(key@));
            assert forall|i: int| 0 <= i < names0.len() implies #[trigger] self.tables@[i] == tables0[i] by {}
            assert forall|a: int, b: int|
                0 <= a < b < self.table_keys().len() implies self.table_keys()[a] != self.table_keys()[b] by {
                if b == names0.len() {
                    assert(keys_of(names0)[a] == self.table_keys()[a]);
                }
            }
        }
        let ghost before_bump = *self;
        self.bump_cookie();
        proof {
            let n = old(self).table_keys().len() as int;
            assert(before_bump.table_at(n) == table);
            assert(self.table_at(n) == before_bump.table_at(n));
            assert(self.table_keys() == old(self).table_keys().push(key@));
            assert forall|i: int| 0 <= i < n implies #[trigger] self.table_at(i) == old(self).table_at(i) by {
                assert(self.table_at(i) == before_bump.table_at(i));
                assert(before_bump.table_at(i) == after_row.table_at(i));
                assert(after_row.table_at(i) == old(self).table_at(i));
            }
        }
        Ok(())
    }

    /// Creates an index on columns of a table: a new index b-tree filled
    /// with an entry for every row of the table (the values of the columns,
    /// NULL for a value the row lacks, and the rowid), its row in the schema
    /// table and its entry in the catalog, and advances the schema cookie.
    /// An index of the same name fails with `Error` "index NAME already
    /// exists", or changes nothing under IF NOT EXISTS; a missing table with
    /// "no such table: TABLE"; a missing column with "table TABLE has no
    /// column named COLUMN".
    pub fn create_index<F: VfsFile>(&mut self, pager: &mut Pager<F>, create: &CreateIndex) -> (r:
        Result<(), SqlliteError>)
        requires
            pager_ready(old(pager)),
            old(self).wf(),
            old(self).spec_cookie() < u32::MAX,
        ensures
            pager_ready(final(pager)),
            pager_kept(old(pager), final(pager)),
            final(self).wf(),
            final(self).table_keys() == old(self).table_keys(),
            forall|i: int| 0 <= i < old(self).table_keys().len() ==> #[trigger] final(self).table_at(i) == old(self).table_at(i),
            ({
                let key = lowercase(create.name@);
                let tkey = lowercase(create.table@);
                &&& old(self).index_keys().contains(key) ==> *final(self) == *old(self)
                    && *final(pager) == *old(pager) && if create.if_not_exists {
                    r is Ok
                } else {
                    r matches Err(e) && is_sql_error(
                        e,
                        ResultCode::Error,
                        "index "@ + create.name@ + " already exists"@,
                    )
                }
                &&& !old(self).index_keys().contains(key) && !old(self).table_keys().contains(tkey)
                    ==> *final(self) == *old(self) && *final(pager) == *old(pager) && (r matches Err(
                    e,
                ) && is_sql_error(e, ResultCode::Error, "no such table: "@ + create.table@))
                &&& !old(self).index_keys().contains(key) && old(self).table_keys().contains(tkey)
                    ==> {
                    let t = old(self).table_at(key_position(old(self).table_keys(), tkey));
                    &&& forall|m: int|
                        #[trigger] first_missing_column(t, create.columns@, m) ==> *final(self)
                            == *old(self) && *final(pager) == *old(pager) && (r matches Err(e)
                            && is_sql_error(
                            e,
                            ResultCode::Error,
                            "table "@ + create.table@ + " has no column named "@
                                + create.columns@[m]@,
                        ))
                    &&& r is Ok ==> forall|j: int|
                        0 <= j < create.columns@.len() ==> has_column_named(t, #[trigger] create.columns@[j]@)
                }
                &&& !old(self).index_keys().contains(key) && r is Ok ==> {
                    let n = old(self).index_keys().len() as int;
                    let x = final(self).index_at(n);
                    &&& final(self).index_keys() == old(self).index_keys().push(key)
                    &&& forall|i: int| 0 <= i < n ==> #[trigger] final(self).index_at(i) == old(self).index_at(i)
                    &&& final(self).spec_cookie() == old(self).spec_cookie() + 1
                    &&& x.name@ == create.name@
                    &&& x.table@ == create.table@
                    &&& keys_of(x.columns@) == keys_of(create.columns@)
                    &&& x.root_page == old(pager).spec_page_count() + 1
                    &&& x.unique == create.unique
                }
                &&& r is Err ==> final(self).index_keys() == old(self).index_keys()
                    && final(self).spec_cookie() == old(self).spec_cookie()
            }),
    {
        let key = to_lowercase(create.name.as_str());
        if find_key(&self.index_names, key.as_str()).is_some() {
            if create.if_not_exists {
                return Ok(());
            }
            let m = message3("index ", create.name.as_str(), " already exists");
            return Err(SqlliteError::sql(ResultCode::Error, m.as_str()));
        }
        let table = match self.table(create.table.as_str()) {
            Some(t) => t,
            None => {
                let m = message3("no such table: ", create.table.as_str(), "");
                proof {
                    reveal_strlit("");
                    assert(m@ =~= "no such table: "@ + create.table@);
                }
                return Err(SqlliteError::sql(ResultCode::Error, m.as_str()));
            },
        };
        let ghost tpos = choose|i: int|
            0 <= i < self.table_keys().len() && self.table_keys()[i] == lowercase(create.table@)
                && *table == #[trigger] self.table_at(i);
        proof {
            lemma_key_position(self.table_keys(), lowercase(create.table@), tpos);
        }
        assert(*table == old(self).table_at(key_position(old(self).table_keys(), lowercase(create.table@))));
        let mut positions: Vec<usize> = Vec::new();
        let mut c: usize = 0;
        while c < create.columns.len()
            invariant
                c <= create.columns@.len(),
                positions@.len() == c,
                *pager == *old(pager),
                *self == *old(self),
                old(self).wf(),
                pager_ready(pager),
                !old(self).index_keys().contains(key@),
                key@ == lowercase(create.name@),
                old(self).table_keys().contains(lowercase(create.table@)),
                *table == old(self).table_at(key_position(old(self).table_keys(), lowercase(create.table@))),
                forall|j: int| 0 <= j < c ==> has_column_named(*table, #[trigger] create.columns@[j]@),
            decreases create.columns@.len() - c,
        {
            match table.column_index(create.columns[c].as_str()) {
                Some(p) => {
                    assert(has_column_named(*table, create.columns@[c as int]@)) by {
                        assert(eq_ignore_ascii_case(table.columns@[p as int].name@, create.columns@[c as int]@));
                    }
                    positions.push(p);
                },
                None => {
                    let mut cs: Vec<char> = Vec::new();
                    push_str_chars(&mut cs, "table ");
                    push_str_chars(&mut cs, create.table.as_str());
                    push_str_chars(&mut cs, " has no column named ");
                    push_str_chars(&mut cs, create.columns[c].as_str());
                    let m = string_of(cs.as_slice());
                    proof {
                        assert(first_missing_column(*table, create.columns@, c as int));
                        assert forall|m2: int| #[trigger] first_missing_column(*table, create.columns@, m2) implies m2 == c by {
                            if m2 < c {
                                assert(has_column_named(*table, create.columns@[m2]@));
                            } else if m2 > c {
                                assert(has_column_named(*table, create.columns@[c as int]@));
                            }
                        }
                    }
                    return Err(SqlliteError::sql(ResultCode::Error, m.as_str()));
                },
            }
            c = c + 1;
        }
        let table_root = table.root_page;
        if create.columns.len() >= 0x1000_0000 {
            return Err(SqlliteError::sql(ResultCode::TooBig, "string or blob too big"));
        }
        let (mut index_btree, root_page) = match Btree::create_index(pager) {
            Ok(p) => p,
            Err(e) => return Err(e),
        };
        let table_btree = Btree::new(table_root, BtreeFlags { intkey: true, blobkey: false });
        let mut cursor = table_btree.cursor();
        let first = match cursor.first(pager) {
            Ok(b) => b,
            Err(e) => return Err(e),
        };
        if first {
            let mut fuel: u64 = (pager.page_count() as u64 + 1) * 65536;
            loop
                invariant
                    pager_ready(pager),
                    pager_kept(old(pager), pager),
                    *self == *old(self),
                    old(self).wf(),
                    !old(self).index_keys().contains(key@),
                    key@ == lowercase(create.name@),
                    old(self).table_keys().contains(lowercase(create.table@)),
                    forall|j: int|
                        0 <= j < create.columns@.len() ==> has_column_named(
                            old(self).table_at(key_position(old(self).table_keys(), lowercase(create.table@))),
                            #[trigger] create.columns@[j]@,
                        ),
                    cursor.wf(),
                    index_btree.spec_flags().blobkey,
                    positions@.len() == create.columns@.len(),
                    create.columns@.len() < 0x1000_0000,
                decreases fuel,
            {
                if let Some(rowid) = cursor.key() {
                    let values = match cursor.values() {
                        Ok(v) => v,
                        Err(e) => return Err(e),
                    };
                    let mut key_values: Vec<Value> = Vec::new();
                    let mut k: usize = 0;
                    while k < positions.len()
                        invariant
                            pager_ready(pager),
                            pager_kept(old(pager), pager),
                            *self == *old(self),
                            old(self).wf(),
                            !old(self).index_keys().contains(key@),
                            key@ == lowercase(create.name@),
                            old(self).table_keys().contains(lowercase(create.table@)),
                            forall|j: int|
                                0 <= j < create.columns@.len() ==> has_column_named(
                                    old(self).table_at(key_position(old(self).table_keys(), lowercase(create.table@))),
                                    #[trigger] create.columns@[j]@,
                                ),
                            k <= positions@.len(),
                            key_values@.len() == k,
                            forall|j: int|
                                0 <= j < k ==> serial_type_of(#[trigger] key_values@[j]@)
                                    < 0x8000000000000000 && serial_type_of(key_values@[j]@)
                                    <= usize::MAX,
                        decreases positions@.len() - k,
                    {
                        let p = positions[k];
                        let v = if p < values.len() {
                            copy_value(&values[p])
                        } else {
                            Value::Null
                        };
                        if !value_fits(&v) {
                            return Err(SqlliteError::sql(ResultCode::TooBig, "string or blob too big"));
                        }
                        key_values.push(v);
                        k = k + 1;
                    }
                    if rowid < 0 {
                        return Err(SqlliteError::sql(ResultCode::Corrupt, "invalid rowid"));
                    }
                    match btree_insert_index(&mut index_btree, pager, key_values.as_slice(), rowid) {
                        Ok(()) => {},
                        Err(e) => return Err(e),
                    }
                }
                match cursor.next(pager) {
                    Ok(true) => {},
                    Ok(false) => break,
                    Err(e) => return Err(e),
                }
                if fuel == 0 {
                    return Err(SqlliteError::sql(ResultCode::Corrupt, "b-tree scan does not end"));
                }
                fuel = fuel - 1;
            }
        }
        let sql = create_index_sql(create);
        match self.insert_schema_row(pager, create.name.as_str(), "index", root_page, sql.as_str()) {
            Ok(()) => {},
            Err(e) => return Err(e),
        }
        let ghost after_row = *self;
        let mut cols: Vec<String> = Vec::new();
        let mut c: usize = 0;
        while c < create.columns.len()
            invariant
                c <= create.columns@.len(),
                keys_of(cols@) == keys_of(create.columns@).take(c as int),
            decreases create.columns@.len() - c,
        {
            let ghost c0 = cols@;
            cols.push(string_of(chars_of(create.columns[c].as_str()).as_slice()));
            proof {
                assert(keys_of(cols@) =~= keys_of(c0).push(create.columns@[c as int]@));
                assert(keys_of(create.columns@).take(c + 1) =~= keys_of(create.columns@).take(
                    c as int,
                ).push(create.columns@[c as int]@));
            }
            c = c + 1;
        }
        assert(keys_of(create.columns@).take(create.columns@.len() as int) =~= keys_of(create.columns@));
        let index = Index {
            name: string_of(chars_of(create.name.as_str()).as_slice()),
            table: string_of(chars_of(create.table.as_str()).as_slice()),
            columns: cols,
            root_page,
            unique: create.unique,
        };
        let ghost names0 = self.index_names@;
        let ghost indexes0 = self.indexes@;
        self.index_names.push(key);
        self.indexes.push(index);
        proof {
            assert(keys_of(self.index_names@) =~= keys_of(names0).push(key@));
            assert forall|i: int| 0 <= i < names0.len() implies #[trigger] self.indexes@[i] == indexes0[i] by {}
            assert forall|a: int, b: int|
                0 <= a < b < self.index_keys().len() implies self.index_keys()[a] != self.index_keys()[b] by {
                if b == names0.len() {
                    assert(keys_of(names0)[a] == self.index_keys()[a]);
                }
            }
        }
        let ghost before_bump = *self;
        self.bump_cookie();
        proof {
            let n = old(self).index_keys().len() as int;
            assert(before_bump.index_at(n) == index);
            assert forall|i: int| 0 <= i < n implies #[trigger] self.index_at(i) == old(self).index_at(i) by {
                assert(before_bump.index_at(i) == after_row.index_at(i));
            }
            assert forall|i: int| 0 <= i < old(self).table_keys().len() implies #[trigger] self.table_at(i)
                == old(self).table_at(i) by {
                assert(before_bump.table_at(i) == after_row.table_at(i));
            }
        }
        Ok(())
    }
}

} // verus!
