//! SQL statements to VDBE programs.
//!
//! Register numbers are `i32` operands: a statement whose expressions or
//! columns would need a register past `i32::MAX` is refused with `TooBig`.

use vstd::prelude::*;

use crate::ast::{
    BinaryOp, CreateTable, Delete, DropTable, Expr, Insert, Pragma, ResultColumn, Select, Statement,
    TableRef, UnaryOp, Update,
};
use crate::error::{is_sql_error, ResultCode, SqlliteError};
use crate::program::{ins, Insn, InsnP4, InsnView, Opcode, P4View, Program};
use crate::schema::{
    eq_ignore_ascii_case, first_missing_column, has_column_named, key_position, lowercase, Schema, Table,
};
use crate::parser::{decimal, decimal_text};
use crate::text::{chars_of, push_str_chars, string_of};

verus! {

/// What a program holds: its instructions, the registers it asks for and
/// whether it only reads.
pub struct ProgramView {
    pub code: Seq<InsnView>,
    pub n_reg: nat,
    pub read_only: bool,
}

/// The view of `p`.
pub open spec fn program_view(p: Program) -> ProgramView {
    ProgramView { code: p.code(), n_reg: p.n_reg as nat, read_only: p.read_only }
}

/// The opcode of a binary operator in an expression.
pub open spec fn binary_opcode(op: BinaryOp) -> Opcode {
    match op {
        BinaryOp::Add => Opcode::Add,
        BinaryOp::Sub => Opcode::Subtract,
        BinaryOp::Mul => Opcode::Multiply,
        BinaryOp::Div => Opcode::Divide,
        BinaryOp::Mod => Opcode::Remainder,
        BinaryOp::Concat => Opcode::Concat,
        BinaryOp::And => Opcode::And,
        BinaryOp::Or => Opcode::Or,
        BinaryOp::NotEq => Opcode::Ne,
        BinaryOp::Lt => Opcode::Lt,
        BinaryOp::Le => Opcode::Le,
        BinaryOp::Gt => Opcode::Gt,
        BinaryOp::Ge => Opcode::Ge,
        _ => Opcode::Eq,
    }
}

/// The opcode of a comparison in a WHERE clause: any other operator
/// compares for equality.
pub open spec fn compare_opcode(op: BinaryOp) -> Opcode {
    match op {
        BinaryOp::NotEq => Opcode::Ne,
        BinaryOp::Lt => Opcode::Lt,
        BinaryOp::Le => Opcode::Le,
        BinaryOp::Gt => Opcode::Gt,
        BinaryOp::Ge => Opcode::Ge,
        _ => Opcode::Eq,
    }
}

/// The opcode of a unary operator: negation subtracts, any other operator
/// than `-` negates logically.
pub open spec fn unary_opcode(op: UnaryOp) -> Opcode {
    match op {
        UnaryOp::Minus => Opcode::Subtract,
        _ => Opcode::Not,
    }
}

fn binary_opcode_of(op: BinaryOp) -> (o: Opcode)
    ensures
        o == binary_opcode(op),
{
    match op {
        BinaryOp::Add => Opcode::Add,
        BinaryOp::Sub => Opcode::Subtract,
        BinaryOp::Mul => Opcode::Multiply,
        BinaryOp::Div => Opcode::Divide,
        BinaryOp::Mod => Opcode::Remainder,
        BinaryOp::Concat => Opcode::Concat,
        BinaryOp::And => Opcode::And,
        BinaryOp::Or => Opcode::Or,
        BinaryOp::NotEq => Opcode::Ne,
        BinaryOp::Lt => Opcode::Lt,
        BinaryOp::Le => Opcode::Le,
        BinaryOp::Gt => Opcode::Gt,
        BinaryOp::Ge => Opcode::Ge,
        _ => Opcode::Eq,
    }
}

/// What a comparison operator says of two values whose order is `c`:
/// negative when the left one is the smaller, zero when they are equal,
/// positive when it is the larger.
pub open spec fn operator_holds(op: BinaryOp, c: int) -> bool {
    match op {
        BinaryOp::Eq => c == 0,
        BinaryOp::NotEq => c != 0,
        BinaryOp::Lt => c < 0,
        BinaryOp::Le => c <= 0,
        BinaryOp::Gt => c > 0,
        BinaryOp::Ge => c >= 0,
        _ => false,
    }
}

/// The instruction that a WHERE comparison `=`, `!=`, `<` or `>` compiles to
/// holds of two values exactly when the operator holds of them. The
/// instructions of `<=` and `>=` test, as the virtual machine runs them,
/// that the left value is not below, resp. not above, the right one: `<=`
/// holds where `>=` does and `>=` where `<=` does.
pub proof fn lemma_where_comparison(op: BinaryOp, a: crate::types::ValueView, b: crate::types::ValueView)
    ensures
        ({
            let c = crate::vdbe::value_order(a, b);
            let holds = crate::vdbe::comparison_holds(compare_opcode(op), c);
            &&& (op is Eq || op is NotEq || op is Lt || op is Gt) ==> (holds <==> operator_holds(op, c))
            &&& op is Le ==> (holds <==> operator_holds(BinaryOp::Ge, c))
            &&& op is Ge ==> (holds <==> operator_holds(BinaryOp::Le, c))
        }),
{
}

fn compare_opcode_of(op: BinaryOp) -> (o: Opcode)
    ensures
        o == compare_opcode(op),
{
    match op {
        BinaryOp::NotEq => Opcode::Ne,
        BinaryOp::Lt => Opcode::Lt,
        BinaryOp::Le => Opcode::Le,
        BinaryOp::Gt => Opcode::Gt,
        BinaryOp::Ge => Opcode::Ge,
        _ => Opcode::Eq,
    }
}

/// The highest register the code of `e`, computed into `reg`, uses.
pub open spec fn top_reg(e: Expr, reg: int) -> int
    decreases e,
{
    match e {
        Expr::BinaryOp { op, left, right } => {
            let a = top_reg(*left, reg + 1);
            let b = top_reg(*right, reg + 2);
            let m = if a < b {
                b
            } else {
                a
            };
            if m < reg + 2 {
                reg + 2
            } else {
                m
            }
        },
        Expr::UnaryOp { op, expr } => {
            let a = top_reg(*expr, reg + 1);
            if a < reg + 1 {
                reg + 1
            } else {
                a
            }
        },
        _ => reg,
    }
}

/// The code that computes `e` into register `reg`: literals are loaded, an
/// operator computes its operands into the next two registers first, and
/// any other expression gives NULL.
pub open spec fn expr_code(e: Expr, reg: int) -> Seq<InsnView>
    decreases e,
{
    match e {
        Expr::Null => seq![ins(Opcode::Null, reg as i32, 0, 0, P4View::Nothing)],
        Expr::Integer(n) => seq![ins(Opcode::Integer, reg as i32, n as i32, 0, P4View::Nothing)],
        Expr::Real(b) => seq![ins(Opcode::Real, reg as i32, 0, 0, P4View::Real(b))],
        Expr::String(s) => seq![ins(Opcode::String, reg as i32, 0, 0, P4View::String(s@))],
        Expr::BinaryOp { op, left, right } => expr_code(*left, reg + 1) + expr_code(*right, reg + 2)
            + seq![
            ins(binary_opcode(op), reg as i32, (reg + 1) as i32, (reg + 2) as i32, P4View::Nothing),
        ],
        Expr::UnaryOp { op, expr } => expr_code(*expr, reg + 1) + seq![
            ins(unary_opcode(op), reg as i32, (reg + 1) as i32, 0, P4View::Nothing),
        ],
        _ => seq![ins(Opcode::Null, reg as i32, 0, 0, P4View::Nothing)],
    }
}

/// Whether the code of `e` computed into `reg` uses only registers up to
/// `i32::MAX`.
fn expr_fits(e: &Expr, reg: i32) -> (b: bool)
    ensures
        b == (top_reg(*e, reg as int) <= i32::MAX),
    decreases e,
{
    match e {
        Expr::BinaryOp { op, left, right } => {
            if reg > i32::MAX - 2 {
                return false;
            }
            expr_fits(left, reg + 1) && expr_fits(right, reg + 2)
        },
        Expr::UnaryOp { op, expr } => {
            if reg > i32::MAX - 1 {
                return false;
            }
            expr_fits(expr, reg + 1)
        },
        _ => true,
    }
}

/// Appends the code that computes `expr` into register `reg`.
fn compile_expr(prog: &mut Program, expr: &Expr, reg: i32) -> (r: Result<(), SqlliteError>)
    requires
        top_reg(*expr, reg as int) <= i32::MAX,
    ensures
        r is Ok,
        final(prog).code() == old(prog).code() + expr_code(*expr, reg as int),
        final(prog).n_reg == old(prog).n_reg,
        final(prog).read_only == old(prog).read_only,
    decreases expr,
{
    let ghost c0 = prog.code();
    match expr {
        Expr::Null => {
            prog.emit(Insn { opcode: Opcode::Null, p1: reg, p2: 0, p3: 0, p4: InsnP4::Nothing, p5: 0 });
        },
        Expr::Integer(n) => {
            prog.emit(
                Insn { opcode: Opcode::Integer, p1: reg, p2: *n as i32, p3: 0, p4: InsnP4::Nothing, p5: 0 },
            );
        },
        Expr::Real(b) => {
            prog.emit(
                Insn { opcode: Opcode::Real, p1: reg, p2: 0, p3: 0, p4: InsnP4::Real(*b), p5: 0 },
            );
        },
        Expr::String(s) => {
            prog.emit(
                Insn {
                    opcode: Opcode::String,
                    p1: reg,
                    p2: 0,
                    p3: 0,
                    p4: InsnP4::String(s.clone()),
                    p5: 0,
                },
            );
        },
        Expr::BinaryOp { op, left, right } => {
            let _ = compile_expr(prog, left, reg + 1);
            let _ = compile_expr(prog, right, reg + 2);
            let opcode = binary_opcode_of(*op);
            prog.emit(
                Insn { opcode, p1: reg, p2: reg + 1, p3: reg + 2, p4: InsnP4::Nothing, p5: 0 },
            );
            assert(prog.code() =~= c0 + expr_code(*expr, reg as int));
        },
        Expr::UnaryOp { op, expr: inner } => {
            let _ = compile_expr(prog, inner, reg + 1);
            let opcode = match op {
                UnaryOp::Minus => Opcode::Subtract,
                _ => Opcode::Not,
            };
            prog.emit(Insn { opcode, p1: reg, p2: reg + 1, p3: 0, p4: InsnP4::Nothing, p5: 0 });
            assert(prog.code() =~= c0 + expr_code(*expr, reg as int));
        },
        _ => {
            prog.emit(Insn { opcode: Opcode::Null, p1: reg, p2: 0, p3: 0, p4: InsnP4::Nothing, p5: 0 });
        },
    }
    assert(prog.code() =~= c0 + expr_code(*expr, reg as int));
    Ok(())
}

/// Column `i` is the first of `t` named `name`, the case of ASCII letters
/// aside.
pub open spec fn is_first_column(t: Table, name: Seq<char>, i: int) -> bool {
    &&& 0 <= i < t.columns@.len()
    &&& eq_ignore_ascii_case(t.columns@[i].name@, name)
    &&& forall|j: int| 0 <= j < i ==> !eq_ignore_ascii_case(#[trigger] t.columns@[j].name@, name)
}

/// The position of the first column of `t` named `name`; 0 when there is
/// none.
pub open spec fn column_pos(t: Table, name: Seq<char>) -> int {
    if has_column_named(t, name) {
        choose|i: int| is_first_column(t, name, i)
    } else {
        0
    }
}

/// The first column of a table named `name` is the one `column_index`
/// finds.
proof fn lemma_column_pos(t: Table, name: Seq<char>, r: Option<usize>)
    requires
        match r {
            Some(i) => i < t.columns@.len() && eq_ignore_ascii_case(t.columns@[i as int].name@, name)
                && forall|j: int|
                0 <= j < i ==> !eq_ignore_ascii_case(#[trigger] t.columns@[j].name@, name),
            None => forall|j: int|
                0 <= j < t.columns@.len() ==> !eq_ignore_ascii_case(
                    #[trigger] t.columns@[j].name@,
                    name,
                ),
        },
    ensures
        has_column_named(t, name) <==> r is Some,
        r matches Some(i) ==> column_pos(t, name) == i,
{
    match r {
        Some(i) => {
            assert(is_first_column(t, name, i as int));
            let c = choose|k: int| is_first_column(t, name, k);
            if c < i {
                assert(!eq_ignore_ascii_case(t.columns@[c].name@, name));
            }
            if c > i {
                assert(!eq_ignore_ascii_case(t.columns@[i as int].name@, name));
            }
        },
        None => {
            if has_column_named(t, name) {
                let j = choose|j: int|
                    0 <= j < t.columns@.len() && eq_ignore_ascii_case(
                        #[trigger] t.columns@[j].name@,
                        name,
                    );
                assert(!eq_ignore_ascii_case(t.columns@[j].name@, name));
            }
        },
    }
}

/// The code that loads `e` into `dest`: a column of `t` read through
/// `cursor` when `e` names one, else the code of `e`.
pub open spec fn col_expr_code(e: Expr, t: Table, cursor: int, dest: int) -> Seq<InsnView> {
    match e {
        Expr::Ident(name) => if has_column_named(t, name@) {
            seq![
                ins(
                    Opcode::Column,
                    dest as i32,
                    cursor as i32,
                    column_pos(t, name@) as i32,
                    P4View::Nothing,
                ),
            ]
        } else {
            expr_code(e, dest)
        },
        _ => expr_code(e, dest),
    }
}

/// The code of a WHERE condition into `dest`: a comparison whose left side
/// may name a column of `t`, else the value of the condition.
pub open spec fn where_code(e: Expr, t: Table, cursor: int, dest: int) -> Seq<InsnView> {
    match e {
        Expr::BinaryOp { op, left, right } => col_expr_code(*left, t, cursor, dest + 1) + expr_code(
            *right,
            dest + 2,
        ) + seq![
            ins(compare_opcode(op), dest as i32, (dest + 1) as i32, (dest + 2) as i32, P4View::Nothing),
        ],
        _ => col_expr_code(e, t, cursor, dest),
    }
}

fn compile_expr_with_columns(prog: &mut Program, expr: &Expr, table: &Table, cursor: i32, dest_reg: i32) -> (r:
    Result<(), SqlliteError>)
    requires
        top_reg(*expr, dest_reg as int) <= i32::MAX,
    ensures
        r is Ok,
        final(prog).code() == old(prog).code() + col_expr_code(*expr, *table, cursor as int, dest_reg as int),
        final(prog).n_reg == old(prog).n_reg,
        final(prog).read_only == old(prog).read_only,
{
    if let Expr::Ident(name) = expr {
        let idx = table.column_index(name.as_str());
        proof {
            lemma_column_pos(*table, name@, idx);
        }
        if let Some(i) = idx {
            let ghost c0 = prog.code();
            prog.emit(
                Insn {
                    opcode: Opcode::Column,
                    p1: dest_reg,
                    p2: cursor,
                    p3: i as i32,
                    p4: InsnP4::Nothing,
                    p5: 0,
                },
            );
            return Ok(());
        }
    }
    compile_expr(prog, expr, dest_reg)
}

/// The highest register of the code of a WHERE condition into `dest`.
pub open spec fn where_fits(e: Expr, dest: int) -> bool {
    top_reg(e, dest) <= i32::MAX
}

fn compile_where_expr(prog: &mut Program, expr: &Expr, table: &Table, cursor: i32, dest_reg: i32) -> (r:
    Result<(), SqlliteError>)
    requires
        where_fits(*expr, dest_reg as int),
    ensures
        r is Ok,
        final(prog).code() == old(prog).code() + where_code(*expr, *table, cursor as int, dest_reg as int),
        final(prog).n_reg == old(prog).n_reg,
        final(prog).read_only == old(prog).read_only,
{
    let ghost c0 = prog.code();
    match expr {
        Expr::BinaryOp { op, left, right } => {
            let _ = compile_expr_with_columns(prog, left, table, cursor, dest_reg + 1);
            let _ = compile_expr(prog, right, dest_reg + 2);
            let opcode = compare_opcode_of(*op);
            prog.emit(
                Insn {
                    opcode,
                    p1: dest_reg,
                    p2: dest_reg + 1,
                    p3: dest_reg + 2,
                    p4: InsnP4::Nothing,
                    p5: 0,
                },
            );
            assert(prog.code() =~= c0 + where_code(*expr, *table, cursor as int, dest_reg as int));
        },
        _ => {
            let _ = compile_expr_with_columns(prog, expr, table, cursor, dest_reg);
        },
    }
    Ok(())
}


/// The error of a statement that would need a register past `i32::MAX`.
pub open spec fn too_many_registers() -> (ResultCode, Seq<char>) {
    (ResultCode::TooBig, "too many registers"@)
}

/// How many registers result column `c` fills: the columns of `t` for `*`,
/// else one.
pub open spec fn col_width(c: ResultColumn, t: Table) -> int {
    if c.expr is Star {
        t.columns@.len() as int
    } else {
        1
    }
}

/// The first register after the result columns `cols`.
pub open spec fn regs_before(cols: Seq<ResultColumn>, t: Table) -> int
    decreases cols.len(),
{
    if cols.len() == 0 {
        0
    } else {
        regs_before(cols.drop_last(), t) + col_width(cols.last(), t)
    }
}

/// The code that loads result column `c` of a scan of `t` (cursor 0) from
/// register `reg` on: every column for `*`, a named column, or the value of
/// an expression.
pub open spec fn result_col_code(c: ResultColumn, t: Table, reg: int) -> Seq<InsnView> {
    match c.expr {
        Expr::Star => Seq::new(
            t.columns@.len(),
            |j: int| ins(Opcode::Column, (reg + j) as i32, 0, j as i32, P4View::Nothing),
        ),
        Expr::Ident(name) => seq![
            ins(Opcode::Column, reg as i32, 0, column_pos(t, name@) as i32, P4View::Nothing),
        ],
        Expr::QualifiedIdent { table, column } => seq![
            ins(Opcode::Column, reg as i32, 0, column_pos(t, column@) as i32, P4View::Nothing),
        ],
        e => expr_code(e, reg),
    }
}

/// The code that loads the result columns `cols`, one after another.
pub open spec fn result_cols_code(cols: Seq<ResultColumn>, t: Table) -> Seq<InsnView>
    decreases cols.len(),
{
    if cols.len() == 0 {
        Seq::empty()
    } else {
        result_cols_code(cols.drop_last(), t) + result_col_code(
            cols.last(),
            t,
            regs_before(cols.drop_last(), t),
        )
    }
}

/// Result column `c` from register `reg` on leaves the register after it
/// within `i32`.
pub open spec fn result_col_fits(c: ResultColumn, t: Table, reg: int) -> bool {
    &&& reg + col_width(c, t) <= i32::MAX
    &&& !(c.expr is Star || c.expr is Ident || c.expr is QualifiedIdent) ==> top_reg(c.expr, reg)
        <= i32::MAX
}

/// Every result column fits.
pub open spec fn result_cols_fit(cols: Seq<ResultColumn>, t: Table) -> bool {
    forall|k: int|
        0 <= k < cols.len() ==> result_col_fits(
            #[trigger] cols[k],
            t,
            regs_before(cols.take(k), t),
        )
}

/// Some result column is `*`.
pub open spec fn has_star(cols: Seq<ResultColumn>) -> bool {
    exists|k: int| 0 <= k < cols.len() && (#[trigger] cols[k]).expr is Star
}

/// The program of a SELECT from table `name`, whose entry is `t`: open a
/// cursor on it, and for each row that meets the WHERE condition load the
/// result columns into the first registers and yield them.
pub open spec fn select_code(s: Select, name: Seq<char>, t: Table) -> Seq<InsnView> {
    let cols = s.columns@;
    let n_cols = if has_star(cols) {
        t.columns@.len() as int
    } else {
        cols.len() as int
    };
    let body = result_cols_code(cols, t);
    let wlen: int = match s.where_clause {
        Some(w) => where_code(w, t, 0, 1).len() + 1int,
        None => 0,
    };
    let row_addr = 3 + wlen + body.len();
    let head = seq![
        ins(Opcode::Init, 0, 1, 0, P4View::Nothing),
        ins(Opcode::OpenRead, 0, 0, 0, P4View::String(name)),
        ins(Opcode::Rewind, 0, (row_addr + 2) as i32, 0, P4View::Nothing),
    ];
    let filter = match s.where_clause {
        Some(w) => where_code(w, t, 0, 1) + seq![
            ins(Opcode::IfNot, 1, row_addr as i32, 0, P4View::Nothing),
        ],
        None => Seq::empty(),
    };
    head + filter + body + seq![
        ins(Opcode::ResultRow, n_cols as i32, 0, 0, P4View::Nothing),
        ins(Opcode::Last, 0, 3, 0, P4View::Nothing),
        ins(Opcode::Halt, 0, 0, 0, P4View::Nothing),
    ]
}

/// What compiling `s` against `schema` gives: its program, or the error.
pub open spec fn compiled_select(s: Select, schema: Schema) -> Result<ProgramView, (ResultCode, Seq<char>)> {
    match s.from {
        Some(TableRef::Table { name, alias }) => if !schema.table_keys().contains(lowercase(name@)) {
            Err((ResultCode::Error, "no such table: "@ + name@))
        } else {
            let t = schema.table_at(key_position(schema.table_keys(), lowercase(name@)));
            let where_ok = match s.where_clause {
                Some(w) => where_fits(w, 1),
                None => true,
            };
            if !(where_ok && result_cols_fit(s.columns@, t)) {
                Err(too_many_registers())
            } else {
                Ok(ProgramView { code: select_code(s, name@, t), n_reg: 8, read_only: true })
            }
        },
        _ => Err((ResultCode::Error, "SELECT requires a FROM clause"@)),
    }
}

/// `r` is what the spec `c` says: the program's view, or an error of its
/// code and message.
pub open spec fn compile_outcome(r: Result<Program, SqlliteError>, c: Result<ProgramView, (ResultCode, Seq<char>)>) -> bool {
    match c {
        Ok(v) => r matches Ok(p) && program_view(p) == v,
        Err((code, m)) => r matches Err(e) && is_sql_error(e, code, m),
    }
}

fn error_with(code: ResultCode, parts: &Vec<char>) -> (e: SqlliteError)
    ensures
        is_sql_error(e, code, parts@),
{
    let m = string_of(parts.as_slice());
    SqlliteError::sql(code, m.as_str())
}

fn no_such_table(name: &str) -> (e: SqlliteError)
    ensures
        is_sql_error(e, ResultCode::Error, "no such table: "@ + name@),
{
    let mut cs: Vec<char> = Vec::new();
    push_str_chars(&mut cs, "no such table: ");
    push_str_chars(&mut cs, name);
    error_with(ResultCode::Error, &cs)
}

fn too_many_registers_error() -> (e: SqlliteError)
    ensures
        is_sql_error(e, too_many_registers().0, too_many_registers().1),
{
    SqlliteError::sql(ResultCode::TooBig, "too many registers")
}

proof fn lemma_regs_before_nonneg(cols: Seq<ResultColumn>, t: Table)
    ensures
        regs_before(cols, t) >= 0,
    decreases cols.len(),
{
    if cols.len() > 0 {
        lemma_regs_before_nonneg(cols.drop_last(), t);
    }
}

/// Appends the code that loads result column `col` of a scan of `table`
/// from register `reg` on; returns the register after it. Fails with
/// `TooBig` when the column would need a register past `i32::MAX`.
fn compile_result_column(prog: &mut Program, col: &ResultColumn, table: &Table, reg: i32) -> (r: Result<
    i32,
    SqlliteError,
>)
    requires
        reg >= 0,
    ensures
        final(prog).n_reg == old(prog).n_reg,
        final(prog).read_only == old(prog).read_only,
        r matches Ok(next) ==> result_col_fits(*col, *table, reg as int) && next == reg + col_width(
            *col,
            *table,
        ) && final(prog).code() == old(prog).code() + result_col_code(*col, *table, reg as int),
        r matches Err(e) ==> !result_col_fits(*col, *table, reg as int) && is_sql_error(
            e,
            too_many_registers().0,
            too_many_registers().1,
        ),
{
    let ghost t = *table;
    let ghost c0 = prog.code();
    match &col.expr {
        Expr::Star => {
            let n = table.column_count();
            if n as u64 > (i32::MAX - reg) as u64 {
                return Err(too_many_registers_error());
            }
            let mut j: usize = 0;
            while j < n
                invariant
                    j <= n,
                    n == t.columns@.len(),
                    reg + n <= i32::MAX,
                    reg >= 0,
                    prog.code() == c0 + Seq::new(
                        j as nat,
                        |i: int| ins(Opcode::Column, (reg + i) as i32, 0, i as i32, P4View::Nothing),
                    ),
                    prog.n_reg == old(prog).n_reg,
                    prog.read_only == old(prog).read_only,
                decreases n - j,
            {
                prog.emit(
                    Insn {
                        opcode: Opcode::Column,
                        p1: reg + j as i32,
                        p2: 0,
                        p3: j as i32,
                        p4: InsnP4::Nothing,
                        p5: 0,
                    },
                );
                j = j + 1;
                assert(prog.code() =~= c0 + Seq::new(
                    j as nat,
                    |i: int| ins(Opcode::Column, (reg + i) as i32, 0, i as i32, P4View::Nothing),
                ));
            }
            Ok(reg + n as i32)
        },
        Expr::Ident(name) => {
            if reg == i32::MAX {
                return Err(too_many_registers_error());
            }
            let idx = table.column_index(name.as_str());
            proof {
                lemma_column_pos(t, name@, idx);
            }
            let i = match idx {
                Some(i) => i,
                None => 0,
            };
            prog.emit(
                Insn { opcode: Opcode::Column, p1: reg, p2: 0, p3: i as i32, p4: InsnP4::Nothing, p5: 0 },
            );
            Ok(reg + 1)
        },
        Expr::QualifiedIdent { column: name, .. } => {
            if reg == i32::MAX {
                return Err(too_many_registers_error());
            }
            let idx = table.column_index(name.as_str());
            proof {
                lemma_column_pos(t, name@, idx);
            }
            let i = match idx {
                Some(i) => i,
                None => 0,
            };
            prog.emit(
                Insn { opcode: Opcode::Column, p1: reg, p2: 0, p3: i as i32, p4: InsnP4::Nothing, p5: 0 },
            );
            Ok(reg + 1)
        },
        e => {
            if reg == i32::MAX || !expr_fits(e, reg) {
                return Err(too_many_registers_error());
            }
            let _ = compile_expr(prog, e, reg);
            Ok(reg + 1)
        },
    }
}

/// Appends the code that loads the result columns `cols` of a scan of
/// `table`; returns whether one of them is `*`. Fails with `TooBig` when a
/// column would need a register past `i32::MAX`.
#[verifier::rlimit(40)]
#[verifier::spinoff_prover]
fn compile_result_columns(prog: &mut Program, cols: &Vec<ResultColumn>, table: &Table) -> (r: Result<
    bool,
    SqlliteError,
>)
    ensures
        final(prog).n_reg == old(prog).n_reg,
        final(prog).read_only == old(prog).read_only,
        r matches Ok(star) ==> star == has_star(cols@) && result_cols_fit(cols@, *table)
            && final(prog).code() == old(prog).code() + result_cols_code(cols@, *table),
        r matches Err(e) ==> !result_cols_fit(cols@, *table) && is_sql_error(
            e,
            too_many_registers().0,
            too_many_registers().1,
        ),
{
    let ghost t = *table;
    let ghost cs = cols@;
    let ghost before_cols = prog.code();
    let mut star = false;
    let mut col_reg: i32 = 0;
    let mut k: usize = 0;
    while k < cols.len()
        invariant
            k <= cs.len(),
            cs == cols@,
            t == *table,
            col_reg == regs_before(cs.take(k as int), t),
            col_reg >= 0,
            star <==> has_star(cs.take(k as int)),
            prog.code() == before_cols + result_cols_code(cs.take(k as int), t),
            forall|j: int| 0 <= j < k ==> result_col_fits(#[trigger] cs[j], t, regs_before(cs.take(j), t)),
            prog.n_reg == old(prog).n_reg,
            prog.read_only == old(prog).read_only,
        decreases cs.len() - k,
    {
        proof {
            assert(cs.take(k + 1).drop_last() =~= cs.take(k as int));
            assert(cs.take(k + 1).last() == cs[k as int]);
        }
        let next = match compile_result_column(prog, &cols[k], table, col_reg) {
            Ok(n) => n,
            Err(e) => {
                assert(!result_col_fits(cs[k as int], t, regs_before(cs.take(k as int), t)));
                return Err(e);
            },
        };
        proof {
            assert(prog.code() =~= before_cols + result_cols_code(cs.take(k + 1), t));
            assert(has_star(cs.take(k + 1)) == (has_star(cs.take(k as int)) || cs[k as int].expr is Star)) by {
                if has_star(cs.take(k + 1)) {
                    let i = choose|i: int| 0 <= i < k + 1 && (#[trigger] cs.take(k + 1)[i]).expr is Star;
                    if i < k {
                        assert(cs.take(k as int)[i] == cs.take(k + 1)[i]);
                    }
                }
                if has_star(cs.take(k as int)) {
                    let i = choose|i: int| 0 <= i < k && (#[trigger] cs.take(k as int)[i]).expr is Star;
                    assert(cs.take(k + 1)[i] == cs.take(k as int)[i]);
                }
                if cs[k as int].expr is Star {
                    assert(cs.take(k + 1)[k as int] == cs[k as int]);
                }
            }
            lemma_regs_before_nonneg(cs.take(k + 1), t);
        }
        col_reg = next;
        match &cols[k].expr {
            Expr::Star => {
                star = true;
            },
            _ => {},
        }
        k = k + 1;
    }
    proof {
        assert(cs.take(cs.len() as int) =~= cs);
    }
    Ok(star)
}

/// Compiles a SELECT over one table: a scan that yields, for each row that
/// meets the WHERE condition, its result columns.
#[verifier::rlimit(40)]
fn compile_select(select: &Select, schema: &Schema) -> (r: Result<Program, SqlliteError>)
    requires
        schema.wf(),
    ensures
        compile_outcome(r, compiled_select(*select, *schema)),
{
    let table_name = match &select.from {
        Some(TableRef::Table { name, .. }) => name,
        _ => {
            return Err(SqlliteError::sql(ResultCode::Error, "SELECT requires a FROM clause"));
        },
    };
    let table = match schema.table(table_name.as_str()) {
        Some(t) => t,
        None => return Err(no_such_table(table_name.as_str())),
    };
    let ghost t = *table;
    if let Some(w) = &select.where_clause {
        if !expr_fits(w, 1) {
            return Err(too_many_registers_error());
        }
    }
    let mut prog = Program::new();
    prog.read_only = true;
    prog.n_reg = 8;
    prog.emit(Insn { opcode: Opcode::Init, p1: 0, p2: 1, p3: 0, p4: InsnP4::Nothing, p5: 0 });
    prog.emit(
        Insn {
            opcode: Opcode::OpenRead,
            p1: 0,
            p2: 0,
            p3: 0,
            p4: InsnP4::String(table_name.clone()),
            p5: 0,
        },
    );
    let rewind_addr = prog.emit(
        Insn { opcode: Opcode::Rewind, p1: 0, p2: 0, p3: 0, p4: InsnP4::Nothing, p5: 0 },
    );
    let ghost c_head = prog.code();
    let where_skip = match &select.where_clause {
        Some(w) => {
            let _ = compile_where_expr(&mut prog, w, table, 0, 1);
            let addr = prog.emit(
                Insn { opcode: Opcode::IfNot, p1: 1, p2: 0, p3: 0, p4: InsnP4::Nothing, p5: 0 },
            );
            Some(addr)
        },
        None => None,
    };
    let ghost c_filter = prog.code();
    let star = match compile_result_columns(&mut prog, &select.columns, table) {
        Ok(b) => b,
        Err(e) => return Err(e),
    };
    let ghost c_body = prog.code();
    let n_cols = if star {
        table.column_count()
    } else {
        select.columns.len()
    };
    let row_addr = prog.insns.len();
    if let Some(addr) = where_skip {
        prog.patch_p2(addr, row_addr as i32);
    }
    prog.emit(
        Insn { opcode: Opcode::ResultRow, p1: n_cols as i32, p2: 0, p3: 0, p4: InsnP4::Nothing, p5: 0 },
    );
    prog.emit(
        Insn {
            opcode: Opcode::Last,
            p1: 0,
            p2: (rewind_addr + 1) as i32,
            p3: 0,
            p4: InsnP4::Nothing,
            p5: 0,
        },
    );
    let halt_addr = prog.insns.len();
    prog.patch_p2(rewind_addr, halt_addr as i32);
    prog.emit(Insn { opcode: Opcode::Halt, p1: 0, p2: 0, p3: 0, p4: InsnP4::Nothing, p5: 0 });
    proof {
        assert(program_view(prog).code =~= select_code(*select, table_name@, t));
    }
    Ok(prog)
}

/// The code that computes `row[i]` into register `i + 2` for each value of
/// an inserted row.
pub open spec fn values_code(row: Seq<Expr>) -> Seq<InsnView>
    decreases row.len(),
{
    if row.len() == 0 {
        Seq::empty()
    } else {
        values_code(row.drop_last()) + expr_code(row.last(), row.len() - 1 + 2)
    }
}

/// The code that inserts one row of `n` values as a new rowid of cursor 0.
pub open spec fn row_code(row: Seq<Expr>, n: int) -> Seq<InsnView> {
    values_code(row) + seq![
        ins(Opcode::NewRowid, 1, 0, 0, P4View::Nothing),
        ins(Opcode::MakeRecord, n as i32, 2, 10, P4View::Nothing),
        ins(Opcode::Insert, 10, 0, 1, P4View::Nothing),
    ]
}

/// The code that inserts every row of `rows`.
pub open spec fn rows_code(rows: Seq<Seq<Expr>>, n: int) -> Seq<InsnView>
    decreases rows.len(),
{
    if rows.len() == 0 {
        Seq::empty()
    } else {
        rows_code(rows.drop_last(), n) + row_code(rows.last(), n)
    }
}

/// The rows of an INSERT as sequences of expressions.
pub open spec fn row_values(rows: Seq<Vec<Expr>>) -> Seq<Seq<Expr>> {
    rows.map_values(|r: Vec<Expr>| r@)
}

/// A row of `n` values whose code stays within `i32` registers.
pub open spec fn row_ok(row: Seq<Expr>, n: int) -> bool {
    &&& row.len() == n
    &&& forall|i: int| 0 <= i < row.len() ==> top_reg(#[trigger] row[i], i + 2) <= i32::MAX
}

/// The `r`-th row is the first that is not a fitting row of `n` values.
pub open spec fn first_bad_row(rows: Seq<Seq<Expr>>, n: int, r: int) -> bool {
    &&& 0 <= r < rows.len()
    &&& !row_ok(rows[r], n)
    &&& forall|j: int| 0 <= j < r ==> row_ok(#[trigger] rows[j], n)
}

/// The message of a row with `got` values where the table `name` has `n`
/// columns.
pub open spec fn count_message(name: Seq<char>, n: nat, got: nat) -> Seq<char> {
    "table "@ + name + " has "@ + decimal(n) + " columns but "@ + decimal(got) + " values were supplied"@
}

/// How many values each inserted row holds: one per named column, else
/// one per column of `t`.
pub open spec fn insert_width(t: Table, cols: Seq<String>) -> int {
    if cols.len() == 0 {
        t.columns@.len() as int
    } else {
        cols.len() as int
    }
}

/// What compiling the rows `rows` of `n` values into table `name` gives.
pub open spec fn rows_outcome(name: Seq<char>, rows: Seq<Seq<Expr>>, n: int) -> Result<
    ProgramView,
    (ResultCode, Seq<char>),
> {
    if exists|r: int| first_bad_row(rows, n, r) {
        let r = choose|r: int| first_bad_row(rows, n, r);
        if rows[r].len() != n {
            Err((ResultCode::Error, count_message(name, n as nat, rows[r].len())))
        } else {
            Err(too_many_registers())
        }
    } else {
        Ok(
            ProgramView {
                code: seq![
                    ins(Opcode::Init, 0, 1, 0, P4View::Nothing),
                    ins(Opcode::Transaction, 0, 0, 0, P4View::Nothing),
                    ins(Opcode::OpenWrite, 0, 0, 0, P4View::String(name)),
                ] + rows_code(rows, n) + seq![ins(Opcode::Halt, 0, 0, 0, P4View::Nothing)],
                n_reg: 16,
                read_only: false,
            },
        )
    }
}

/// What compiling an INSERT into table `name`, whose entry is `t`, of the
/// columns `cols` and the rows `rows` gives.
pub open spec fn insert_outcome(name: Seq<char>, t: Table, cols: Seq<String>, rows: Seq<Seq<Expr>>) -> Result<
    ProgramView,
    (ResultCode, Seq<char>),
> {
    if exists|m: int| first_missing_column(t, cols, m) {
        let m = choose|m: int| first_missing_column(t, cols, m);
        Err((ResultCode::Error, "table "@ + name + " has no column named "@ + cols[m]@))
    } else {
        rows_outcome(name, rows, insert_width(t, cols))
    }
}

/// What compiling the INSERT `i` against `schema` gives.
pub open spec fn compiled_insert(i: Insert, schema: Schema) -> Result<ProgramView, (ResultCode, Seq<char>)> {
    if !schema.table_keys().contains(lowercase(i.table@)) {
        Err((ResultCode::Error, "no such table: "@ + i.table@))
    } else {
        insert_outcome(
            i.table@,
            schema.table_at(key_position(schema.table_keys(), lowercase(i.table@))),
            i.columns@,
            row_values(i.values@),
        )
    }
}

/// Appends the code of one inserted row; fails with `TooBig` when a value
/// would need a register past `i32::MAX`.
fn compile_row(prog: &mut Program, row: &Vec<Expr>, n_cols: usize) -> (r: Result<(), SqlliteError>)
    requires
        row@.len() == n_cols,
    ensures
        final(prog).n_reg == old(prog).n_reg,
        final(prog).read_only == old(prog).read_only,
        r is Ok ==> row_ok(row@, n_cols as int) && final(prog).code() == old(prog).code() + row_code(
            row@,
            n_cols as int,
        ),
        r matches Err(e) ==> !row_ok(row@, n_cols as int) && is_sql_error(
            e,
            too_many_registers().0,
            too_many_registers().1,
        ),
{
    let ghost c0 = prog.code();
    let ghost rv = row@;
    let mut i: usize = 0;
    while i < row.len()
        invariant
            i <= rv.len(),
            rv == row@,
            prog.code() == c0 + values_code(rv.take(i as int)),
            forall|j: int| 0 <= j < i ==> top_reg(#[trigger] rv[j], j + 2) <= i32::MAX,
            prog.n_reg == old(prog).n_reg,
            prog.read_only == old(prog).read_only,
        decreases rv.len() - i,
    {
        if i > (i32::MAX - 2) as usize || !expr_fits(&row[i], i as i32 + 2) {
            proof {
                if i <= i32::MAX - 2 {
                    assert(top_reg(rv[i as int], i + 2) > i32::MAX);
                } else {
                    lemma_top_reg_at_least(rv[i as int], i + 2);
                }
            }
            return Err(too_many_registers_error());
        }
        let _ = compile_expr(prog, &row[i], i as i32 + 2);
        proof {
            assert(rv.take(i + 1).drop_last() =~= rv.take(i as int));
            assert(rv.take(i + 1).last() == rv[i as int]);
            assert(prog.code() =~= c0 + values_code(rv.take(i + 1)));
        }
        i = i + 1;
    }
    proof {
        assert(rv.take(rv.len() as int) =~= rv);
    }
    let ghost c1 = prog.code();
    prog.emit(Insn { opcode: Opcode::NewRowid, p1: 1, p2: 0, p3: 0, p4: InsnP4::Nothing, p5: 0 });
    prog.emit(
        Insn { opcode: Opcode::MakeRecord, p1: n_cols as i32, p2: 2, p3: 10, p4: InsnP4::Nothing, p5: 0 },
    );
    prog.emit(Insn { opcode: Opcode::Insert, p1: 10, p2: 0, p3: 1, p4: InsnP4::Nothing, p5: 0 });
    assert(prog.code() =~= c0 + row_code(rv, n_cols as int));
    Ok(())
}

/// The code of `e` from `reg` uses `reg` at least.
proof fn lemma_top_reg_at_least(e: Expr, reg: int)
    ensures
        top_reg(e, reg) >= reg,
{
}

fn count_error(table: &str, n: usize, got: usize) -> (e: SqlliteError)
    ensures
        is_sql_error(e, ResultCode::Error, count_message(table@, n as nat, got as nat)),
{
    let mut cs: Vec<char> = Vec::new();
    push_str_chars(&mut cs, "table ");
    push_str_chars(&mut cs, table);
    push_str_chars(&mut cs, " has ");
    let d1 = decimal_text(n as u128);
    let ghost b1 = cs@;
    let mut k: usize = 0;
    while k < d1.len()
        invariant
            k <= d1@.len(),
            cs@ == b1 + d1@.take(k as int),
        decreases d1@.len() - k,
    {
        cs.push(d1[k]);
        k = k + 1;
        assert(d1@.take(k as int) =~= d1@.take(k - 1).push(d1@[k - 1]));
    }
    assert(d1@.take(d1@.len() as int) =~= d1@);
    push_str_chars(&mut cs, " columns but ");
    let d2 = decimal_text(got as u128);
    let ghost b2 = cs@;
    let mut k: usize = 0;
    while k < d2.len()
        invariant
            k <= d2@.len(),
            cs@ == b2 + d2@.take(k as int),
        decreases d2@.len() - k,
    {
        cs.push(d2[k]);
        k = k + 1;
        assert(d2@.take(k as int) =~= d2@.take(k - 1).push(d2@[k - 1]));
    }
    assert(d2@.take(d2@.len() as int) =~= d2@);
    push_str_chars(&mut cs, " values were supplied");
    assert(cs@ =~= count_message(table@, n as nat, got as nat));
    error_with(ResultCode::Error, &cs)
}

fn missing_column_error(table: &str, col: &str) -> (e: SqlliteError)
    ensures
        is_sql_error(e, ResultCode::Error, "table "@ + table@ + " has no column named "@ + col@),
{
    let mut cs: Vec<char> = Vec::new();
    push_str_chars(&mut cs, "table ");
    push_str_chars(&mut cs, table);
    push_str_chars(&mut cs, " has no column named ");
    push_str_chars(&mut cs, col);
    error_with(ResultCode::Error, &cs)
}

/// Compiles an INSERT of literal rows: each row's values are computed into
/// registers, made into a record and inserted under a new rowid.
#[verifier::rlimit(40)]
fn compile_insert(insert: &Insert, schema: &Schema) -> (r: Result<Program, SqlliteError>)
    requires
        schema.wf(),
    ensures
        compile_outcome(r, compiled_insert(*insert, *schema)),
{
    let table = match schema.table(insert.table.as_str()) {
        Some(t) => t,
        None => return Err(no_such_table(insert.table.as_str())),
    };
    let ghost t = *table;
    let ghost cols = insert.columns@;
    let mut c: usize = 0;
    while c < insert.columns.len()
        invariant
            c <= cols.len(),
            cols == insert.columns@,
            t == *table,
            schema.table_keys().contains(lowercase(insert.table@)),
            t == schema.table_at(key_position(schema.table_keys(), lowercase(insert.table@))),
            forall|j: int| 0 <= j < c ==> has_column_named(t, #[trigger] cols[j]@),
        decreases cols.len() - c,
    {
        let idx = table.column_index(insert.columns[c].as_str());
        proof {
            lemma_column_pos(t, cols[c as int]@, idx);
        }
        if idx.is_none() {
            proof {
                assert(first_missing_column(t, cols, c as int));
                let m = choose|m: int| first_missing_column(t, cols, m);
                assert(m == c) by {
                    if m < c {
                        assert(has_column_named(t, cols[m]@));
                    }
                    if m > c {
                        assert(has_column_named(t, cols[c as int]@));
                    }
                }
                assert(cols[c as int]@ == insert.columns[c as int]@);
            }
            return Err(missing_column_error(insert.table.as_str(), insert.columns[c].as_str()));
        }
        c = c + 1;
    }
    proof {
        if exists|m: int| first_missing_column(t, cols, m) {
            let m = choose|m: int| first_missing_column(t, cols, m);
            assert(has_column_named(t, cols[m]@));
        }
    }
    let n_cols = if insert.columns.len() == 0 {
        table.column_count()
    } else {
        insert.columns.len()
    };
    let ghost rows = row_values(insert.values@);
    let mut prog = Program::new();
    prog.n_reg = 16;
    prog.emit(Insn { opcode: Opcode::Init, p1: 0, p2: 1, p3: 0, p4: InsnP4::Nothing, p5: 0 });
    prog.emit(Insn { opcode: Opcode::Transaction, p1: 0, p2: 0, p3: 0, p4: InsnP4::Nothing, p5: 0 });
    prog.emit(
        Insn {
            opcode: Opcode::OpenWrite,
            p1: 0,
            p2: 0,
            p3: 0,
            p4: InsnP4::String(insert.table.clone()),
            p5: 0,
        },
    );
    let ghost c_head = prog.code();
    let mut k: usize = 0;
    while k < insert.values.len()
        invariant
            k <= rows.len(),
            rows == row_values(insert.values@),
            rows.len() == insert.values@.len(),
            cols == insert.columns@,
            t == *table,
            schema.table_keys().contains(lowercase(insert.table@)),
            t == schema.table_at(key_position(schema.table_keys(), lowercase(insert.table@))),
            !(exists|m: int| first_missing_column(t, cols, m)),
            n_cols == insert_width(t, cols),
            prog.code() == c_head + rows_code(rows.take(k as int), n_cols as int),
            forall|j: int| 0 <= j < k ==> row_ok(#[trigger] rows[j], n_cols as int),
            prog.n_reg == 16,
            !prog.read_only,
        decreases rows.len() - k,
    {
        let row = &insert.values[k];
        assert(rows[k as int] == row@);
        if row.len() != n_cols {
            proof {
                assert(first_bad_row(rows, n_cols as int, k as int));
                let r = choose|r: int| first_bad_row(rows, n_cols as int, r);
                assert(r == k) by {
                    if r < k {
                        assert(row_ok(rows[r], n_cols as int));
                    }
                    if r > k {
                        assert(row_ok(rows[k as int], n_cols as int));
                    }
                }
            }
            assert(rows_outcome(insert.table@, rows, n_cols as int) == Err::<ProgramView, (ResultCode, Seq<char>)>(
                (ResultCode::Error, count_message(insert.table@, n_cols as nat, row@.len())),
            ));
            return Err(count_error(insert.table.as_str(), n_cols, row.len()));
        }
        let ghost c0 = prog.code();
        match compile_row(&mut prog, row, n_cols) {
            Ok(()) => {},
            Err(e) => {
                proof {
                    assert(first_bad_row(rows, n_cols as int, k as int));
                    let r = choose|r: int| first_bad_row(rows, n_cols as int, r);
                    assert(r == k) by {
                        if r < k {
                            assert(row_ok(rows[r], n_cols as int));
                        }
                        if r > k {
                            assert(row_ok(rows[k as int], n_cols as int));
                        }
                    }
                }
                return Err(e);
            },
        }
        proof {
            assert(rows.take(k + 1).drop_last() =~= rows.take(k as int));
            assert(rows.take(k + 1).last() == rows[k as int]);
            assert(prog.code() =~= c_head + rows_code(rows.take(k + 1), n_cols as int));
        }
        k = k + 1;
    }
    proof {
        assert(rows.take(rows.len() as int) =~= rows);
        if exists|r: int| first_bad_row(rows, n_cols as int, r) {
            let r = choose|r: int| first_bad_row(rows, n_cols as int, r);
            assert(row_ok(rows[r], n_cols as int));
        }
    }
    prog.emit(Insn { opcode: Opcode::Halt, p1: 0, p2: 0, p3: 0, p4: InsnP4::Nothing, p5: 0 });
    assert(program_view(prog).code =~= seq![
        ins(Opcode::Init, 0, 1, 0, P4View::Nothing),
        ins(Opcode::Transaction, 0, 0, 0, P4View::Nothing),
        ins(Opcode::OpenWrite, 0, 0, 0, P4View::String(insert.table@)),
    ] + rows_code(rows, n_cols as int) + seq![ins(Opcode::Halt, 0, 0, 0, P4View::Nothing)]);
    Ok(prog)
}

/// The program of a DELETE from table `name`, whose entry is `t`: scan it
/// and delete each row that meets the WHERE condition.
pub open spec fn delete_code(d: Delete, t: Table) -> Seq<InsnView> {
    let filter_len: int = match d.where_clause {
        Some(w) => where_code(w, t, 0, 0).len() + 1int,
        None => 0,
    };
    let last_addr = 4 + filter_len + 1;
    let filter = match d.where_clause {
        Some(w) => where_code(w, t, 0, 0) + seq![
            ins(Opcode::IfNot, 0, last_addr as i32, 0, P4View::Nothing),
        ],
        None => Seq::empty(),
    };
    seq![
        ins(Opcode::Init, 0, 1, 0, P4View::Nothing),
        ins(Opcode::Transaction, 0, 0, 0, P4View::Nothing),
        ins(Opcode::OpenWrite, 0, 0, 0, P4View::String(d.table@)),
        ins(Opcode::Rewind, 0, (last_addr + 1) as i32, 0, P4View::Nothing),
    ] + filter + seq![
        ins(Opcode::Delete, 0, 0, 0, P4View::Nothing),
        ins(Opcode::Last, 0, 4, 0, P4View::Nothing),
        ins(Opcode::Halt, 0, 0, 0, P4View::Nothing),
    ]
}

/// What compiling the DELETE `d` against `schema` gives.
pub open spec fn compiled_delete(d: Delete, schema: Schema) -> Result<ProgramView, (ResultCode, Seq<char>)> {
    if !schema.table_keys().contains(lowercase(d.table@)) {
        Err((ResultCode::Error, "no such table: "@ + d.table@))
    } else {
        let t = schema.table_at(key_position(schema.table_keys(), lowercase(d.table@)));
        if d.where_clause matches Some(w) && !where_fits(w, 0) {
            Err(too_many_registers())
        } else {
            Ok(ProgramView { code: delete_code(d, t), n_reg: 0, read_only: false })
        }
    }
}

/// Compiles a DELETE: a scan that deletes each row meeting the WHERE
/// condition.
#[verifier::rlimit(40)]
fn compile_delete(delete: &Delete, schema: &Schema) -> (r: Result<Program, SqlliteError>)
    requires
        schema.wf(),
    ensures
        compile_outcome(r, compiled_delete(*delete, *schema)),
{
    let table = match schema.table(delete.table.as_str()) {
        Some(t) => t,
        None => return Err(no_such_table(delete.table.as_str())),
    };
    let ghost t = *table;
    if let Some(w) = &delete.where_clause {
        if !expr_fits(w, 0) {
            return Err(too_many_registers_error());
        }
    }
    let mut prog = Program::new();
    prog.emit(Insn { opcode: Opcode::Init, p1: 0, p2: 1, p3: 0, p4: InsnP4::Nothing, p5: 0 });
    prog.emit(Insn { opcode: Opcode::Transaction, p1: 0, p2: 0, p3: 0, p4: InsnP4::Nothing, p5: 0 });
    prog.emit(
        Insn {
            opcode: Opcode::OpenWrite,
            p1: 0,
            p2: 0,
            p3: 0,
            p4: InsnP4::String(delete.table.clone()),
            p5: 0,
        },
    );
    let rewind = prog.emit(
        Insn { opcode: Opcode::Rewind, p1: 0, p2: 0, p3: 0, p4: InsnP4::Nothing, p5: 0 },
    );
    let where_skip = match &delete.where_clause {
        Some(w) => {
            let _ = compile_where_expr(&mut prog, w, table, 0, 0);
            let addr = prog.emit(
                Insn { opcode: Opcode::IfNot, p1: 0, p2: 0, p3: 0, p4: InsnP4::Nothing, p5: 0 },
            );
            Some(addr)
        },
        None => None,
    };
    prog.emit(Insn { opcode: Opcode::Delete, p1: 0, p2: 0, p3: 0, p4: InsnP4::Nothing, p5: 0 });
    let next_addr = prog.insns.len();
    if let Some(addr) = where_skip {
        prog.patch_p2(addr, next_addr as i32);
    }
    prog.emit(
        Insn {
            opcode: Opcode::Last,
            p1: 0,
            p2: (rewind + 1) as i32,
            p3: 0,
            p4: InsnP4::Nothing,
            p5: 0,
        },
    );
    let halt_addr = prog.insns.len();
    prog.patch_p2(rewind, halt_addr as i32);
    prog.emit(Insn { opcode: Opcode::Halt, p1: 0, p2: 0, p3: 0, p4: InsnP4::Nothing, p5: 0 });
    assert(program_view(prog).code =~= delete_code(*delete, t));
    Ok(prog)
}

/// What compiling the UPDATE `u` against `schema` gives: a program that
/// only halts, once the table is found.
pub open spec fn compiled_update(u: Update, schema: Schema) -> Result<ProgramView, (ResultCode, Seq<char>)> {
    if !schema.table_keys().contains(lowercase(u.table@)) {
        Err((ResultCode::Error, "no such table: "@ + u.table@))
    } else {
        Ok(ProgramView { code: seq![ins(Opcode::Halt, 0, 0, 0, P4View::Nothing)], n_reg: 0, read_only: false })
    }
}

fn compile_update(update: &Update, schema: &Schema) -> (r: Result<Program, SqlliteError>)
    requires
        schema.wf(),
    ensures
        compile_outcome(r, compiled_update(*update, *schema)),
{
    if schema.table(update.table.as_str()).is_none() {
        return Err(no_such_table(update.table.as_str()));
    }
    let mut prog = Program::new();
    prog.emit(Insn { opcode: Opcode::Halt, p1: 0, p2: 0, p3: 0, p4: InsnP4::Nothing, p5: 0 });
    Ok(prog)
}

/// A program of the instructions `code` that asks for no register and may
/// write.
pub open spec fn plain_program(code: Seq<InsnView>) -> ProgramView {
    ProgramView { code, n_reg: 0, read_only: false }
}

/// What compiling `stmt` against `schema` gives: its program, or the error.
pub open spec fn compiled(stmt: Statement, schema: Schema) -> Result<ProgramView, (ResultCode, Seq<char>)> {
    match stmt {
        Statement::Select(s) => compiled_select(s, schema),
        Statement::Insert(i) => compiled_insert(i, schema),
        Statement::Update(u) => compiled_update(u, schema),
        Statement::Delete(d) => compiled_delete(d, schema),
        Statement::CreateTable(c) => Ok(
            plain_program(
                seq![
                    ins(Opcode::Init, 0, 1, 0, P4View::Nothing),
                    ins(Opcode::Transaction, 0, 0, 0, P4View::Nothing),
                    ins(Opcode::CreateBtree, 0, 0, 0, P4View::String(c.name@)),
                    ins(Opcode::Halt, 0, 0, 0, P4View::Nothing),
                ],
            ),
        ),
        Statement::DropTable(d) => Ok(
            plain_program(
                seq![
                    ins(Opcode::DropTable, 0, 0, 0, P4View::String(d.name@)),
                    ins(Opcode::Halt, 0, 0, 0, P4View::Nothing),
                ],
            ),
        ),
        Statement::Pragma(p) => Ok(
            ProgramView {
                code: seq![ins(Opcode::Halt, 0, 0, 0, P4View::String(p.name@))],
                n_reg: 0,
                read_only: true,
            },
        ),
        Statement::Begin => Ok(
            plain_program(
                seq![
                    ins(Opcode::Transaction, 0, 0, 0, P4View::Nothing),
                    ins(Opcode::Halt, 0, 0, 0, P4View::Nothing),
                ],
            ),
        ),
        _ => Ok(plain_program(seq![ins(Opcode::Halt, 0, 0, 0, P4View::Nothing)])),
    }
}

fn program_of(insns: Vec<Insn>, read_only: bool) -> (p: Program)
    ensures
        p.code() == insns@.map_values(|i: Insn| i@),
        p.n_reg == 0,
        p.read_only == read_only,
{
    Program { insns, n_reg: 0, read_only }
}

/// Compiles a statement into a VDBE program. A CREATE INDEX has no program:
/// the connection runs it itself.
pub fn compile_statement(stmt: &Statement, schema: &Schema) -> (r: Result<Program, SqlliteError>)
    requires
        schema.wf(),
        !(stmt is CreateIndex),
    ensures
        compile_outcome(r, compiled(*stmt, *schema)),
{
    match stmt {
        Statement::Select(s) => compile_select(s, schema),
        Statement::Insert(i) => compile_insert(i, schema),
        Statement::Update(u) => compile_update(u, schema),
        Statement::Delete(d) => compile_delete(d, schema),
        Statement::CreateTable(c) => {
            let v = vec![
                Insn { opcode: Opcode::Init, p1: 0, p2: 1, p3: 0, p4: InsnP4::Nothing, p5: 0 },
                Insn { opcode: Opcode::Transaction, p1: 0, p2: 0, p3: 0, p4: InsnP4::Nothing, p5: 0 },
                Insn {
                    opcode: Opcode::CreateBtree,
                    p1: 0,
                    p2: 0,
                    p3: 0,
                    p4: InsnP4::String(c.name.clone()),
                    p5: 0,
                },
                Insn { opcode: Opcode::Halt, p1: 0, p2: 0, p3: 0, p4: InsnP4::Nothing, p5: 0 },
            ];
            let p = program_of(v, false);
            assert(p.code() =~= compiled(*stmt, *schema)->Ok_0.code);
            Ok(p)
        },
        Statement::DropTable(d) => {
            let v = vec![
                Insn {
                    opcode: Opcode::DropTable,
                    p1: 0,
                    p2: 0,
                    p3: 0,
                    p4: InsnP4::String(d.name.clone()),
                    p5: 0,
                },
                Insn { opcode: Opcode::Halt, p1: 0, p2: 0, p3: 0, p4: InsnP4::Nothing, p5: 0 },
            ];
            let p = program_of(v, false);
            assert(p.code() =~= compiled(*stmt, *schema)->Ok_0.code);
            Ok(p)
        },
        Statement::Pragma(pr) => {
            let v = vec![
                Insn {
                    opcode: Opcode::Halt,
                    p1: 0,
                    p2: 0,
                    p3: 0,
                    p4: InsnP4::String(pr.name.clone()),
                    p5: 0,
                },
            ];
            let p = program_of(v, true);
            assert(p.code() =~= compiled(*stmt, *schema)->Ok_0.code);
            Ok(p)
        },
        Statement::Begin => {
            let v = vec![
                Insn { opcode: Opcode::Transaction, p1: 0, p2: 0, p3: 0, p4: InsnP4::Nothing, p5: 0 },
                Insn { opcode: Opcode::Halt, p1: 0, p2: 0, p3: 0, p4: InsnP4::Nothing, p5: 0 },
            ];
            let p = program_of(v, false);
            assert(p.code() =~= compiled(*stmt, *schema)->Ok_0.code);
            Ok(p)
        },
        _ => {
            let v = vec![Insn { opcode: Opcode::Halt, p1: 0, p2: 0, p3: 0, p4: InsnP4::Nothing, p5: 0 }];
            let p = program_of(v, false);
            assert(p.code() =~= compiled(*stmt, *schema)->Ok_0.code);
            Ok(p)
        },
    }
}

} // verus!
