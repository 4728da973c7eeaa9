//! The VDBE: runs a compiled program over B-tree cursors, one instruction
//! at a time.
//!
//! Arithmetic on doubles is not done here: an instruction that needs it
//! (`Add`, `Subtract`, `Multiply`, `Divide`, and a comparison or a
//! concatenation with a real operand) is handed back to the caller as a
//! `Compute` event with its operands, and the caller stores the result.

use vstd::prelude::*;

use crate::error::{is_sql_error, ResultCode, SqlliteError};
use crate::io::VfsFile;
use crate::pager::Pager;
use crate::parser::{signed_decimal, signed_decimal_text};
use crate::program::{Insn, InsnP4, InsnView, Opcode, P4View, Program};
use crate::record::{encode_record, serial_type_of, string_from_utf8_lossy, text_of};
use crate::schema::Schema;
use crate::btree::BtreeFlags;
use crate::tree::{lex_lt, pager_kept, pager_ready, Btree, BtreeCursor};
use crate::types::{double_to_i64, parsed_i64, Value, ValueView};

verus! {

/// What running one instruction asks of the caller.
pub enum Event {
    /// Go on with the next instruction.
    Continue,
    /// A result row is ready in the first registers.
    Row,
    /// The program is done.
    Done,
    /// The program halted with this code and message.
    Halt(ResultCode, String),
    /// Compute `opcode` on `left` and `right` with doubles and store the
    /// result in register `dest`.
    Compute { opcode: Opcode, dest: i32, left: Value, right: Value },
}

struct CursorState {
    id: i32,
    btree: Btree,
    cursor: BtreeCursor,
}

/// Execution state of a prepared statement.
pub struct Vdbe {
    program: Program,
    pc: usize,
    regs: Vec<Value>,
    cursors: Vec<CursorState>,
    halted: bool,
    halt_code: ResultCode,
    result_columns: usize,
    changes: i64,
    last_rowid: i64,
}

/// The value of register `i`: NULL past the registers there are.
pub open spec fn reg_view(regs: Seq<ValueView>, i: int) -> ValueView {
    if 0 <= i < regs.len() {
        regs[i]
    } else {
        ValueView::Null
    }
}

/// The registers `regs` with `v` stored in register `i`, the registers
/// between the last one and `i` made NULL.
pub open spec fn stored(regs: Seq<ValueView>, i: int, v: ValueView) -> Seq<ValueView> {
    if i < regs.len() {
        regs.update(i, v)
    } else {
        regs + Seq::new((i - regs.len()) as nat, |k: int| ValueView::Null) + seq![v]
    }
}

/// The value as an integer, as `Value::as_integer` reads it.
pub open spec fn int_of(v: ValueView) -> Option<i64> {
    match v {
        ValueView::Integer(i) => Some(i),
        ValueView::Real(b) => Some(double_to_i64(b)),
        ValueView::Text(t) => parsed_i64(t),
        _ => None,
    }
}

/// The integer of a value, 0 when it has none.
pub open spec fn int_or_zero(v: ValueView) -> i64 {
    match int_of(v) {
        Some(i) => i,
        None => 0,
    }
}

/// A value counts as true: it is not NULL and its integer is not 0.
pub open spec fn truthy(v: ValueView) -> bool {
    !(v is Null) && int_or_zero(v) != 0
}

/// The integer value of a truth.
pub open spec fn truth(b: bool) -> ValueView {
    ValueView::Integer(if b {
        1
    } else {
        0
    })
}

/// The text of a value that is not a real: empty for NULL, an integer in
/// decimal, a blob as its text.
pub open spec fn text_form(v: ValueView) -> Seq<char> {
    match v {
        ValueView::Integer(i) => signed_decimal(i as int),
        ValueView::Text(t) => t,
        ValueView::Blob(b) => text_of(b),
        _ => Seq::empty(),
    }
}

/// The order of two texts, character by character: -1, 0 or 1.
pub open spec fn chars_order(a: Seq<char>, b: Seq<char>) -> int
    decreases a.len(),
{
    if a.len() == 0 {
        if b.len() == 0 {
            0
        } else {
            -1
        }
    } else if b.len() == 0 {
        1
    } else if a[0] != b[0] {
        if (a[0] as u32) < (b[0] as u32) {
            -1
        } else {
            1
        }
    } else {
        chars_order(a.drop_first(), b.drop_first())
    }
}

/// The order of two byte strings: -1, 0 or 1.
pub open spec fn bytes_order(a: Seq<u8>, b: Seq<u8>) -> int {
    if lex_lt(a, b) {
        -1
    } else if lex_lt(b, a) {
        1
    } else {
        0
    }
}

/// The order of two values neither of which is a real, as `Value::compare`
/// gives it: NULL first, integers by value, texts and blobs in their order,
/// and values of different kinds by their texts.
pub open spec fn value_order(a: ValueView, b: ValueView) -> int {
    match (a, b) {
        (ValueView::Null, ValueView::Null) => 0,
        (ValueView::Null, _) => -1,
        (_, ValueView::Null) => 1,
        (ValueView::Integer(x), ValueView::Integer(y)) => if x < y {
            -1
        } else if x == y {
            0
        } else {
            1
        },
        (ValueView::Text(x), ValueView::Text(y)) => chars_order(x, y),
        (ValueView::Blob(x), ValueView::Blob(y)) => bytes_order(x, y),
        _ => chars_order(text_form(a), text_form(b)),
    }
}

/// Integers compare by value, and NULL comes before every other value:
/// the order of two values is negative, zero or positive as the first is
/// below, equal to or above the second.
pub proof fn lemma_value_order_integers(x: i64, y: i64, v: ValueView)
    ensures
        value_order(ValueView::Integer(x), ValueView::Integer(y)) < 0 <==> x < y,
        value_order(ValueView::Integer(x), ValueView::Integer(y)) == 0 <==> x == y,
        value_order(ValueView::Integer(x), ValueView::Integer(y)) > 0 <==> x > y,
        !(v is Null) ==> value_order(ValueView::Null, v) < 0 && value_order(v, ValueView::Null) > 0,
        value_order(ValueView::Null, ValueView::Null) == 0,
{
}

/// Whether comparison `op` holds of the order `c`. `Le` holds unless the
/// left is smaller and `Ge` unless it is larger.
pub open spec fn comparison_holds(op: Opcode, c: int) -> bool {
    match op {
        Opcode::Eq => c == 0,
        Opcode::Ne => c != 0,
        Opcode::Lt => c < 0,
        Opcode::Le => c >= 0,
        Opcode::Gt => c > 0,
        _ => c <= 0,
    }
}

/// The opcodes that compare their operands.
pub open spec fn is_comparison(op: Opcode) -> bool {
    op == Opcode::Eq || op == Opcode::Ne || op == Opcode::Lt || op == Opcode::Le || op == Opcode::Gt
        || op == Opcode::Ge
}

/// The result code a `Halt` operand names.
pub open spec fn halt_code_of(p1: i32) -> ResultCode {
    if p1 == 0 {
        ResultCode::OK
    } else if p1 == 19 {
        ResultCode::Constraint
    } else if p1 == 101 {
        ResultCode::Done
    } else {
        ResultCode::Error
    }
}

/// What a step that only touches the registers and the program counter
/// does: the registers after it, the next instruction's address, and
/// whether it yields a row.
pub open spec fn register_step(i: InsnView, regs: Seq<ValueView>, pc: int) -> Option<(Seq<ValueView>, int)> {
    let next = pc + 1;
    let a = reg_view(regs, i.p2 as int);
    let b = reg_view(regs, i.p3 as int);
    match i.opcode {
        Opcode::Init => Some((regs, next)),
        Opcode::Blob => Some((regs, next)),
        Opcode::Goto => Some((regs, i.p2 as usize as int)),
        Opcode::Integer => Some((stored(regs, i.p1 as int, ValueView::Integer(i.p2 as i64)), next)),
        Opcode::Int64 => match i.p4 {
            P4View::Int64(v) => Some((stored(regs, i.p1 as int, ValueView::Integer(v)), next)),
            _ => Some((regs, next)),
        },
        Opcode::Real => match i.p4 {
            P4View::Real(v) => Some((stored(regs, i.p1 as int, ValueView::Real(v)), next)),
            _ => Some((regs, next)),
        },
        Opcode::String => match i.p4 {
            P4View::String(s) => Some((stored(regs, i.p1 as int, ValueView::Text(s)), next)),
            _ => Some((regs, next)),
        },
        Opcode::Null => Some((stored(regs, i.p1 as int, ValueView::Null), next)),
        Opcode::Move => Some((stored(regs, i.p1 as int, a), next)),
        Opcode::Copy => Some((stored(regs, i.p1 as int, a), next)),
        Opcode::If => Some(
            (regs, if truthy(reg_view(regs, i.p1 as int)) {
                i.p2 as usize as int
            } else {
                next
            }),
        ),
        Opcode::IfNot => Some(
            (regs, if !truthy(reg_view(regs, i.p1 as int)) {
                i.p2 as usize as int
            } else {
                next
            }),
        ),
        Opcode::IsNull => Some(
            (regs, if reg_view(regs, i.p1 as int) is Null {
                i.p2 as usize as int
            } else {
                next
            }),
        ),
        Opcode::NotNull => Some(
            (regs, if !(reg_view(regs, i.p1 as int) is Null) {
                i.p2 as usize as int
            } else {
                next
            }),
        ),
        Opcode::And => Some(
            (
                stored(
                    regs,
                    i.p1 as int,
                    truth(!(a is Null) && !(b is Null) && int_or_zero(a) != 0 && int_or_zero(b) != 0),
                ),
                next,
            ),
        ),
        Opcode::Or => Some(
            (
                stored(
                    regs,
                    i.p1 as int,
                    truth(!(a is Null) && !(b is Null) && (int_or_zero(a) != 0 || int_or_zero(b) != 0)),
                ),
                next,
            ),
        ),
        Opcode::Not => Some((stored(regs, i.p1 as int, truth(!truthy(a))), next)),
        _ => None,
    }
}

fn halt_code_from(p1: i32) -> (c: ResultCode)
    ensures
        c == halt_code_of(p1),
{
    if p1 == 0 {
        ResultCode::OK
    } else if p1 == 19 {
        ResultCode::Constraint
    } else if p1 == 101 {
        ResultCode::Done
    } else {
        ResultCode::Error
    }
}

fn copy_value(v: &Value) -> (r: Value)
    ensures
        r@ == v@,
{
    match v {
        Value::Null => Value::Null,
        Value::Integer(i) => Value::Integer(*i),
        Value::Real(b) => Value::Real(*b),
        Value::Text(s) => Value::Text(s.clone()),
        Value::Blob(b) => Value::Blob(copy_bytes(b)),
    }
}

fn copy_bytes(b: &Vec<u8>) -> (r: Vec<u8>)
    ensures
        r@ == b@,
{
    let mut r: Vec<u8> = Vec::new();
    let mut k: usize = 0;
    while k < b.len()
        invariant
            k <= b@.len(),
            r@ == b@.take(k as int),
        decreases b@.len() - k,
    {
        r.push(b[k]);
        k = k + 1;
        assert(b@.take(k as int) =~= b@.take(k - 1).push(b@[k - 1]));
    }
    assert(b@.take(b@.len() as int) =~= b@);
    r
}

fn chars_compare(a: &Vec<char>, b: &Vec<char>) -> (c: i8)
    ensures
        c as int == chars_order(a@, b@),
{
    let mut i: usize = 0;
    assert(a@.skip(0) =~= a@ && b@.skip(0) =~= b@);
    while i < a.len() && i < b.len()
        invariant
            i <= a@.len(),
            i <= b@.len(),
            chars_order(a@, b@) == chars_order(a@.skip(i as int), b@.skip(i as int)),
        decreases a@.len() - i,
    {
        if a[i] != b[i] {
            return if (a[i] as u32) < (b[i] as u32) {
                -1
            } else {
                1
            };
        }
        assert(a@.skip(i as int).drop_first() =~= a@.skip(i + 1));
        assert(b@.skip(i as int).drop_first() =~= b@.skip(i + 1));
        i = i + 1;
    }
    if i < a.len() {
        1
    } else if i < b.len() {
        -1
    } else {
        0
    }
}

/// The text of a value that is not a real.
fn value_text(v: &Value) -> (t: Vec<char>)
    requires
        !(v@ is Real),
    ensures
        t@ == text_form(v@),
{
    match v {
        Value::Integer(i) => signed_decimal_text(*i),
        Value::Text(s) => crate::text::chars_of(s.as_str()),
        Value::Blob(b) => {
            let s = string_from_utf8_lossy(b.as_slice());
            crate::text::chars_of(s.as_str())
        },
        _ => Vec::new(),
    }
}

/// Compares two values neither of which is a real.
fn compare_values(a: &Value, b: &Value) -> (c: i8)
    requires
        !(a@ is Real),
        !(b@ is Real),
    ensures
        c as int == value_order(a@, b@),
{
    match (a, b) {
        (Value::Null, Value::Null) => 0,
        (Value::Null, _) => -1,
        (_, Value::Null) => 1,
        (Value::Integer(x), Value::Integer(y)) => if *x < *y {
            -1
        } else if *x == *y {
            0
        } else {
            1
        },
        (Value::Text(x), Value::Text(y)) => chars_compare(
            &crate::text::chars_of(x.as_str()),
            &crate::text::chars_of(y.as_str()),
        ),
        (Value::Blob(x), Value::Blob(y)) => if crate::tree::bytes_lt(x.as_slice(), y.as_slice()) {
            -1
        } else if crate::tree::bytes_lt(y.as_slice(), x.as_slice()) {
            1
        } else {
            0
        },
        _ => chars_compare(&value_text(a), &value_text(b)),
    }
}

impl Vdbe {
    /// The registers as values.
    pub closed spec fn regs_view(&self) -> Seq<ValueView> {
        self.regs@.map_values(|v: Value| v@)
    }

    pub closed spec fn spec_pc(&self) -> int {
        self.pc as int
    }

    pub closed spec fn code(&self) -> Seq<InsnView> {
        self.program.code()
    }

    pub closed spec fn spec_halted(&self) -> bool {
        self.halted
    }

    pub closed spec fn spec_halt_code(&self) -> ResultCode {
        self.halt_code
    }

    pub closed spec fn spec_result_columns(&self) -> int {
        self.result_columns as int
    }

    pub closed spec fn spec_changes(&self) -> i64 {
        self.changes
    }

    pub closed spec fn spec_last_rowid(&self) -> i64 {
        self.last_rowid
    }

    /// Every open cursor is well formed.
    pub closed spec fn wf(&self) -> bool {
        forall|i: int| 0 <= i < self.cursors@.len() ==> (#[trigger] self.cursors@[i]).cursor.wf()
    }

    /// A machine at the start of `program`, with its registers (at least
    /// eight) NULL.
    pub fn new(program: Program) -> (v: Vdbe)
        ensures
            v.wf(),
            v.code() == program.code(),
            v.spec_pc() == 0,
            !v.spec_halted(),
            v.regs_view().len() == if program.n_reg < 8 {
                8
            } else {
                program.n_reg as int
            },
            forall|i: int| 0 <= i < v.regs_view().len() ==> #[trigger] v.regs_view()[i] is Null,
            v.spec_changes() == 0,
            v.spec_last_rowid() == 0,
            v.spec_result_columns() == 0,
    {
        let n = if program.n_reg < 8 {
            8
        } else {
            program.n_reg
        };
        let mut regs: Vec<Value> = Vec::new();
        let mut k: usize = 0;
        while k < n
            invariant
                k <= n,
                regs@.len() == k,
                forall|i: int| 0 <= i < k ==> #[trigger] regs@[i] is Null,
            decreases n - k,
        {
            regs.push(Value::Null);
            k = k + 1;
        }
        let v = Vdbe {
            program,
            pc: 0,
            regs,
            cursors: Vec::new(),
            halted: false,
            halt_code: ResultCode::OK,
            result_columns: 0,
            changes: 0,
            last_rowid: 0,
        };
        assert(forall|i: int| 0 <= i < v.regs_view().len() ==> #[trigger] v.regs_view()[i] is Null) by {
            assert forall|i: int| 0 <= i < v.regs_view().len() implies #[trigger] v.regs_view()[i] is Null by {
                assert(v.regs@[i] is Null);
            }
        }
        v
    }

    /// Whether an instruction is left to run.
    pub fn has_next(&self) -> (b: bool)
        ensures
            b == (self.spec_pc() < self.code().len()),
    {
        self.pc < self.program.insns.len()
    }

    pub fn is_halted(&self) -> (b: bool)
        ensures
            b == self.spec_halted(),
    {
        self.halted
    }

    pub fn halt_code(&self) -> (c: ResultCode)
        ensures
            c == self.spec_halt_code(),
    {
        self.halt_code
    }

    pub fn changes(&self) -> (n: i64)
        ensures
            n == self.spec_changes(),
    {
        self.changes
    }

    pub fn last_insert_rowid(&self) -> (n: i64)
        ensures
            n == self.spec_last_rowid(),
    {
        self.last_rowid
    }

    /// How many columns the last result row has.
    pub fn column_count(&self) -> (n: usize)
        ensures
            n == self.spec_result_columns(),
    {
        self.result_columns
    }

    /// Result column `idx`: register `idx` of the last row.
    pub fn column_value(&self, idx: usize) -> (v: Option<&Value>)
        ensures
            match v {
                Some(x) => idx < self.spec_result_columns() && idx < self.regs_view().len() && x@
                    == self.regs_view()[idx as int],
                None => idx >= self.spec_result_columns() || idx >= self.regs_view().len(),
            },
    {
        if idx < self.result_columns && idx < self.regs.len() {
            Some(&self.regs[idx])
        } else {
            None
        }
    }

    /// Stores `v` in register `idx`; a negative register fails with
    /// `Internal`.
    pub fn store(&mut self, idx: i32, v: Value) -> (r: Result<(), SqlliteError>)
        requires
            old(self).wf(),
        ensures
            final(self).wf(),
            final(self).code() == old(self).code(),
            final(self).spec_pc() == old(self).spec_pc(),
            final(self).spec_halted() == old(self).spec_halted(),
            final(self).spec_changes() == old(self).spec_changes(),
            final(self).spec_last_rowid() == old(self).spec_last_rowid(),
            final(self).spec_result_columns() == old(self).spec_result_columns(),
            idx >= 0 ==> r is Ok && final(self).regs_view() == stored(old(self).regs_view(), idx as int, v@),
            idx < 0 ==> r is Err && final(self).regs_view() == old(self).regs_view(),
    {
        if idx < 0 {
            return Err(SqlliteError::sql(ResultCode::Internal, "register index out of range"));
        }
        let i = idx as usize;
        let ghost r0 = self.regs_view();
        if i < self.regs.len() {
            self.regs.set(i, v);
            assert(self.regs_view() =~= r0.update(i as int, v@));
        } else {
            while self.regs.len() < i
                invariant
                    self.regs@.len() <= i,
                    self.regs@.len() >= r0.len(),
                    self.regs_view() == r0 + Seq::new((self.regs@.len() - r0.len()) as nat, |k: int| ValueView::Null),
                    self.cursors == old(self).cursors,
                    self.program == old(self).program,
                    self.pc == old(self).pc,
                    self.halted == old(self).halted,
                    self.changes == old(self).changes,
                    self.last_rowid == old(self).last_rowid,
                    self.result_columns == old(self).result_columns,
                decreases i - self.regs@.len(),
            {
                let ghost before = self.regs_view();
                self.regs.push(Value::Null);
                assert(self.regs_view() =~= before.push(ValueView::Null));
                assert(self.regs_view() =~= r0 + Seq::new(
                    (self.regs@.len() - r0.len()) as nat,
                    |k: int| ValueView::Null,
                ));
            }
            let ghost mid = self.regs_view();
            self.regs.push(v);
            assert(self.regs_view() =~= mid.push(v@));
            assert(self.regs_view() =~= stored(r0, idx as int, v@));
        }
        Ok(())
    }

    fn get_reg(&self, idx: i32) -> (v: Value)
        ensures
            v@ == reg_view(self.regs_view(), idx as int),
    {
        if idx >= 0 && (idx as usize) < self.regs.len() {
            copy_value(&self.regs[idx as usize])
        } else {
            Value::Null
        }
    }
}


/// The remainder of `x` by `y` with the quotient rounded toward zero: the
/// magnitude of `x` modulo `y` (which lies below the magnitude of `y`),
/// with the sign of `x`.
pub open spec fn truncated_remainder(x: int, y: int) -> int {
    let m = (if x < 0 { -x } else { x }) % y;
    if x < 0 { -m } else { m }
}

/// The facts that single out the remainder with the quotient rounded toward
/// zero: it differs from `x` by a multiple of `y`, is smaller in magnitude
/// than `y`, and is zero or has the sign of `x`.
pub proof fn lemma_truncated_remainder(x: int, y: int)
    requires
        y != 0,
    ensures
        ({
            let m = truncated_remainder(x, y);
            &&& exists|q: int| x - m == #[trigger] (q * y)
            &&& (if m < 0 { -m } else { m }) < (if y < 0 { -y } else { y })
            &&& m == 0 || (m < 0) == (x < 0)
        }),
{
    let a = if x < 0 { -x } else { x };
    let m0 = a % y;
    let q0 = a / y;
    vstd::arithmetic::div_mod::lemma_fundamental_div_mod(a, y);
    assert(0 <= m0 < (if y < 0 { -y } else { y })) by (nonlinear_arith)
        requires
            y != 0,
            m0 == a % y,
    ;
    let m = truncated_remainder(x, y);
    if x < 0 {
        assert(x - m == (-q0) * y) by (nonlinear_arith)
            requires
                x < 0,
                a == -x,
                m == -m0,
                a == y * q0 + m0,
        ;
    } else {
        assert(x - m == q0 * y) by (nonlinear_arith)
            requires
                a == x,
                m == m0,
                a == y * q0 + m0,
        ;
    }
}

/// A remainder instruction on two integers, the right one not zero, goes
/// on to the next instruction with register `p1` holding their remainder
/// rounded toward zero: it differs from the left operand by a multiple of
/// the right one, is smaller in magnitude than the right one, and is zero or
/// has the sign of the left one. Every other register keeps its value.
pub proof fn lemma_remainder_instruction(
    i: InsnView,
    before: Seq<ValueView>,
    after: Seq<ValueView>,
    r: Result<Event, SqlliteError>,
    x: i64,
    y: i64,
)
    requires
        i.opcode == Opcode::Remainder,
        0 <= i.p1 < before.len(),
        reg_view(before, i.p2 as int) == ValueView::Integer(x),
        reg_view(before, i.p3 as int) == ValueView::Integer(y),
        y != 0,
        value_op_outcome(i, before, after, r),
    ensures
        r matches Ok(Event::Continue),
        after.len() == before.len(),
        forall|k: int| 0 <= k < before.len() && k != i.p1 ==> #[trigger] after[k] == before[k],
        after[i.p1 as int] matches ValueView::Integer(m) && {
            &&& exists|q: int| x - m == #[trigger] (q * y)
            &&& (if m < 0 { -(m as int) } else { m as int }) < (if y < 0 { -(y as int) } else {
                y as int
            })
            &&& m == 0 || (m < 0) == (x < 0)
        },
{
    lemma_truncated_remainder(x as int, y as int);
    let m = truncated_remainder(x as int, y as int);
    assert(-0x8000000000000000 <= m < 0x8000000000000000);
    assert(after == before.update(i.p1 as int, ValueView::Integer(m as i64)));
}

/// A comparison instruction on two values that are not reals goes on to
/// the next instruction with register `p1` holding 1 or 0: for `Eq`, `Ne`,
/// `Lt` and `Gt`, 1 exactly when the first operand is equal to, different
/// from, below or above the second. A concatenation holds the text of the
/// first operand followed by that of the second. Every other register keeps
/// its value.
pub proof fn lemma_compare_and_concat_instructions(
    i: InsnView,
    before: Seq<ValueView>,
    after: Seq<ValueView>,
    r: Result<Event, SqlliteError>,
)
    requires
        0 <= i.p1 < before.len(),
        !(reg_view(before, i.p2 as int) is Real),
        !(reg_view(before, i.p3 as int) is Real),
        is_comparison(i.opcode) || i.opcode == Opcode::Concat,
        value_op_outcome(i, before, after, r),
    ensures
        ({
            let a = reg_view(before, i.p2 as int);
            let b = reg_view(before, i.p3 as int);
            let c = value_order(a, b);
            &&& r matches Ok(Event::Continue)
            &&& after.len() == before.len()
            &&& forall|k: int| 0 <= k < before.len() && k != i.p1 ==> #[trigger] after[k] == before[k]
            &&& is_comparison(i.opcode) ==> (after[i.p1 as int] == ValueView::Integer(1) || after[i.p1 as int]
                == ValueView::Integer(0))
            &&& i.opcode == Opcode::Eq ==> (after[i.p1 as int] == ValueView::Integer(1) <==> c == 0)
            &&& i.opcode == Opcode::Ne ==> (after[i.p1 as int] == ValueView::Integer(1) <==> c != 0)
            &&& i.opcode == Opcode::Lt ==> (after[i.p1 as int] == ValueView::Integer(1) <==> c < 0)
            &&& i.opcode == Opcode::Gt ==> (after[i.p1 as int] == ValueView::Integer(1) <==> c > 0)
            &&& i.opcode == Opcode::Concat ==> (after[i.p1 as int] matches ValueView::Text(t) && t.len()
                == text_form(a).len() + text_form(b).len() && t.subrange(0, text_form(a).len() as int)
                == text_form(a) && t.subrange(text_form(a).len() as int, t.len() as int) == text_form(b))
        }),
{
    let a = reg_view(before, i.p2 as int);
    let b = reg_view(before, i.p3 as int);
    if i.opcode == Opcode::Concat {
        let t = text_form(a) + text_form(b);
        assert(t.subrange(0, text_form(a).len() as int) =~= text_form(a));
        assert(t.subrange(text_form(a).len() as int, t.len() as int) =~= text_form(b));
    }
}

/// What a comparison, a concatenation or an arithmetic instruction `i`
/// does to the registers `before`, leaving `after`, with the outcome `r`:
/// one that needs doubles is handed back with its operands.
pub open spec fn value_op_outcome(
    i: InsnView,
    before: Seq<ValueView>,
    after: Seq<ValueView>,
    r: Result<Event, SqlliteError>,
) -> bool {
    let a = reg_view(before, i.p2 as int);
    let b = reg_view(before, i.p3 as int);
    let reals = a is Real || b is Real;
    let op = i.opcode;
    &&& is_comparison(op) && !reals ==> (r matches Ok(Event::Continue)) && after == stored(
        before,
        i.p1 as int,
        truth(comparison_holds(op, value_order(a, b))),
    )
    &&& op == Opcode::Concat && !reals ==> (r matches Ok(Event::Continue)) && after == stored(
        before,
        i.p1 as int,
        ValueView::Text(text_form(a) + text_form(b)),
    )
    &&& ((is_comparison(op) || op == Opcode::Concat) && reals) || op == Opcode::Add || op
        == Opcode::Subtract || op == Opcode::Multiply || op == Opcode::Divide ==> (r matches Ok(
        Event::Compute { opcode, dest, left, right },
    ) && opcode == op && dest == i.p1 && left@ == a && right@ == b) && after == before
    &&& op == Opcode::Remainder && int_or_zero(b) == 0 ==> r is Err && after == before
    &&& op == Opcode::Remainder && int_or_zero(b) != 0 ==> (r matches Ok(Event::Continue)) && after
        == stored(
        before,
        i.p1 as int,
        ValueView::Integer(truncated_remainder(int_or_zero(a) as int, int_or_zero(b) as int) as i64),
    )
}

/// The instructions that store into register `p1`.
pub open spec fn stores_p1(op: Opcode) -> bool {
    ||| op == Opcode::Integer || op == Opcode::Int64 || op == Opcode::Real || op == Opcode::String
    ||| op == Opcode::Null || op == Opcode::Move || op == Opcode::Copy || op == Opcode::And
    ||| op == Opcode::Or || op == Opcode::Not || is_comparison(op) || op == Opcode::Concat
    ||| op == Opcode::Remainder || op == Opcode::Add || op == Opcode::Subtract || op
        == Opcode::Multiply || op == Opcode::Divide
}

/// The message of a `Halt`: its text operand, else empty.
pub open spec fn halt_message(p4: P4View) -> Seq<char> {
    match p4 {
        P4View::String(s) => s,
        _ => Seq::empty(),
    }
}

/// Whether a value's serial type fits a record: text and blobs below
/// `2^61` bytes.
fn value_storable(v: &Value) -> (b: bool)
    ensures
        b ==> serial_type_of(v@) < 0x8000000000000000 && serial_type_of(v@) <= usize::MAX,
{
    match v {
        Value::Text(s) => {
            let t = s.as_str();
            let n = t.as_bytes().len();
            assert(t@ == s@);
            (n as u64) < 0x2000_0000_0000_0000 && n < usize::MAX / 2 - 7
        },
        Value::Blob(b) => (b.len() as u64) < 0x2000_0000_0000_0000 && b.len() < usize::MAX / 2 - 7,
        _ => true,
    }
}

impl Vdbe {
    fn find_cursor(&self, id: i32) -> (r: Option<usize>)
        ensures
            r matches Some(k) ==> k < self.cursors@.len() && self.cursors@[k as int].id == id,
    {
        let mut k: usize = 0;
        while k < self.cursors.len()
            invariant
                k <= self.cursors@.len(),
            decreases self.cursors@.len() - k,
        {
            if self.cursors[k].id == id {
                return Some(k);
            }
            k = k + 1;
        }
        None
    }

    /// Runs an instruction that only touches the registers and the program
    /// counter; the counter already points past it.
    fn exec_register_op(&mut self, insn: &Insn) -> (r: Result<Event, SqlliteError>)
        requires
            old(self).wf(),
            insn.p1 >= 0,
            register_step(insn@, old(self).regs_view(), old(self).spec_pc() - 1) is Some,
        ensures
            final(self).wf(),
            final(self).code() == old(self).code(),
            final(self).spec_halted() == old(self).spec_halted(),
            final(self).spec_changes() == old(self).spec_changes(),
            final(self).spec_last_rowid() == old(self).spec_last_rowid(),
            final(self).spec_result_columns() == old(self).spec_result_columns(),
            r matches Ok(Event::Continue),
            register_step(insn@, old(self).regs_view(), old(self).spec_pc() - 1) matches Some((regs, pc))
                && final(self).regs_view() == regs && final(self).spec_pc() == pc,
    {
        let a = self.get_reg(insn.p2);
        let b = self.get_reg(insn.p3);
        let target = insn.p2 as usize;
        match insn.opcode {
            Opcode::Goto => {
                self.pc = target;
            },
            Opcode::Integer => {
                let _ = self.store(insn.p1, Value::Integer(insn.p2 as i64));
            },
            Opcode::Int64 => {
                if let InsnP4::Int64(v) = &insn.p4 {
                    let _ = self.store(insn.p1, Value::Integer(*v));
                }
            },
            Opcode::Real => {
                if let InsnP4::Real(v) = &insn.p4 {
                    let _ = self.store(insn.p1, Value::Real(*v));
                }
            },
            Opcode::String => {
                if let InsnP4::String(v) = &insn.p4 {
                    let _ = self.store(insn.p1, Value::Text(v.clone()));
                }
            },
            Opcode::Null => {
                let _ = self.store(insn.p1, Value::Null);
            },
            Opcode::Move | Opcode::Copy => {
                let _ = self.store(insn.p1, a);
            },
            Opcode::If | Opcode::IfNot => {
                let v = self.get_reg(insn.p1);
                let t = !v.is_null() && match v.as_integer() {
                    Some(i) => i != 0,
                    None => false,
                };
                let jump = match insn.opcode {
                    Opcode::If => t,
                    _ => !t,
                };
                if jump {
                    self.pc = target;
                }
            },
            Opcode::IsNull | Opcode::NotNull => {
                let v = self.get_reg(insn.p1);
                let jump = match insn.opcode {
                    Opcode::IsNull => v.is_null(),
                    _ => !v.is_null(),
                };
                if jump {
                    self.pc = target;
                }
            },
            Opcode::And | Opcode::Or | Opcode::Not => {
                let ai = match a.as_integer() {
                    Some(i) => i,
                    None => 0,
                };
                let bi = match b.as_integer() {
                    Some(i) => i,
                    None => 0,
                };
                let result = match insn.opcode {
                    Opcode::And => !a.is_null() && !b.is_null() && ai != 0 && bi != 0,
                    Opcode::Or => !a.is_null() && !b.is_null() && (ai != 0 || bi != 0),
                    _ => a.is_null() || ai == 0,
                };
                let _ = self.store(insn.p1, Value::Integer(if result { 1 } else { 0 }));
            },
            _ => {},
        }
        Ok(Event::Continue)
    }

    /// Runs a comparison, a concatenation or an arithmetic instruction; one
    /// that needs doubles is handed back as a `Compute` event.
    fn exec_value_op(&mut self, insn: &Insn) -> (r: Result<Event, SqlliteError>)
        requires
            old(self).wf(),
            insn.p1 >= 0,
            is_comparison(insn.opcode) || insn.opcode == Opcode::Concat || insn.opcode == Opcode::Add
                || insn.opcode == Opcode::Subtract || insn.opcode == Opcode::Multiply || insn.opcode
                == Opcode::Divide || insn.opcode == Opcode::Remainder,
        ensures
            final(self).wf(),
            final(self).code() == old(self).code(),
            final(self).spec_pc() == old(self).spec_pc(),
            final(self).spec_halted() == old(self).spec_halted(),
            final(self).spec_changes() == old(self).spec_changes(),
            final(self).spec_last_rowid() == old(self).spec_last_rowid(),
            final(self).spec_result_columns() == old(self).spec_result_columns(),
            value_op_outcome(insn@, old(self).regs_view(), final(self).regs_view(), r),
    {
        let a = self.get_reg(insn.p2);
        let b = self.get_reg(insn.p3);
        let reals = match (&a, &b) {
            (Value::Real(_), _) => true,
            (_, Value::Real(_)) => true,
            _ => false,
        };
        let textual = match insn.opcode {
            Opcode::Eq | Opcode::Ne | Opcode::Lt | Opcode::Le | Opcode::Gt | Opcode::Ge | Opcode::Concat => true,
            _ => false,
        };
        if textual && reals {
            return Ok(Event::Compute { opcode: insn.opcode, dest: insn.p1, left: a, right: b });
        }
        match insn.opcode {
            Opcode::Add | Opcode::Subtract | Opcode::Multiply | Opcode::Divide => {
                Ok(Event::Compute { opcode: insn.opcode, dest: insn.p1, left: a, right: b })
            },
            Opcode::Concat => {
                let mut t = value_text(&a);
                let u = value_text(&b);
                let ghost t0 = t@;
                let mut k: usize = 0;
                while k < u.len()
                    invariant
                        k <= u@.len(),
                        t@ == t0 + u@.take(k as int),
                    decreases u@.len() - k,
                {
                    t.push(u[k]);
                    k = k + 1;
                    assert(u@.take(k as int) =~= u@.take(k - 1).push(u@[k - 1]));
                }
                assert(u@.take(u@.len() as int) =~= u@);
                let text = crate::text::string_of(t.as_slice());
                let _ = self.store(insn.p1, Value::Text(text));
                Ok(Event::Continue)
            },
            Opcode::Remainder => {
                let x = match a.as_integer() {
                    Some(i) => i,
                    None => 0,
                };
                let y = match b.as_integer() {
                    Some(i) => i,
                    None => 0,
                };
                if y == 0 {
                    return Err(SqlliteError::sql(ResultCode::Error, "integer remainder by zero"));
                }
                let m = if y == -1 {
                    0
                } else {
                    x % y
                };
                assert(m == truncated_remainder(x as int, y as int));
                let _ = self.store(insn.p1, Value::Integer(m));
                Ok(Event::Continue)
            },
            _ => {
                let c = compare_values(&a, &b);
                let holds = match insn.opcode {
                    Opcode::Eq => c == 0,
                    Opcode::Ne => c != 0,
                    Opcode::Lt => c < 0,
                    Opcode::Le => c >= 0,
                    Opcode::Gt => c > 0,
                    _ => c <= 0,
                };
                let _ = self.store(insn.p1, Value::Integer(if holds { 1 } else { 0 }));
                Ok(Event::Continue)
            },
        }
    }
}


/// A scan of the b-tree `btree` that visits at most `fuel` cells: the
/// number of cells and the largest key it saw. A scan that does not end
/// within them fails with `Corrupt`.
fn scan_keys<F: VfsFile>(btree: &Btree, pager: &mut Pager<F>) -> (r: Result<(i64, i64), SqlliteError>)
    requires
        pager_ready(old(pager)),
    ensures
        pager_ready(final(pager)),
        pager_kept(old(pager), final(pager)),
        r matches Ok((count, max)) ==> count >= 0 && max >= 0,
{
    let mut cursor = btree.cursor();
    let mut count: i64 = 0;
    let mut max_id: i64 = 0;
    let found = match cursor.first(pager) {
        Ok(b) => b,
        Err(e) => return Err(e),
    };
    if !found {
        return Ok((0, 0));
    }
    let mut fuel: u64 = (pager.page_count() as u64 + 1) * 65536;
    let ghost f0 = fuel as int;
    loop
        invariant_except_break
            0 <= count,
            count + fuel <= f0,
        invariant
            pager_ready(pager),
            pager_kept(old(pager), pager),
            cursor.wf(),
            f0 <= 0x1_0000_0000_0000,
            max_id >= 0,
        ensures
            pager_ready(pager),
            pager_kept(old(pager), pager),
            count >= 0,
            max_id >= 0,
        decreases fuel,
    {
        count = count + 1;
        if let Some(id) = cursor.key() {
            if id > max_id {
                max_id = id;
            }
        }
        match cursor.next(pager) {
            Ok(true) => {},
            Ok(false) => break,
            Err(e) => return Err(e),
        }
        if fuel == 0 {
            return Err(SqlliteError::sql(ResultCode::Corrupt, "b-tree scan does not end"));
        }
        fuel = fuel - 1;
    }
    Ok((count, max_id))
}

impl Vdbe {
    /// Runs an instruction that works on cursors, the pager or the catalog;
    /// the program counter already points past it.
    #[verifier::rlimit(40)]
    fn exec_cursor_op<F: VfsFile>(&mut self, insn: &Insn, pager: &mut Pager<F>, schema: &Schema) -> (r:
        Result<Event, SqlliteError>)
        requires
            old(self).wf(),
            pager_ready(old(pager)),
            schema.wf(),
        ensures
            final(self).wf(),
            final(self).code() == old(self).code(),
            final(self).spec_halted() == old(self).spec_halted(),
            final(self).spec_result_columns() == old(self).spec_result_columns(),
            pager_ready(final(pager)),
            insn.opcode != Opcode::Transaction ==> pager_kept(old(pager), final(pager)),
            insn.opcode == Opcode::Transaction ==> (r matches Ok(Event::Continue))
                && final(pager).spec_in_transaction(),
            (insn.opcode == Opcode::OpenRead || insn.opcode == Opcode::OpenWrite) ==> match insn.p4@ {
                P4View::String(name) => !schema.table_keys().contains(crate::schema::lowercase(name)) ==> (
                r matches Err(e) && is_sql_error(e, ResultCode::Error, "no such table: "@ + name)),
                _ => r matches Err(e) && is_sql_error(e, ResultCode::Internal, "missing table name"@),
            },
    {
        let target = insn.p2 as usize;
        match insn.opcode {
            Opcode::Transaction => {
                let _ = pager.begin();
                proof {
                    assert(pager_ready(pager));
                }
                Ok(Event::Continue)
            },
            Opcode::OpenRead | Opcode::OpenWrite => {
                let name = match &insn.p4 {
                    InsnP4::String(s) => s,
                    _ => return Err(SqlliteError::sql(ResultCode::Internal, "missing table name")),
                };
                let table = match schema.table(name.as_str()) {
                    Some(t) => t,
                    None => {
                        let mut cs: Vec<char> = Vec::new();
                        crate::text::push_str_chars(&mut cs, "no such table: ");
                        crate::text::push_str_chars(&mut cs, name.as_str());
                        let m = crate::text::string_of(cs.as_slice());
                        return Err(SqlliteError::sql(ResultCode::Error, m.as_str()));
                    },
                };
                let btree = Btree::new(table.root_page, BtreeFlags { intkey: true, blobkey: false });
                let cursor = btree.cursor();
                let state = CursorState { id: insn.p1, btree, cursor };
                match self.find_cursor(insn.p1) {
                    Some(k) => {
                        self.cursors.set(k, state);
                    },
                    None => {
                        self.cursors.push(state);
                    },
                }
                Ok(Event::Continue)
            },
            Opcode::Rewind | Opcode::Last | Opcode::SorterNext | Opcode::SeekRowid => {
                let id = match insn.opcode {
                    Opcode::SeekRowid => insn.p1,
                    _ => insn.p1,
                };
                let k = match self.find_cursor(id) {
                    Some(k) => k,
                    None => return Ok(Event::Continue),
                };
                let rowid = match self.get_reg(insn.p3) {
                    Value::Integer(i) => i,
                    _ => 0,
                };
                let mut cs = self.cursors.remove(k);
                proof {
                    assert(cs.cursor.wf());
                }
                let res = match insn.opcode {
                    Opcode::Rewind => cs.cursor.first(pager),
                    Opcode::SeekRowid => cs.cursor.seek(pager, rowid),
                    _ => cs.cursor.next(pager),
                };
                self.cursors.insert(k, cs);
                let found = match res {
                    Ok(b) => b,
                    Err(e) => return Err(e),
                };
                match insn.opcode {
                    Opcode::Rewind | Opcode::SeekRowid => {
                        if !found {
                            self.pc = target;
                        }
                    },
                    _ => {
                        if found {
                            self.pc = target;
                        } else {
                            self.pc = self.program.insns.len();
                        }
                    },
                }
                Ok(Event::Continue)
            },
            Opcode::NotFound | Opcode::Found => {
                if let Some(k) = self.find_cursor(insn.p1) {
                    let eof = self.cursors[k].cursor.is_eof();
                    let jump = match insn.opcode {
                        Opcode::NotFound => eof,
                        _ => !eof,
                    };
                    if jump {
                        self.pc = target;
                    }
                }
                Ok(Event::Continue)
            },
            Opcode::Column => {
                if let Some(k) = self.find_cursor(insn.p2) {
                    let values = match self.cursors[k].cursor.values() {
                        Ok(v) => v,
                        Err(e) => return Err(e),
                    };
                    let v = if insn.p3 >= 0 && (insn.p3 as usize) < values.len() {
                        copy_value(&values[insn.p3 as usize])
                    } else {
                        Value::Null
                    };
                    return match self.store(insn.p1, v) {
                        Ok(()) => Ok(Event::Continue),
                        Err(e) => Err(e),
                    };
                }
                Ok(Event::Continue)
            },
            Opcode::Rowid => {
                if let Some(k) = self.find_cursor(insn.p2) {
                    if let Some(id) = self.cursors[k].cursor.key() {
                        return match self.store(insn.p1, Value::Integer(id)) {
                            Ok(()) => Ok(Event::Continue),
                            Err(e) => Err(e),
                        };
                    }
                }
                Ok(Event::Continue)
            },
            Opcode::MakeRecord => {
                let mut values: Vec<Value> = Vec::new();
                let mut i: i32 = 0;
                while i < insn.p1
                    invariant
                        0 <= i <= insn.p1 || (insn.p1 < 0 && i == 0),
                        values@.len() == i,
                        forall|j: int| 0 <= j < values@.len() ==> serial_type_of(#[trigger] values@[j]@)
                            < 0x8000000000000000 && serial_type_of(values@[j]@) <= usize::MAX,
                        *self == *old(self),
                        self.wf(),
                        insn.opcode == Opcode::MakeRecord,
                        *pager == *old(pager),
                        pager_ready(pager),
                    decreases insn.p1 - i,
                {
                    let idx = insn.p2 as i64 + i as i64;
                    let v = if idx <= i32::MAX as i64 {
                        self.get_reg(idx as i32)
                    } else {
                        Value::Null
                    };
                    if !value_storable(&v) {
                        return Err(SqlliteError::sql(ResultCode::TooBig, "string or blob too big"));
                    }
                    values.push(v);
                    i = i + 1;
                }
                let record = encode_record(values.as_slice());
                match self.store(insn.p3, Value::Blob(record)) {
                    Ok(()) => Ok(Event::Continue),
                    Err(e) => Err(e),
                }
            },
            Opcode::NewRowid | Opcode::Count => {
                let scanned = match self.find_cursor(insn.p2) {
                    Some(k) => match scan_keys(&self.cursors[k].btree, pager) {
                        Ok(p) => Some(p),
                        Err(e) => return Err(e),
                    },
                    None => None,
                };
                match insn.opcode {
                    Opcode::NewRowid => {
                        let max_id = match scanned {
                            Some((_, m)) => m,
                            None => 0,
                        };
                        if max_id == i64::MAX {
                            return Err(SqlliteError::sql(ResultCode::Full, "database or disk is full"));
                        }
                        let rowid = max_id + 1;
                        match self.store(insn.p1, Value::Integer(rowid)) {
                            Ok(()) => {},
                            Err(e) => return Err(e),
                        }
                        self.last_rowid = rowid;
                        Ok(Event::Continue)
                    },
                    _ => {
                        if let Some((count, _)) = scanned {
                            return match self.store(insn.p1, Value::Integer(count)) {
                                Ok(()) => Ok(Event::Continue),
                                Err(e) => Err(e),
                            };
                        }
                        Ok(Event::Continue)
                    },
                }
            },
            Opcode::Insert | Opcode::InsertInt => {
                let k = match self.find_cursor(insn.p2) {
                    Some(k) => k,
                    None => return Ok(Event::Continue),
                };
                let rowid = match insn.opcode {
                    Opcode::InsertInt => insn.p3 as i64,
                    _ => match self.get_reg(insn.p3) {
                        Value::Integer(i) => i,
                        _ => return Err(SqlliteError::sql(ResultCode::Mismatch, "rowid must be integer")),
                    },
                };
                let record = match self.get_reg(insn.p1) {
                    Value::Blob(b) => b,
                    _ => return Err(SqlliteError::sql(ResultCode::Internal, "expected record blob")),
                };
                if rowid < 0 {
                    return Err(SqlliteError::sql(ResultCode::Mismatch, "rowid must not be negative"));
                }
                if record.len() as u64 >= 0x8000_0000_0000_0000 {
                    return Err(SqlliteError::sql(ResultCode::TooBig, "string or blob too big"));
                }
                let mut cs = self.cursors.remove(k);
                let res = cs.btree.insert(pager, rowid, record.as_slice());
                self.cursors.insert(k, cs);
                match res {
                    Ok(()) => {},
                    Err(e) => return Err(e),
                }
                if self.changes < i64::MAX {
                    self.changes = self.changes + 1;
                }
                self.last_rowid = rowid;
                Ok(Event::Continue)
            },
            Opcode::Delete => {
                if let Some(k) = self.find_cursor(insn.p2) {
                    if let Some(rowid) = self.cursors[k].cursor.key() {
                        match self.cursors[k].btree.delete(pager, rowid) {
                            Ok(_) => {},
                            Err(e) => return Err(e),
                        }
                        if self.changes < i64::MAX {
                            self.changes = self.changes + 1;
                        }
                    }
                }
                Ok(Event::Continue)
            },
            _ => Ok(Event::Continue),
        }
    }
}


fn copy_insn(i: &Insn) -> (r: Insn)
    ensures
        r@ == i@,
{
    Insn { opcode: i.opcode, p1: i.p1, p2: i.p2, p3: i.p3, p4: crate::program::copy_p4(&i.p4), p5: i.p5 }
}

impl Vdbe {
    /// Runs the instruction at the program counter, which first moves past
    /// it. A `Halt` stops the machine with its code and message.
    pub fn exec_next<F: VfsFile>(&mut self, pager: &mut Pager<F>, schema: &Schema) -> (r: Result<
        Event,
        SqlliteError,
    >)
        requires
            old(self).wf(),
            !old(self).spec_halted(),
            old(self).spec_pc() < old(self).code().len(),
            pager_ready(old(pager)),
            schema.wf(),
        ensures
            final(self).wf(),
            final(self).code() == old(self).code(),
            pager_ready(final(pager)),
            ({
                let i = old(self).code()[old(self).spec_pc()];
                let regs = old(self).regs_view();
                let pc = old(self).spec_pc();
                &&& i.opcode != Opcode::Transaction ==> pager_kept(old(pager), final(pager))
                &&& i.p1 < 0 && stores_p1(i.opcode) ==> r is Err
                &&& i.p1 >= 0 && register_step(i, regs, pc) is Some ==> (r matches Ok(Event::Continue))
                    && (register_step(i, regs, pc) matches Some((regs2, pc2)) && final(self).regs_view()
                    == regs2 && final(self).spec_pc() == pc2) && *final(pager) == *old(pager)
                    && !final(self).spec_halted()
                &&& i.p1 >= 0 && stores_p1(i.opcode) && register_step(i, regs, pc) is None ==> value_op_outcome(
                    i,
                    regs,
                    final(self).regs_view(),
                    r,
                ) && final(self).spec_pc() == pc + 1 && *final(pager) == *old(pager)
                &&& i.opcode == Opcode::Halt ==> (r matches Ok(Event::Halt(code, m)) && code == halt_code_of(
                    i.p1,
                ) && m@ == halt_message(i.p4)) && final(self).spec_halted() && final(self).spec_halt_code()
                    == halt_code_of(i.p1)
                &&& i.opcode == Opcode::ResultRow ==> (r matches Ok(Event::Row)) && final(self).spec_result_columns()
                    == (if i.p1 > 0 {
                    i.p1 as int
                } else {
                    0
                }) && final(self).regs_view() == regs && final(self).spec_pc() == pc + 1
                &&& i.opcode == Opcode::Transaction ==> (r matches Ok(Event::Continue))
                    && final(pager).spec_in_transaction()
            }),
    {
        assert(self.program.insns@.len() == self.code().len());
        let n = self.program.insns.len();
        assert(self.pc < n);
        let insn = copy_insn(&self.program.insns[self.pc]);
        assert(insn@ == self.code()[self.spec_pc()]);
        self.pc = self.pc + 1;
        let op = insn.opcode;
        let stores = match op {
            Opcode::Integer | Opcode::Int64 | Opcode::Real | Opcode::String | Opcode::Null | Opcode::Move
            | Opcode::Copy | Opcode::And | Opcode::Or | Opcode::Not | Opcode::Eq | Opcode::Ne | Opcode::Lt
            | Opcode::Le | Opcode::Gt | Opcode::Ge | Opcode::Concat | Opcode::Remainder | Opcode::Add
            | Opcode::Subtract | Opcode::Multiply | Opcode::Divide => true,
            _ => false,
        };
        if stores && insn.p1 < 0 {
            return Err(SqlliteError::sql(ResultCode::Internal, "register index out of range"));
        }
        match op {
            Opcode::Halt => {
                let code = halt_code_from(insn.p1);
                let msg = match &insn.p4 {
                    InsnP4::String(s) => s.clone(),
                    _ => String::new(),
                };
                self.halted = true;
                self.halt_code = code;
                Ok(Event::Halt(code, msg))
            },
            Opcode::ResultRow => {
                self.result_columns = if insn.p1 > 0 {
                    insn.p1 as usize
                } else {
                    0
                };
                Ok(Event::Row)
            },
            Opcode::Init | Opcode::Blob | Opcode::Goto | Opcode::Integer | Opcode::Int64 | Opcode::Real
            | Opcode::String | Opcode::Null | Opcode::Move | Opcode::Copy | Opcode::If | Opcode::IfNot
            | Opcode::IsNull | Opcode::NotNull | Opcode::And | Opcode::Or | Opcode::Not => {
                if insn.p1 < 0 {
                    let jump = match op {
                        Opcode::Goto => true,
                        Opcode::IfNot | Opcode::IsNull => true,
                        _ => false,
                    };
                    if jump {
                        self.pc = insn.p2 as usize;
                    }
                    return Ok(Event::Continue);
                }
                self.exec_register_op(&insn)
            },
            Opcode::Eq | Opcode::Ne | Opcode::Lt | Opcode::Le | Opcode::Gt | Opcode::Ge | Opcode::Concat
            | Opcode::Remainder | Opcode::Add | Opcode::Subtract | Opcode::Multiply | Opcode::Divide => {
                self.exec_value_op(&insn)
            },
            _ => self.exec_cursor_op(&insn, pager, schema),
        }
    }
}

} // verus!
