//! VDBE programs: instructions and their operands.

use vstd::prelude::*;

verus! {

/// The operation of a VDBE instruction.
#[derive(Debug, Clone, Copy, PartialEq, Eq, Structural)]
pub enum Opcode {
    Init,
    Halt,
    Goto,
    Integer,
    Int64,
    Real,
    String,
    Null,
    Blob,
    Move,
    Copy,
    ResultRow,
    Transaction,
    OpenRead,
    OpenWrite,
    Rewind,
    Last,
    SorterNext,
    Column,
    Rowid,
    MakeRecord,
    NewRowid,
    Insert,
    InsertInt,
    Delete,
    Eq,
    Ne,
    Lt,
    Le,
    Gt,
    Ge,
    If,
    IfNot,
    IsNull,
    NotNull,
    Add,
    Subtract,
    Multiply,
    Divide,
    Remainder,
    Concat,
    And,
    Or,
    Not,
    SeekRowid,
    NotFound,
    Found,
    Close,
    CreateBtree,
    Destroy,
    DropTable,
    SetCookie,
    Count,
}

/// The fourth operand of an instruction. A real is kept as the bits of its
/// double.
#[derive(Debug, Clone)]
pub enum InsnP4 {
    Nothing,
    Int64(i64),
    Real(u64),
    String(String),
}

/// What the fourth operand holds.
pub enum P4View {
    Nothing,
    Int64(i64),
    Real(u64),
    String(Seq<char>),
}

impl View for InsnP4 {
    type V = P4View;

    open spec fn view(&self) -> P4View {
        match self {
            InsnP4::Nothing => P4View::Nothing,
            InsnP4::Int64(v) => P4View::Int64(*v),
            InsnP4::Real(b) => P4View::Real(*b),
            InsnP4::String(s) => P4View::String(s@),
        }
    }
}

/// A copy of `p`.
pub fn copy_p4(p: &InsnP4) -> (r: InsnP4)
    ensures
        r@ == p@,
{
    match p {
        InsnP4::Nothing => InsnP4::Nothing,
        InsnP4::Int64(v) => InsnP4::Int64(*v),
        InsnP4::Real(b) => InsnP4::Real(*b),
        InsnP4::String(s) => InsnP4::String(s.clone()),
    }
}

/// One instruction: an operation and its operands.
#[derive(Debug, Clone)]
pub struct Insn {
    pub opcode: Opcode,
    pub p1: i32,
    pub p2: i32,
    pub p3: i32,
    pub p4: InsnP4,
    pub p5: u16,
}

/// What an instruction holds.
pub struct InsnView {
    pub opcode: Opcode,
    pub p1: i32,
    pub p2: i32,
    pub p3: i32,
    pub p4: P4View,
    pub p5: u16,
}

impl View for Insn {
    type V = InsnView;

    open spec fn view(&self) -> InsnView {
        InsnView {
            opcode: self.opcode,
            p1: self.p1,
            p2: self.p2,
            p3: self.p3,
            p4: self.p4@,
            p5: self.p5,
        }
    }
}

/// The instruction `opcode p1 p2 p3 p4` with no flags.
pub open spec fn ins(opcode: Opcode, p1: i32, p2: i32, p3: i32, p4: P4View) -> InsnView {
    InsnView { opcode, p1, p2, p3, p4, p5: 0 }
}

/// A compiled statement: its instructions, the registers it asks for and
/// whether it only reads.
#[derive(Debug)]
pub struct Program {
    pub insns: Vec<Insn>,
    pub n_reg: usize,
    pub read_only: bool,
}

impl Program {
    /// The instructions as values.
    pub open spec fn code(&self) -> Seq<InsnView> {
        self.insns@.map_values(|i: Insn| i@)
    }

    /// An empty program that asks for no register and may write.
    pub fn new() -> (p: Program)
        ensures
            p.code() == Seq::<InsnView>::empty(),
            p.n_reg == 0,
            !p.read_only,
    {
        let p = Program { insns: Vec::new(), n_reg: 0, read_only: false };
        assert(p.code() =~= Seq::<InsnView>::empty());
        p
    }

    /// Appends `insn`; returns its address.
    pub fn emit(&mut self, insn: Insn) -> (addr: usize)
        ensures
            addr == old(self).insns@.len(),
            addr == old(self).code().len(),
            final(self).code() == old(self).code().push(insn@),
            final(self).insns@.len() == final(self).code().len(),
            final(self).n_reg == old(self).n_reg,
            final(self).read_only == old(self).read_only,
    {
        let addr = self.insns.len();
        let ghost c0 = self.code();
        self.insns.push(insn);
        assert(self.code() =~= c0.push(insn@));
        addr
    }

    /// Sets the second operand of the instruction at `addr` to `target`.
    pub fn patch_p2(&mut self, addr: usize, target: i32)
        requires
            addr < old(self).code().len(),
        ensures
            final(self).code() == old(self).code().update(
                addr as int,
                InsnView { p2: target, ..old(self).code()[addr as int] },
            ),
            final(self).n_reg == old(self).n_reg,
            final(self).read_only == old(self).read_only,
    {
        let ghost c0 = self.code();
        assert(self.insns@.len() == c0.len());
        let old_insn = &self.insns[addr];
        let insn = Insn {
            opcode: old_insn.opcode,
            p1: old_insn.p1,
            p2: target,
            p3: old_insn.p3,
            p4: copy_p4(&old_insn.p4),
            p5: old_insn.p5,
        };
        self.insns.set(addr, insn);
        assert(self.code() =~= c0.update(addr as int, InsnView { p2: target, ..c0[addr as int] }));
    }
}

} // verus!
