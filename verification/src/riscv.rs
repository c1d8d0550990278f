use vstd::prelude::*;
use crate::text::{cat, cat3, cat4, i32_text, int_text, nat_text, usize_text};

pub mod allocator;
pub use allocator::{RegAddress, RegisterAllocator};

verus! {

/// A RISC-V register.
#[derive(Debug, Clone, Copy, PartialEq, Eq, PartialOrd, Ord, Structural)]
pub enum RegName {
    Ret,
    Param(usize),
    TempT(usize),
    TempS(usize),
    Ra,
    Stack,
}

/// The assembler name of a register.
pub open spec fn reg_text(r: RegName) -> Seq<char> {
    match r {
        RegName::Ret => "a0"@,
        RegName::Param(i) => "a"@ + nat_text(i as nat),
        RegName::TempT(i) => "t"@ + nat_text(i as nat),
        RegName::TempS(i) => "s"@ + nat_text(i as nat),
        RegName::Ra => "ra"@,
        RegName::Stack => "sp"@,
    }
}

impl RegName {
    pub fn to_string(&self) -> (s: String)
        ensures
            s@ == reg_text(*self),
    {
        match self {
            RegName::Ret => String::from_str("a0"),
            RegName::Param(i) => {
                let n = usize_text(*i);
                cat("a", n.as_str())
            }
            RegName::TempT(i) => {
                let n = usize_text(*i);
                cat("t", n.as_str())
            }
            RegName::TempS(i) => {
                let n = usize_text(*i);
                cat("s", n.as_str())
            }
            RegName::Ra => String::from_str("ra"),
            RegName::Stack => String::from_str("sp"),
        }
    }
}

/// An operand: a register, a memory word at an offset from a register, or
/// an immediate.
#[derive(Debug, Clone, Copy, PartialEq, Eq, Structural)]
pub enum AsmValue {
    Reg(RegName),
    Offset(i32, RegName),
    Const(i32),
}

pub open spec fn value_text(v: AsmValue) -> Seq<char> {
    match v {
        AsmValue::Reg(r) => reg_text(r),
        AsmValue::Offset(off, r) => int_text(off as int) + "("@ + reg_text(r) + ")"@,
        AsmValue::Const(c) => int_text(c as int),
    }
}

impl AsmValue {
    pub fn to_string(&self) -> (s: String)
        ensures
            s@ == value_text(*self),
    {
        match self {
            AsmValue::Reg(reg) => reg.to_string(),
            AsmValue::Offset(offset, reg) => {
                let o = i32_text(*offset);
                let r = reg.to_string();
                cat4(o.as_str(), "(", r.as_str(), ")")
            }
            AsmValue::Const(c) => i32_text(*c),
        }
    }
}

/// One line of assembly.
#[derive(Debug, Clone, PartialEq, Eq)]
pub enum AsmLine {
    PlaceHold(String),
    DirData,
    DirText,
    Global(String),
    GlobName(String),
    DirZero(usize),
    DirWord(i32),
    Label(usize),
    Jump(usize),
    Ret,
    Call(String),
    Beqz(RegName, usize),
    Bnez(RegName, usize),
    Mv(RegName, RegName),
    Load(RegName, AsmValue),
    Store(AsmValue, RegName),
    Li(RegName, i32),
    La(RegName, String),
    Add(RegName, RegName, RegName),
    Addi(RegName, RegName, i32),
    Sub(RegName, RegName, RegName),
    Slt(RegName, RegName, RegName),
    Sgt(RegName, RegName, RegName),
    Seqz(RegName, RegName),
    Snez(RegName, RegName),
    Xor(RegName, RegName, RegName),
    Xori(RegName, RegName, i32),
    Or(RegName, RegName, RegName),
    Ori(RegName, RegName, i32),
    And(RegName, RegName, RegName),
    Andi(RegName, RegName, i32),
    Sll(RegName, RegName, RegName),
    Srl(RegName, RegName, RegName),
    Sra(RegName, RegName, RegName),
    Mul(RegName, RegName, RegName),
    Div(RegName, RegName, RegName),
    Rem(RegName, RegName, RegName),
}

/// The text of an assembly line; a placeholder has none.
pub open spec fn asm_line_text(l: AsmLine) -> Seq<char> {
    match l {
        AsmLine::PlaceHold(_) => Seq::empty(),
        AsmLine::DirText => "\n\t.text"@,
        AsmLine::DirData => "\n\t.data"@,
        AsmLine::Global(name) => "\t.global "@ + name@,
        AsmLine::GlobName(name) => name@ + ":"@,
        AsmLine::DirZero(size) => "\t.zero "@ + nat_text(size as nat),
        AsmLine::DirWord(value) => "\t.word "@ + int_text(value as int),
        AsmLine::Label(id) => "L"@ + nat_text(id as nat) + ":"@,
        AsmLine::Jump(id) => "\tj L"@ + nat_text(id as nat),
        AsmLine::Ret => "\tret"@,
        AsmLine::Call(func) => "\tcall "@ + func@,
        AsmLine::Beqz(r, id) => "\tbeqz "@ + reg_text(r) + ", L"@ + nat_text(id as nat),
        AsmLine::Bnez(r, id) => "\tbnez "@ + reg_text(r) + ", L"@ + nat_text(id as nat),
        AsmLine::Mv(d, s) => "\tmv "@ + reg_text(d) + ", "@ + reg_text(s),
        AsmLine::Load(d, a) => "\tlw "@ + reg_text(d) + ", "@ + value_text(a),
        AsmLine::Store(a, s) => "\tsw "@ + reg_text(s) + ", "@ + value_text(a),
        AsmLine::La(d, label) => "\tla "@ + reg_text(d) + ", "@ + label@,
        AsmLine::Li(d, imm) => "\tli "@ + reg_text(d) + ", "@ + int_text(imm as int),
        AsmLine::Add(d, a, b) => "\tadd "@ + reg_text(d) + ", "@ + reg_text(a) + ", "@ + reg_text(b),
        AsmLine::Sub(d, a, b) => "\tsub "@ + reg_text(d) + ", "@ + reg_text(a) + ", "@ + reg_text(b),
        AsmLine::Slt(d, a, b) => "\tslt "@ + reg_text(d) + ", "@ + reg_text(a) + ", "@ + reg_text(b),
        AsmLine::Sgt(d, a, b) => "\tsgt "@ + reg_text(d) + ", "@ + reg_text(a) + ", "@ + reg_text(b),
        AsmLine::Xor(d, a, b) => "\txor "@ + reg_text(d) + ", "@ + reg_text(a) + ", "@ + reg_text(b),
        AsmLine::Or(d, a, b) => "\tor "@ + reg_text(d) + ", "@ + reg_text(a) + ", "@ + reg_text(b),
        AsmLine::And(d, a, b) => "\tand "@ + reg_text(d) + ", "@ + reg_text(a) + ", "@ + reg_text(b),
        AsmLine::Sll(d, a, b) => "\tsll "@ + reg_text(d) + ", "@ + reg_text(a) + ", "@ + reg_text(b),
        AsmLine::Srl(d, a, b) => "\tsrl "@ + reg_text(d) + ", "@ + reg_text(a) + ", "@ + reg_text(b),
        AsmLine::Sra(d, a, b) => "\tsra "@ + reg_text(d) + ", "@ + reg_text(a) + ", "@ + reg_text(b),
        AsmLine::Mul(d, a, b) => "\tmul "@ + reg_text(d) + ", "@ + reg_text(a) + ", "@ + reg_text(b),
        AsmLine::Div(d, a, b) => "\tdiv "@ + reg_text(d) + ", "@ + reg_text(a) + ", "@ + reg_text(b),
        AsmLine::Rem(d, a, b) => "\trem "@ + reg_text(d) + ", "@ + reg_text(a) + ", "@ + reg_text(b),
        AsmLine::Addi(d, a, i) => "\taddi "@ + reg_text(d) + ", "@ + reg_text(a) + ", "@ + int_text(i as int),
        AsmLine::Xori(d, a, i) => "\txori "@ + reg_text(d) + ", "@ + reg_text(a) + ", "@ + int_text(i as int),
        AsmLine::Ori(d, a, i) => "\tori "@ + reg_text(d) + ", "@ + reg_text(a) + ", "@ + int_text(i as int),
        AsmLine::Andi(d, a, i) => "\tandi "@ + reg_text(d) + ", "@ + reg_text(a) + ", "@ + int_text(i as int),
        AsmLine::Seqz(d, a) => "\tseqz "@ + reg_text(d) + ", "@ + reg_text(a),
        AsmLine::Snez(d, a) => "\tsnez "@ + reg_text(d) + ", "@ + reg_text(a),
    }
}

impl AsmLine {
    /// The assembler text of the line; placeholders must have been replaced.
    pub fn to_string(&self) -> (s: String)
        requires
            !(*self is PlaceHold),
        ensures
            s@ == asm_line_text(*self),
    {
        match self {
            AsmLine::PlaceHold(_) => String::new(),
            AsmLine::DirText => String::from_str("\n\t.text"),
            AsmLine::DirData => String::from_str("\n\t.data"),
            AsmLine::Global(name) => cat("\t.global ", name.as_str()),
            AsmLine::GlobName(name) => cat(name.as_str(), ":"),
            AsmLine::DirZero(size) => {
                let n = usize_text(*size);
                cat("\t.zero ", n.as_str())
            }
            AsmLine::DirWord(value) => {
                let n = i32_text(*value);
                cat("\t.word ", n.as_str())
            }
            AsmLine::Label(id) => {
                let n = usize_text(*id);
                cat3("L", n.as_str(), ":")
            }
            AsmLine::Jump(id) => {
                let n = usize_text(*id);
                cat("\tj L", n.as_str())
            }
            AsmLine::Ret => String::from_str("\tret"),
            AsmLine::Call(func) => cat("\tcall ", func.as_str()),
            AsmLine::Beqz(r, id) => {
                let (x, n) = (r.to_string(), usize_text(*id));
                cat4("\tbeqz ", x.as_str(), ", L", n.as_str())
            }
            AsmLine::Bnez(r, id) => {
                let (x, n) = (r.to_string(), usize_text(*id));
                cat4("\tbnez ", x.as_str(), ", L", n.as_str())
            }
            AsmLine::Mv(d, s) => {
                let (x, y) = (d.to_string(), s.to_string());
                cat4("\tmv ", x.as_str(), ", ", y.as_str())
            }
            AsmLine::Load(d, a) => {
                let (x, y) = (d.to_string(), a.to_string());
                cat4("\tlw ", x.as_str(), ", ", y.as_str())
            }
            AsmLine::Store(a, s) => {
                let (x, y) = (s.to_string(), a.to_string());
                cat4("\tsw ", x.as_str(), ", ", y.as_str())
            }
            AsmLine::La(d, label) => {
                let x = d.to_string();
                cat4("\tla ", x.as_str(), ", ", label.as_str())
            }
            AsmLine::Li(d, imm) => {
                let (x, y) = (d.to_string(), i32_text(*imm));
                cat4("\tli ", x.as_str(), ", ", y.as_str())
            }
            AsmLine::Add(d, a, b) => {
                let (x, y, z) = (d.to_string(), a.to_string(), b.to_string());
                let s = cat4("\tadd ", x.as_str(), ", ", y.as_str());
                cat3(s.as_str(), ", ", z.as_str())
            }
            AsmLine::Sub(d, a, b) => {
                let (x, y, z) = (d.to_string(), a.to_string(), b.to_string());
                let s = cat4("\tsub ", x.as_str(), ", ", y.as_str());
                cat3(s.as_str(), ", ", z.as_str())
            }
            AsmLine::Slt(d, a, b) => {
                let (x, y, z) = (d.to_string(), a.to_string(), b.to_string());
                let s = cat4("\tslt ", x.as_str(), ", ", y.as_str());
                cat3(s.as_str(), ", ", z.as_str())
            }
            AsmLine::Sgt(d, a, b) => {
                let (x, y, z) = (d.to_string(), a.to_string(), b.to_string());
                let s = cat4("\tsgt ", x.as_str(), ", ", y.as_str());
                cat3(s.as_str(), ", ", z.as_str())
            }
            AsmLine::Xor(d, a, b) => {
                let (x, y, z) = (d.to_string(), a.to_string(), b.to_string());
                let s = cat4("\txor ", x.as_str(), ", ", y.as_str());
                cat3(s.as_str(), ", ", z.as_str())
            }
            AsmLine::Or(d, a, b) => {
                let (x, y, z) = (d.to_string(), a.to_string(), b.to_string());
                let s = cat4("\tor ", x.as_str(), ", ", y.as_str());
                cat3(s.as_str(), ", ", z.as_str())
            }
            AsmLine::And(d, a, b) => {
                let (x, y, z) = (d.to_string(), a.to_string(), b.to_string());
                let s = cat4("\tand ", x.as_str(), ", ", y.as_str());
                cat3(s.as_str(), ", ", z.as_str())
            }
            AsmLine::Sll(d, a, b) => {
                let (x, y, z) = (d.to_string(), a.to_string(), b.to_string());
                let s = cat4("\tsll ", x.as_str(), ", ", y.as_str());
                cat3(s.as_str(), ", ", z.as_str())
            }
            AsmLine::Srl(d, a, b) => {
                let (x, y, z) = (d.to_string(), a.to_string(), b.to_string());
                let s = cat4("\tsrl ", x.as_str(), ", ", y.as_str());
                cat3(s.as_str(), ", ", z.as_str())
            }
            AsmLine::Sra(d, a, b) => {
                let (x, y, z) = (d.to_string(), a.to_string(), b.to_string());
                let s = cat4("\tsra ", x.as_str(), ", ", y.as_str());
                cat3(s.as_str(), ", ", z.as_str())
            }
            AsmLine::Mul(d, a, b) => {
                let (x, y, z) = (d.to_string(), a.to_string(), b.to_string());
                let s = cat4("\tmul ", x.as_str(), ", ", y.as_str());
                cat3(s.as_str(), ", ", z.as_str())
            }
            AsmLine::Div(d, a, b) => {
                let (x, y, z) = (d.to_string(), a.to_string(), b.to_string());
                let s = cat4("\tdiv ", x.as_str(), ", ", y.as_str());
                cat3(s.as_str(), ", ", z.as_str())
            }
            AsmLine::Rem(d, a, b) => {
                let (x, y, z) = (d.to_string(), a.to_string(), b.to_string());
                let s = cat4("\trem ", x.as_str(), ", ", y.as_str());
                cat3(s.as_str(), ", ", z.as_str())
            }
            AsmLine::Addi(d, a, i) => {
                let (x, y, z) = (d.to_string(), a.to_string(), i32_text(*i));
                let s = cat4("\taddi ", x.as_str(), ", ", y.as_str());
                cat3(s.as_str(), ", ", z.as_str())
            }
            AsmLine::Xori(d, a, i) => {
                let (x, y, z) = (d.to_string(), a.to_string(), i32_text(*i));
                let s = cat4("\txori ", x.as_str(), ", ", y.as_str());
                cat3(s.as_str(), ", ", z.as_str())
            }
            AsmLine::Ori(d, a, i) => {
                let (x, y, z) = (d.to_string(), a.to_string(), i32_text(*i));
                let s = cat4("\tori ", x.as_str(), ", ", y.as_str());
                cat3(s.as_str(), ", ", z.as_str())
            }
            AsmLine::Andi(d, a, i) => {
                let (x, y, z) = (d.to_string(), a.to_string(), i32_text(*i));
                let s = cat4("\tandi ", x.as_str(), ", ", y.as_str());
                cat3(s.as_str(), ", ", z.as_str())
            }
            AsmLine::Seqz(d, a) => {
                let (x, y) = (d.to_string(), a.to_string());
                cat4("\tseqz ", x.as_str(), ", ", y.as_str())
            }
            AsmLine::Snez(d, a) => {
                let (x, y) = (d.to_string(), a.to_string());
                cat4("\tsnez ", x.as_str(), ", ", y.as_str())
            }
        }
    }
}

impl AsmLine {
    pub fn copy(&self) -> (r: AsmLine)
        ensures
            r == *self,
    {
        match self {
            AsmLine::PlaceHold(a0) => AsmLine::PlaceHold(a0.clone()),
            AsmLine::DirData => AsmLine::DirData,
            AsmLine::DirText => AsmLine::DirText,
            AsmLine::Global(a0) => AsmLine::Global(a0.clone()),
            AsmLine::GlobName(a0) => AsmLine::GlobName(a0.clone()),
            AsmLine::DirZero(a0) => AsmLine::DirZero(*a0),
            AsmLine::DirWord(a0) => AsmLine::DirWord(*a0),
            AsmLine::Label(a0) => AsmLine::Label(*a0),
            AsmLine::Jump(a0) => AsmLine::Jump(*a0),
            AsmLine::Ret => AsmLine::Ret,
            AsmLine::Call(a0) => AsmLine::Call(a0.clone()),
            AsmLine::Beqz(a0, a1) => AsmLine::Beqz(*a0, *a1),
            AsmLine::Bnez(a0, a1) => AsmLine::Bnez(*a0, *a1),
            AsmLine::Mv(a0, a1) => AsmLine::Mv(*a0, *a1),
            AsmLine::Load(a0, a1) => AsmLine::Load(*a0, *a1),
            AsmLine::Store(a0, a1) => AsmLine::Store(*a0, *a1),
            AsmLine::Li(a0, a1) => AsmLine::Li(*a0, *a1),
            AsmLine::La(a0, a1) => AsmLine::La(*a0, a1.clone()),
            AsmLine::Add(a0, a1, a2) => AsmLine::Add(*a0, *a1, *a2),
            AsmLine::Addi(a0, a1, a2) => AsmLine::Addi(*a0, *a1, *a2),
            AsmLine::Sub(a0, a1, a2) => AsmLine::Sub(*a0, *a1, *a2),
            AsmLine::Slt(a0, a1, a2) => AsmLine::Slt(*a0, *a1, *a2),
            AsmLine::Sgt(a0, a1, a2) => AsmLine::Sgt(*a0, *a1, *a2),
            AsmLine::Seqz(a0, a1) => AsmLine::Seqz(*a0, *a1),
            AsmLine::Snez(a0, a1) => AsmLine::Snez(*a0, *a1),
            AsmLine::Xor(a0, a1, a2) => AsmLine::Xor(*a0, *a1, *a2),
            AsmLine::Xori(a0, a1, a2) => AsmLine::Xori(*a0, *a1, *a2),
            AsmLine::Or(a0, a1, a2) => AsmLine::Or(*a0, *a1, *a2),
            AsmLine::Ori(a0, a1, a2) => AsmLine::Ori(*a0, *a1, *a2),
            AsmLine::And(a0, a1, a2) => AsmLine::And(*a0, *a1, *a2),
            AsmLine::Andi(a0, a1, a2) => AsmLine::Andi(*a0, *a1, *a2),
            AsmLine::Sll(a0, a1, a2) => AsmLine::Sll(*a0, *a1, *a2),
            AsmLine::Srl(a0, a1, a2) => AsmLine::Srl(*a0, *a1, *a2),
            AsmLine::Sra(a0, a1, a2) => AsmLine::Sra(*a0, *a1, *a2),
            AsmLine::Mul(a0, a1, a2) => AsmLine::Mul(*a0, *a1, *a2),
            AsmLine::Div(a0, a1, a2) => AsmLine::Div(*a0, *a1, *a2),
            AsmLine::Rem(a0, a1, a2) => AsmLine::Rem(*a0, *a1, *a2),
        }
    }
}

/// Where a value lives: a register or a word slot of the stack frame.
#[derive(Debug, Clone, PartialEq, Eq)]
pub enum RegLocation {
    Reg(RegName),
    Stack(usize),
}

} // verus!
