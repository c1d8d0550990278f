use vstd::prelude::*;
use crate::lalr::{BType, SBType};

verus! {

/// The types of the LLVM backend.
#[derive(Debug)]
pub enum LlvmType {
    I32,
    I64,
    Void,
    Ptr(Box<LlvmType>),
    Struct(String),
    Array(usize, Box<LlvmType>),
    Promise(Box<LlvmType>),
}

/// The view of an LLVM type, with struct names as character sequences.
pub enum SLlvm {
    I32,
    I64,
    Void,
    Ptr(Box<SLlvm>),
    Struct(Seq<char>),
    Array(usize, Box<SLlvm>),
    Promise(Box<SLlvm>),
}

impl View for LlvmType {
    type V = SLlvm;

    open spec fn view(&self) -> SLlvm
        decreases self,
    {
        match self {
            LlvmType::I32 => SLlvm::I32,
            LlvmType::I64 => SLlvm::I64,
            LlvmType::Void => SLlvm::Void,
            LlvmType::Ptr(t) => SLlvm::Ptr(Box::new((**t).view())),
            LlvmType::Struct(n) => SLlvm::Struct(n@),
            LlvmType::Array(n, t) => SLlvm::Array(*n, Box::new((**t).view())),
            LlvmType::Promise(t) => SLlvm::Promise(Box::new((**t).view())),
        }
    }
}

/// The backend type of a source type.
pub open spec fn spec_from_btype(b: SBType) -> SLlvm
    decreases b,
{
    match b {
        SBType::I32 => SLlvm::I32,
        SBType::Void => SLlvm::Void,
        SBType::Struct(n) => SLlvm::Struct(n),
        SBType::Promise(inner) => SLlvm::Promise(Box::new(spec_from_btype(*inner))),
        SBType::Ptr(inner) => SLlvm::Ptr(Box::new(spec_from_btype(*inner))),
        SBType::Array(len, inner) => SLlvm::Array(len, Box::new(spec_from_btype(*inner))),
    }
}

/// The value a promise of type `t` resolves to; other types stand for themselves.
pub open spec fn spec_promise_value(t: SLlvm) -> SLlvm {
    match t {
        SLlvm::Promise(inner) => *inner,
        other => other,
    }
}

impl LlvmType {
    pub fn from_btype(btype: &BType) -> (t: LlvmType)
        ensures
            t@ == spec_from_btype(btype@),
        decreases btype,
    {
        match btype {
            BType::I32 => LlvmType::I32,
            BType::Void => LlvmType::Void,
            BType::Struct(name) => LlvmType::Struct(name.clone()),
            BType::Promise(inner) => LlvmType::Promise(Box::new(LlvmType::from_btype(inner))),
            BType::Ptr(inner) => LlvmType::Ptr(Box::new(LlvmType::from_btype(inner))),
            BType::Array(len, inner) => LlvmType::Array(*len, Box::new(LlvmType::from_btype(inner))),
        }
    }

    pub fn copy(&self) -> (t: LlvmType)
        ensures
            t == *self,
            t@ == self@,
        decreases self,
    {
        match self {
            LlvmType::I32 => LlvmType::I32,
            LlvmType::I64 => LlvmType::I64,
            LlvmType::Void => LlvmType::Void,
            LlvmType::Ptr(t) => LlvmType::Ptr(Box::new((**t).copy())),
            LlvmType::Struct(n) => LlvmType::Struct(n.clone()),
            LlvmType::Array(n, t) => LlvmType::Array(*n, Box::new((**t).copy())),
            LlvmType::Promise(t) => LlvmType::Promise(Box::new((**t).copy())),
        }
    }

    pub fn promise_value(&self) -> (t: LlvmType)
        ensures
            t@ == spec_promise_value(self@),
    {
        match self {
            LlvmType::Promise(inner) => (**inner).copy(),
            other => other.copy(),
        }
    }

    pub fn is_void(&self) -> (b: bool)
        ensures
            b == (self@ is Void),
    {
        match self {
            LlvmType::Void => true,
            _ => false,
        }
    }

    /// Structural equality of two types.
    pub fn same(&self, other: &LlvmType) -> (b: bool)
        ensures
            b == (self@ == other@),
        decreases self,
    {
        match (self, other) {
            (LlvmType::I32, LlvmType::I32) => true,
            (LlvmType::I64, LlvmType::I64) => true,
            (LlvmType::Void, LlvmType::Void) => true,
            (LlvmType::Ptr(a), LlvmType::Ptr(b)) => a.same(b),
            (LlvmType::Struct(a), LlvmType::Struct(b)) => *a == *b,
            (LlvmType::Array(n, a), LlvmType::Array(m, b)) => *n == *m && a.same(b),
            (LlvmType::Promise(a), LlvmType::Promise(b)) => a.same(b),
            _ => false,
        }
    }
}

} // verus!
