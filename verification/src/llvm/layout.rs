use vstd::prelude::*;
use crate::llvm::types::{LlvmType, SLlvm};
use crate::table::{assoc, Table};
use crate::text::cat;

verus! {

pub const RISCV64_DATA_LAYOUT: &'static str = "e-m:e-p:64:64-i64:64-i128:128-n64-S128";

/// Size in bytes of a pointer on the target.
pub const POINTER_SIZE: usize = 8;
/// Alignment in bytes of a pointer on the target.
pub const POINTER_ALIGN: usize = 8;
/// Size in bytes of an `int` on the target.
pub const INT_SIZE: usize = 4;
/// Alignment in bytes of an `int` on the target.
pub const INT_ALIGN: usize = 4;
/// Size in bytes of an `i64` on the target.
pub const I64_SIZE: usize = 8;
/// The integer type that `malloc` takes its size in.
pub const MALLOC_SIZE_TYPE: &'static str = "i64";

#[derive(Debug)]
pub struct FieldLayout {
    pub name: String,
    pub ty: LlvmType,
    pub index: usize,
}

#[derive(Debug)]
pub struct StructLayout {
    pub fields: Vec<FieldLayout>,
    pub size: usize,
    pub align: usize,
}

pub open spec fn unknown_struct_message(name: Seq<char>) -> Seq<char> {
    "Unknown struct type "@ + name
}

pub open spec fn size_overflow_message() -> Seq<char> {
    "Type size overflows"@
}

/// The size in bytes of an object of type `t`, given the layouts of the structs.
pub open spec fn spec_try_size(t: SLlvm, structs: Seq<(String, StructLayout)>) -> Result<nat, Seq<char>>
    decreases t,
{
    match t {
        SLlvm::I32 => Ok(INT_SIZE as nat),
        SLlvm::I64 => Ok(I64_SIZE as nat),
        SLlvm::Ptr(_) => Ok(POINTER_SIZE as nat),
        SLlvm::Promise(_) => Ok(POINTER_SIZE as nat),
        SLlvm::Void => Ok(0),
        SLlvm::Array(len, inner) => match spec_try_size(*inner, structs) {
            Ok(s) => if (len as nat) * s <= usize::MAX { Ok((len as nat) * s) } else { Err(size_overflow_message()) },
            Err(e) => Err(e),
        },
        SLlvm::Struct(name) => match assoc(structs, name) {
            Some(l) => Ok(l.size as nat),
            None => Err(unknown_struct_message(name)),
        },
    }
}

/// The alignment in bytes of an object of type `t`.
pub open spec fn spec_try_align(t: SLlvm, structs: Seq<(String, StructLayout)>) -> Result<nat, Seq<char>>
    decreases t,
{
    match t {
        SLlvm::I32 => Ok(INT_ALIGN as nat),
        SLlvm::I64 => Ok(I64_SIZE as nat),
        SLlvm::Ptr(_) => Ok(POINTER_ALIGN as nat),
        SLlvm::Promise(_) => Ok(POINTER_ALIGN as nat),
        SLlvm::Void => Ok(1),
        SLlvm::Array(_, inner) => spec_try_align(*inner, structs),
        SLlvm::Struct(name) => match assoc(structs, name) {
            Some(l) => Ok(l.align as nat),
            None => Err(unknown_struct_message(name)),
        },
    }
}

impl LlvmType {
    pub fn try_size(&self, structs: &Table<StructLayout>) -> (r: Result<usize, String>)
        ensures
            match (r, spec_try_size(self@, structs.entries@)) {
                (Ok(v), Ok(w)) => v == w,
                (Err(e), Err(f)) => e@ == f,
                _ => false,
            },
        decreases self,
    {
        match self {
            LlvmType::I32 => Ok(INT_SIZE),
            LlvmType::I64 => Ok(I64_SIZE),
            LlvmType::Ptr(_) | LlvmType::Promise(_) => Ok(POINTER_SIZE),
            LlvmType::Void => Ok(0),
            LlvmType::Array(len, inner) => match inner.try_size(structs) {
                Ok(s) => match len.checked_mul(s) {
                    Some(v) => Ok(v),
                    None => Err(String::from_str("Type size overflows")),
                },
                Err(e) => Err(e),
            },
            LlvmType::Struct(name) => match structs.get(name.as_str()) {
                Some(layout) => Ok(layout.size),
                None => Err(cat("Unknown struct type ", name.as_str())),
            },
        }
    }

    pub fn try_align(&self, structs: &Table<StructLayout>) -> (r: Result<usize, String>)
        ensures
            match (r, spec_try_align(self@, structs.entries@)) {
                (Ok(v), Ok(w)) => v == w,
                (Err(e), Err(f)) => e@ == f,
                _ => false,
            },
        decreases self,
    {
        match self {
            LlvmType::I32 => Ok(INT_ALIGN),
            LlvmType::I64 => Ok(I64_SIZE),
            LlvmType::Ptr(_) | LlvmType::Promise(_) => Ok(POINTER_ALIGN),
            LlvmType::Void => Ok(1),
            LlvmType::Array(_, inner) => inner.try_align(structs),
            LlvmType::Struct(name) => match structs.get(name.as_str()) {
                Some(layout) => Ok(layout.align),
                None => Err(cat("Unknown struct type ", name.as_str())),
            },
        }
    }
}

/// `value` rounded up to a multiple of `align` (unchanged for `align == 0`).
pub open spec fn spec_align_up(value: nat, align: nat) -> nat {
    if align == 0 {
        value
    } else {
        (((value + align - 1) as nat) / align) * align
    }
}

proof fn lemma_align_up_bounds(value: nat, align: nat)
    requires
        align > 0,
    ensures
        value <= spec_align_up(value, align) <= value + align - 1,
{
    let n = (value + align - 1) as nat;
    assert(n / align * align <= n) by (nonlinear_arith)
        requires align > 0;
    assert(n / align * align > n - align) by (nonlinear_arith)
        requires align > 0;
}

pub fn align_up(value: usize, align: usize) -> (r: usize)
    requires
        align == 0 || value + align <= usize::MAX,
    ensures
        r == spec_align_up(value as nat, align as nat),
        align > 0 ==> value <= r <= value + align - 1,
{
    if align == 0 {
        value
    } else {
        proof {
            lemma_align_up_bounds(value as nat, align as nat);
        }
        (value + align - 1) / align * align
    }
}

} // verus!
