use vstd::prelude::*;
use crate::text::{cat, cat3, i32_text, int_text};

verus! {

broadcast use vstd::std_specs::vec::group_vec_axioms;

/// A node that prints itself as Koopa text.
pub trait AstNode {
    spec fn koopa_text(&self) -> Seq<char>;

    fn to_koopa_ir(&self) -> (s: String)
        ensures
            s@ == self.koopa_text();
}

/// A program of one function.
#[derive(Debug)]
pub struct CompUnit {
    pub func_def: FuncDef,
}

#[derive(Debug)]
pub struct FuncDef {
    pub func_type: FuncType,
    pub ident: String,
    pub block: Block,
}

#[derive(Debug)]
pub enum FuncType {
    Void,
    Int,
}

#[derive(Debug)]
pub struct Block {
    pub stmts: Vec<Stmt>,
}

#[derive(Debug)]
pub enum Stmt {
    Return(i32),
}

pub open spec fn stmt_text(s: Stmt) -> Seq<char> {
    match s {
        Stmt::Return(n) => "  ret "@ + int_text(n as int) + "\n"@,
    }
}

pub open spec fn stmts_text(ss: Seq<Stmt>) -> Seq<char>
    decreases ss.len(),
{
    if ss.len() == 0 {
        Seq::empty()
    } else {
        stmts_text(ss.drop_last()) + stmt_text(ss.last())
    }
}

pub open spec fn func_type_text(t: FuncType) -> Seq<char> {
    match t {
        FuncType::Void => "void"@,
        FuncType::Int => "i32"@,
    }
}

pub open spec fn func_text(f: FuncDef) -> Seq<char> {
    "fun @"@ + f.ident@ + "(): "@ + func_type_text(f.func_type) + " {\n%entry:\n"@ + stmts_text(f.block.stmts@) + "}\n"@
}

impl AstNode for Stmt {
    open spec fn koopa_text(&self) -> Seq<char> {
        stmt_text(*self)
    }

    fn to_koopa_ir(&self) -> (s: String) {
        match self {
            Stmt::Return(num) => {
                let n = i32_text(*num);
                cat3("  ret ", n.as_str(), "\n")
            }
        }
    }
}

impl AstNode for Block {
    open spec fn koopa_text(&self) -> Seq<char> {
        stmts_text(self.stmts@)
    }

    fn to_koopa_ir(&self) -> (s: String) {
        let mut ir = String::new();
        let mut i: usize = 0;
        while i < self.stmts.len()
            invariant
                i <= self.stmts@.len(),
                ir@ == stmts_text(self.stmts@.take(i as int)),
            decreases self.stmts.len() - i,
        {
            proof {
                assert(self.stmts@.take(i + 1).drop_last() =~= self.stmts@.take(i as int));
            }
            let line = self.stmts[i].to_koopa_ir();
            ir.append(line.as_str());
            i = i + 1;
        }
        proof {
            assert(self.stmts@.take(self.stmts@.len() as int) =~= self.stmts@);
        }
        ir
    }
}

impl AstNode for FuncType {
    open spec fn koopa_text(&self) -> Seq<char> {
        func_type_text(*self)
    }

    fn to_koopa_ir(&self) -> (s: String) {
        match self {
            FuncType::Void => String::from_str("void"),
            FuncType::Int => String::from_str("i32"),
        }
    }
}

impl AstNode for FuncDef {
    open spec fn koopa_text(&self) -> Seq<char> {
        func_text(*self)
    }

    fn to_koopa_ir(&self) -> (s: String) {
        let t = self.func_type.to_koopa_ir();
        let head = cat3("fun @", self.ident.as_str(), "(): ");
        let head = cat3(head.as_str(), t.as_str(), " {\n%entry:\n");
        let body = self.block.to_koopa_ir();
        let ir = cat(head.as_str(), body.as_str());
        cat(ir.as_str(), "}\n")
    }
}

impl AstNode for CompUnit {
    open spec fn koopa_text(&self) -> Seq<char> {
        func_text(self.func_def)
    }

    fn to_koopa_ir(&self) -> (s: String) {
        self.func_def.to_koopa_ir()
    }
}

} // verus!
