use vstd::prelude::*;
use crate::ast::ReturnValue;
use crate::ast_tool::background::{declared_now, rename_text, temp_text, visible_number, Background};
use crate::ast_tool::{mentions_void, spec_value_type, SValueType, ValueType};
use crate::koopa::{KoopaLine, KoopaLines};
use crate::lalr::{binary_const, eval_binary_checked, BType, BinaryOp, Exp, InitVal, SBType, SExp, SInit, SType, SVarDecl, Type, UnaryOp, VarDecl};
use crate::syntax::spec_var_decl_name;
use crate::table::assoc;

verus! {

broadcast use vstd::std_specs::vec::group_vec_axioms;

// ---------------------------------------------------------------------------
// Constants the front end can fold.

/// The value of a name that is a constant in scope.
pub open spec fn visible_constant(bg: Background, name: Seq<char>) -> Option<i32> {
    match visible_number(bg.rename_manager, name) {
        Some(c) => assoc(bg.constant_map.entries@, rename_text(name, c as nat)),
        None => None,
    }
}

/// The value of a binary operator on two constants where the operation is
/// defined; `None` where it overflows or divides by zero, which stops the
/// compiler.
pub open spec fn folded_binary(op: BinaryOp, l: i32, r: i32) -> Option<Option<i32>> {
    match binary_const(op, l, r) {
        Some(Some(v)) => Some(Some(v)),
        _ => None,
    }
}

/// The compile-time value of an expression with the constants in scope:
/// `Some(Some(v))` the value, `Some(None)` not a constant, and `None` where
/// folding stops the compiler (an overflow, a division by zero, `&` or `*`).
pub open spec fn folded(e: SExp, bg: Background) -> Option<Option<i32>>
    decreases e,
{
    match e {
        SExp::Spanned(inner, _) => folded(*inner, bg),
        SExp::Number(n) => Some(Some(n)),
        SExp::UnaryExp(op, inner) => match folded(*inner, bg) {
            None => None,
            Some(None) => Some(None),
            Some(Some(v)) => match op {
                UnaryOp::Pos => Some(Some(v)),
                UnaryOp::Neg => if v == i32::MIN { None } else { Some(Some((-v) as i32)) },
                UnaryOp::Not => Some(Some(if v == 0 { 1i32 } else { 0i32 })),
                UnaryOp::Addr | UnaryOp::Deref => None,
            },
        },
        SExp::BinaryExp(op, lhs, rhs) => match folded(*lhs, bg) {
            None => None,
            Some(None) => Some(None),
            Some(Some(l)) => match folded(*rhs, bg) {
                None => None,
                Some(None) => Some(None),
                Some(Some(r)) => folded_binary(op, l, r),
            },
        },
        SExp::Ident(name) => Some(visible_constant(bg, name)),
        _ => Some(None),
    }
}

impl Exp {
    /// The compile-time value of the expression with the constants in scope.
    pub fn try_eval_const(&self, bg: &Background) -> (r: Option<i32>)
        requires
            folded(self@, *bg) is Some,
        ensures
            folded(self@, *bg) == Some(r),
        decreases self,
    {
        match self {
            Exp::Spanned(inner, _) => inner.try_eval_const(bg),
            Exp::Number(num) => Some(*num),
            Exp::UnaryExp(op, exp) => {
                let value = match exp.try_eval_const(bg) {
                    Some(v) => v,
                    None => {
                        return None;
                    }
                };
                match op {
                    UnaryOp::Pos => Some(value),
                    UnaryOp::Neg => Some(-value),
                    UnaryOp::Not => Some(if value == 0 { 1 } else { 0 }),
                    UnaryOp::Addr | UnaryOp::Deref => None,
                }
            }
            Exp::BinaryExp(op, left, right) => {
                let lhs = match left.try_eval_const(bg) {
                    Some(v) => v,
                    None => {
                        return None;
                    }
                };
                let rhs = match right.try_eval_const(bg) {
                    Some(v) => v,
                    None => {
                        return None;
                    }
                };
                match eval_binary_checked(*op, lhs, rhs) {
                    Some(Some(v)) => Some(v),
                    _ => None,
                }
            }
            Exp::Ident(name) => bg.try_get_constant(name.clone()),
            _ => None,
        }
    }
}

pub open spec fn folded_init(init: SInit, bg: Background) -> Option<Option<i32>>
    decreases init,
{
    match init {
        SInit::Spanned(inner, _) => folded_init(*inner, bg),
        SInit::Exp(e) => folded(e, bg),
        SInit::Arr(_) => Some(None),
    }
}

impl InitVal {
    /// The compile-time value of a scalar initializer.
    pub fn try_eval_const(&self, bg: &Background) -> (r: Option<i32>)
        requires
            folded_init(self@, *bg) is Some,
        ensures
            folded_init(self@, *bg) == Some(r),
        decreases self,
    {
        match self {
            InitVal::Spanned(inner, _) => inner.try_eval_const(bg),
            InitVal::Exp(exp) => exp.try_eval_const(bg),
            InitVal::Arr(_) => None,
        }
    }
}

// ---------------------------------------------------------------------------
// Declarations.

/// The type a declarator gives its base type: each dimension, the
/// outermost declarator's first, wraps an array around the rest. The outer
/// `None` stops the compiler, the inner one marks a dimension that is no
/// constant.
pub open spec fn declared_type(var: SVarDecl, base: SValueType, bg: Background) -> Option<Option<SValueType>>
    decreases var,
{
    match var {
        SVarDecl::Ident(_) => Some(Some(base)),
        SVarDecl::Array(inner, len) => match folded(len, bg) {
            None => None,
            Some(None) => Some(None),
            Some(Some(v)) => match declared_type(*inner, base, bg) {
                None => None,
                Some(None) => Some(None),
                Some(Some(t)) => Some(Some(SValueType::Array(v as usize, Box::new(t)))),
            },
        },
    }
}

fn inner_decl(var: &VarDecl, base_ty: ValueType, bg: &Background) -> (r: Option<ValueType>)
    requires
        declared_type(var@, base_ty@, *bg) is Some,
    ensures
        declared_type(var@, base_ty@, *bg) == Some(match r {
            Some(t) => Some(t@),
            None => None::<SValueType>,
        }),
    decreases var,
{
    match var {
        VarDecl::Ident(_) => Some(base_ty),
        VarDecl::Array(inner, len) => {
            let len = match len.try_eval_const(bg) {
                Some(v) => v,
                None => {
                    return None;
                }
            };
            let inner_ty = match inner_decl(inner, base_ty, bg) {
                Some(t) => t,
                None => {
                    return None;
                }
            };
            Some(ValueType::Array(len as usize, Box::new(inner_ty)))
        }
    }
}

pub open spec fn type_btype(t: SType) -> SBType {
    match t {
        SType::BType(b) => b,
        SType::Const(b) => b,
    }
}

/// The value type of a declaration; its dimensions must be constants and its
/// base type no `void`.
pub fn resolve_decl_value_type(base: &Type, var: &VarDecl, bg: &Background) -> (t: ValueType)
    requires
        !mentions_void(type_btype(base@)),
        declared_type(var@, spec_value_type(type_btype(base@)), *bg) matches Some(Some(_)),
    ensures
        declared_type(var@, spec_value_type(type_btype(base@)), *bg) == Some(Some(t@)),
{
    let base_ty = match base {
        Type::BType(btype) | Type::Const(btype) => ValueType::from_btype(btype),
    };
    match inner_decl(var, base_ty, bg) {
        Some(t) => t,
        None => {
            proof {
                assert(false);
            }
            ValueType::Int
        }
    }
}

/// The dimensions of a declarator, innermost declarator's first. The outer
/// `None` stops the compiler, the inner one marks a dimension that is no
/// constant.
pub open spec fn declared_dims(var: SVarDecl, bg: Background) -> Option<Option<Seq<usize>>>
    decreases var,
{
    match var {
        SVarDecl::Ident(_) => Some(Some(Seq::empty())),
        SVarDecl::Array(base, len) => match declared_dims(*base, bg) {
            None => None,
            Some(None) => Some(None),
            Some(Some(ds)) => match folded(len, bg) {
                None => None,
                Some(None) => Some(None),
                Some(Some(v)) => Some(Some(ds.push(v as usize))),
            },
        },
    }
}

fn flatten_inner(var: &VarDecl, bg: &Background, dims: &mut Vec<usize>) -> (r: Option<String>)
    requires
        declared_dims(var@, *bg) is Some,
    ensures
        match declared_dims(var@, *bg) {
            Some(Some(ds)) => r matches Some(n) && n@ == spec_var_decl_name(var@) && final(dims)@ == old(dims)@ + ds,
            _ => r is None,
        },
    decreases var,
{
    match var {
        VarDecl::Ident(name) => {
            proof {
                assert(old(dims)@ + Seq::<usize>::empty() =~= old(dims)@);
            }
            Some(name.clone())
        }
        VarDecl::Array(base, len) => {
            let name = match flatten_inner(base, bg, dims) {
                Some(n) => n,
                None => {
                    return None;
                }
            };
            let len = match len.try_eval_const(bg) {
                Some(v) => v,
                None => {
                    return None;
                }
            };
            let ghost before = dims@;
            dims.push(len as usize);
            proof {
                let ds = declared_dims((*base)@, *bg)->Some_0->Some_0;
                assert(dims@ =~= old(dims)@ + ds.push(len as usize));
            }
            Some(name)
        }
    }
}

/// The name a declarator declares and its dimensions, or `None` where a
/// dimension is no constant.
pub fn flatten_var_decl(var: &VarDecl, bg: &Background) -> (r: Option<(String, Vec<usize>)>)
    requires
        declared_dims(var@, *bg) is Some,
    ensures
        match declared_dims(var@, *bg) {
            Some(Some(ds)) => r matches Some((n, d)) && n@ == spec_var_decl_name(var@) && d@ == ds,
            _ => r is None,
        },
{
    let mut dims: Vec<usize> = Vec::new();
    let name = match flatten_inner(var, bg, &mut dims) {
        Some(n) => n,
        None => {
            return None;
        }
    };
    proof {
        let ds = declared_dims(var@, *bg)->Some_0->Some_0;
        assert(dims@ =~= ds);
    }
    Some((name, dims))
}

// ---------------------------------------------------------------------------
// The runtime and unary operators.

/// The functions of the runtime library, with return and parameter types.
pub fn static_functions() -> (r: Vec<(&'static str, Type, Vec<BType>)>)
    ensures
        r@.len() == 8,
        r@[0].0@ == "getint"@ && r@[0].1@ == SType::BType(SBType::I32) && r@[0].2@.len() == 0,
        r@[1].0@ == "getch"@ && r@[1].1@ == SType::BType(SBType::I32) && r@[1].2@.len() == 0,
        r@[2].0@ == "getarray"@ && r@[2].1@ == SType::BType(SBType::I32) && r@[2].2@.len() == 1
            && r@[2].2@[0]@ == SBType::Ptr(Box::new(SBType::I32)),
        r@[3].0@ == "putint"@ && r@[3].1@ == SType::BType(SBType::Void) && r@[3].2@.len() == 1
            && r@[3].2@[0]@ == SBType::I32,
        r@[4].0@ == "putch"@ && r@[4].1@ == SType::BType(SBType::Void) && r@[4].2@.len() == 1
            && r@[4].2@[0]@ == SBType::I32,
        r@[5].0@ == "putarray"@ && r@[5].1@ == SType::BType(SBType::Void) && r@[5].2@.len() == 2
            && r@[5].2@[0]@ == SBType::I32 && r@[5].2@[1]@ == SBType::Ptr(Box::new(SBType::I32)),
        r@[6].0@ == "starttime"@ && r@[6].1@ == SType::BType(SBType::I32) && r@[6].2@.len() == 0,
        r@[7].0@ == "stoptime"@ && r@[7].1@ == SType::BType(SBType::I32) && r@[7].2@.len() == 0,
{
    let mut r: Vec<(&'static str, Type, Vec<BType>)> = Vec::new();
    r.push(("getint", Type::BType(BType::I32), Vec::new()));
    r.push(("getch", Type::BType(BType::I32), Vec::new()));
    let mut p: Vec<BType> = Vec::new();
    p.push(BType::Ptr(Box::new(BType::I32)));
    r.push(("getarray", Type::BType(BType::I32), p));
    let mut p: Vec<BType> = Vec::new();
    p.push(BType::I32);
    r.push(("putint", Type::BType(BType::Void), p));
    let mut p: Vec<BType> = Vec::new();
    p.push(BType::I32);
    r.push(("putch", Type::BType(BType::Void), p));
    let mut p: Vec<BType> = Vec::new();
    p.push(BType::I32);
    p.push(BType::Ptr(Box::new(BType::I32)));
    r.push(("putarray", Type::BType(BType::Void), p));
    r.push(("starttime", Type::BType(BType::I32), Vec::new()));
    r.push(("stoptime", Type::BType(BType::I32), Vec::new()));
    r
}

/// The Koopa of a unary operator applied to `src`, into a new temporary:
/// `+` adds to zero, `-` subtracts from zero, `!` compares with zero.
pub fn gen_unary_koopa_ir(op: &UnaryOp, src: String, background: &mut Background) -> (r: ReturnValue)
    requires
        *op is Pos || *op is Neg || *op is Not,
        old(background).wf(),
        old(background).temp_counter < usize::MAX,
        old(background).rename_manager.count_of(temp_text(old(background).temp_counter as nat)) < usize::MAX,
        !declared_now(old(background).rename_manager, temp_text(old(background).temp_counter as nat)),
    ensures
        final(background).wf(),
        final(background).temp_counter == old(background).temp_counter + 1,
        r.value matches Some(dst) && dst@ == temp_text(old(background).temp_counter as nat)
            && r.content@.len() == 1
            && (r.content@[0] matches KoopaLine::Binary(d, o, a, b) && d@ == dst@ && match *op {
                UnaryOp::Pos => o@ == "add"@ && a@ == "0"@ && b@ == src@,
                UnaryOp::Neg => o@ == "sub"@ && a@ == "0"@ && b@ == src@,
                _ => o@ == "eq"@ && a@ == src@ && b@ == "0"@,
            }),
{
    let dst = background.next_temp();
    let line = match op {
        UnaryOp::Pos => KoopaLine::Binary(dst.clone(), "add".to_owned(), "0".to_owned(), src),
        UnaryOp::Neg => KoopaLine::Binary(dst.clone(), "sub".to_owned(), "0".to_owned(), src),
        _ => KoopaLine::Binary(dst.clone(), "eq".to_owned(), src, "0".to_owned()),
    };
    ReturnValue { value: Some(dst), content: KoopaLines::with_line(line) }
}

} // verus!
