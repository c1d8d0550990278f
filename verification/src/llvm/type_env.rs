use vstd::prelude::*;
use crate::lalr::{lemma_block_view, Exp, FuncDef, SExp, Stmt, UnaryOp, exps_view, stmts_view};
use crate::llvm::async_cfg::{spec_await_points, AsyncCfgFunction};
use crate::llvm::async_lower::{const_step, copy_constants, record_const_decl};
use crate::llvm::module::{
    decl_type_with_constants, field_layout_of, param_resolved_btype, spec_decl_type, spec_param_type,
    ModuleCtx,
};
use crate::llvm::types::{spec_from_btype, spec_promise_value, LlvmType, SLlvm};
use crate::syntax::{decl_name_string, var_decl_name};
use crate::table::{assoc, Table};

verus! {

broadcast use vstd::std_specs::vec::group_vec_axioms;

// ---------------------------------------------------------------------------
// The types of expressions in an async body.

/// The type of expression `e`, where `env` gives the types of the locals.
pub open spec fn infer_exp(m: ModuleCtx, env: Seq<(String, LlvmType)>, e: SExp) -> Option<SLlvm>
    decreases e, 1nat,
{
    match e {
        SExp::Spanned(inner, _) => infer_exp(m, env, *inner),
        SExp::Number(_) => Some(SLlvm::I32),
        SExp::Ident(n) => match assoc(env, n) {
            Some(t) => Some(t@),
            None => match assoc(m.globals.entries@, n) {
                Some(t) => Some(t@),
                None => if assoc(m.constants.entries@, n) is Some { Some(SLlvm::I32) } else { None },
            },
        },
        SExp::UnaryExp(UnaryOp::Addr, inner) => match infer_lv(m, env, *inner) {
            Some(t) => Some(SLlvm::Ptr(Box::new(t))),
            None => None,
        },
        SExp::UnaryExp(UnaryOp::Deref, inner) => match infer_exp(m, env, *inner) {
            Some(SLlvm::Ptr(t)) => Some(*t),
            _ => None,
        },
        SExp::UnaryExp(_, _) => Some(SLlvm::I32),
        SExp::BinaryExp(_, _, _) => Some(SLlvm::I32),
        SExp::New(t) => Some(SLlvm::Ptr(Box::new(spec_from_btype(t)))),
        SExp::Await(inner) => match infer_exp(m, env, *inner) {
            Some(t) => Some(spec_promise_value(t)),
            None => None,
        },
        SExp::PromiseWait(inner) => match infer_exp(m, env, *inner) {
            Some(t) => Some(spec_promise_value(t)),
            None => None,
        },
        SExp::Sleep(_) => Some(SLlvm::Promise(Box::new(SLlvm::Void))),
        SExp::FuncCall(name, _) => match assoc(m.funcs.entries@, name) {
            Some(sig) => if sig.is_async { Some(SLlvm::Promise(Box::new(sig.ret@))) } else { Some(sig.ret@) },
            None => None,
        },
        SExp::ArrGet(_, _) => infer_lv(m, env, e),
        SExp::Field(_, _) => infer_lv(m, env, e),
        SExp::PtrField(_, _) => infer_lv(m, env, e),
    }
}

/// The type of the place `e` names.
pub open spec fn infer_lv(m: ModuleCtx, env: Seq<(String, LlvmType)>, e: SExp) -> Option<SLlvm>
    decreases e, 0nat,
{
    match e {
        SExp::Spanned(inner, _) => infer_lv(m, env, *inner),
        SExp::Ident(n) => match assoc(env, n) {
            Some(t) => Some(t@),
            None => match assoc(m.globals.entries@, n) {
                Some(t) => Some(t@),
                None => None,
            },
        },
        SExp::UnaryExp(UnaryOp::Deref, inner) => match infer_exp(m, env, *inner) {
            Some(SLlvm::Ptr(t)) => Some(*t),
            _ => None,
        },
        SExp::ArrGet(base, _) => match infer_exp(m, env, *base) {
            Some(SLlvm::Array(_, inner)) => Some(*inner),
            Some(SLlvm::Ptr(inner)) => match *inner {
                SLlvm::Array(_, element) => Some(*element),
                other => Some(other),
            },
            _ => None,
        },
        SExp::Field(base, f) => match infer_exp(m, env, *base) {
            Some(SLlvm::Struct(s)) => field_type(m, s, f),
            Some(SLlvm::Ptr(inner)) => match *inner {
                SLlvm::Struct(s) => field_type(m, s, f),
                _ => None,
            },
            _ => None,
        },
        SExp::PtrField(base, f) => match infer_exp(m, env, *base) {
            Some(SLlvm::Ptr(inner)) => match *inner {
                SLlvm::Struct(s) => field_type(m, s, f),
                _ => None,
            },
            _ => None,
        },
        _ => None,
    }
}

/// The type of field `f` of struct `s`.
pub open spec fn field_type(m: ModuleCtx, s: Seq<char>, f: Seq<char>) -> Option<SLlvm> {
    match field_layout_of(m.layouts.entries@, s, f) {
        Some(fl) => Some(fl.ty@),
        None => None,
    }
}

fn lookup_type(t: &Table<LlvmType>, name: &str) -> (r: Option<LlvmType>)
    ensures
        match r {
            Some(x) => assoc(t.entries@, name@) matches Some(y) && x@ == y@,
            None => assoc(t.entries@, name@) is None,
        },
{
    match t.get(name) {
        Some(x) => Some(x.copy()),
        None => None,
    }
}

fn field_type_of(module: &ModuleCtx, s: &String, f: &String) -> (r: Option<LlvmType>)
    ensures
        match r {
            Some(t) => field_type(*module, s@, f@) == Some(t@),
            None => field_type(*module, s@, f@) is None,
        },
{
    match module.field(s.as_str(), f.as_str()) {
        Ok(fl) => Some(fl.ty.copy()),
        Err(_) => None,
    }
}

/// The type of an expression of an async body.
pub fn infer_exp_type(module: &ModuleCtx, env: &Table<LlvmType>, exp: &Exp) -> (r: Option<LlvmType>)
    ensures
        match r {
            Some(t) => infer_exp(*module, env.entries@, exp@) == Some(t@),
            None => infer_exp(*module, env.entries@, exp@) is None,
        },
    decreases exp, 1nat,
{
    match exp {
        Exp::Spanned(inner, _) => {
            proof { assert(exp@ == SExp::Spanned(Box::new(inner@), exp@->Spanned_1)); }
            return infer_exp_type(module, env, inner);
        },
        Exp::Number(_) => {
            proof { assert(exp@ is Number); }
            return Some(LlvmType::I32);
        },
        Exp::Ident(name) => {
            proof { assert(exp@ == SExp::Ident(name@)); }
            if let Some(t) = lookup_type(env, name.as_str()) {
                return Some(t);
            }
            if let Some(t) = lookup_type(&module.globals, name.as_str()) {
                return Some(t);
            }
            if module.constants.contains_key(name.as_str()) {
                return Some(LlvmType::I32);
            }
            return None;
        },
        Exp::UnaryExp(UnaryOp::Addr, inner) => {
            proof { assert(exp@ == SExp::UnaryExp(UnaryOp::Addr, Box::new(inner@))); }
            match infer_lvalue_type(module, env, inner) {
                Some(t) => return Some(LlvmType::Ptr(Box::new(t))),
                None => return None,
            }
        },
        Exp::UnaryExp(UnaryOp::Deref, inner) => {
            proof { assert(exp@ == SExp::UnaryExp(UnaryOp::Deref, Box::new(inner@))); }
            let it = infer_exp_type(module, env, inner);
            match &it {
                Some(LlvmType::Ptr(t)) => {
                    proof {
                        assert(infer_exp(*module, env.entries@, inner@) == Some(SLlvm::Ptr(Box::new((**t)@))));
                    }
                    return Some((**t).copy());
                },
                _ => return None,
            }
        },
        Exp::UnaryExp(op, _) => {
            proof { assert(exp@ is UnaryExp && exp@->UnaryExp_0 == *op); }
            return Some(LlvmType::I32);
        },
        Exp::BinaryExp(_, _, _) => {
            proof { assert(exp@ is BinaryExp); }
            return Some(LlvmType::I32);
        },
        Exp::New(ty) => {
            proof { assert(exp@ == SExp::New(ty@)); }
            return Some(LlvmType::Ptr(Box::new(LlvmType::from_btype(ty))));
        },
        Exp::Await(inner) => {
            proof { assert(exp@ == SExp::Await(Box::new(inner@))); }
            match infer_exp_type(module, env, inner) {
                Some(t) => return Some(t.promise_value()),
                None => return None,
            }
        },
        Exp::PromiseWait(inner) => {
            proof { assert(exp@ == SExp::PromiseWait(Box::new(inner@))); }
            match infer_exp_type(module, env, inner) {
                Some(t) => return Some(t.promise_value()),
                None => return None,
            }
        },
        Exp::Sleep(_) => {
            proof { assert(exp@ is Sleep); }
            let void = LlvmType::Void;
            proof { assert(void@ == SLlvm::Void); }
            return Some(LlvmType::Promise(Box::new(void)));
        },
        Exp::FuncCall(name, _) => {
            proof { assert(exp@ is FuncCall && exp@->FuncCall_0 == name@); }
            match module.funcs.get(name.as_str()) {
                Some(sig) => {
                    if sig.is_async {
                        return Some(LlvmType::Promise(Box::new(sig.ret.copy())));
                    }
                    return Some(sig.ret.copy());
                },
                None => return None,
            }
        },
        Exp::ArrGet(_, _) => {
            proof { assert(exp@ is ArrGet); }
            return infer_lvalue_type(module, env, exp);
        },
        Exp::Field(_, _) => {
            proof { assert(exp@ is Field); }
            return infer_lvalue_type(module, env, exp);
        },
        Exp::PtrField(_, _) => {
            proof { assert(exp@ is PtrField); }
            return infer_lvalue_type(module, env, exp);
        },
    }
}

/// The type of the place an expression of an async body names.
pub fn infer_lvalue_type(module: &ModuleCtx, env: &Table<LlvmType>, exp: &Exp) -> (r: Option<LlvmType>)
    ensures
        match r {
            Some(t) => infer_lv(*module, env.entries@, exp@) == Some(t@),
            None => infer_lv(*module, env.entries@, exp@) is None,
        },
    decreases exp, 0nat,
{
    let r = match exp {
        Exp::Spanned(inner, _) => infer_lvalue_type(module, env, inner),
        Exp::Ident(name) => {
            let r = match lookup_type(env, name.as_str()) {
                Some(t) => Some(t),
                None => lookup_type(&module.globals, name.as_str()),
            };
            proof {
                assert(r matches Some(t) ==> infer_lv(*module, env.entries@, exp@) == Some(t@));
                assert(r is None ==> infer_lv(*module, env.entries@, exp@) is None);
            }
            r
        }
        Exp::UnaryExp(UnaryOp::Deref, inner) => {
            let r = match infer_exp_type(module, env, inner) {
                Some(LlvmType::Ptr(t)) => Some(*t),
                _ => None,
            };
            proof {
                assert(r matches Some(t) ==> infer_lv(*module, env.entries@, exp@) == Some(t@));
                assert(r is None ==> infer_lv(*module, env.entries@, exp@) is None);
            }
            r
        }
        Exp::ArrGet(base, _) => {
            let bt = infer_exp_type(module, env, base);
            proof {
                assert(exp@ == SExp::ArrGet(Box::new(base@), exp@->ArrGet_1));
            }
            let r = match &bt {
                Some(LlvmType::Array(_, inner)) => Some((**inner).copy()),
                Some(LlvmType::Ptr(inner)) => {
                    proof {
                        assert(infer_exp(*module, env.entries@, base@) == Some(SLlvm::Ptr(Box::new((**inner)@))));
                    }
                    match &**inner {
                        LlvmType::Array(_, element) => Some((**element).copy()),
                        other => Some(other.copy()),
                    }
                },
                _ => None,
            };
            proof {
                assert(r matches Some(t) ==> infer_lv(*module, env.entries@, exp@) == Some(t@));
                assert(r is None ==> infer_lv(*module, env.entries@, exp@) is None);
            }
            r
        }
        Exp::Field(base, f) => {
            let bt = infer_exp_type(module, env, base);
            proof {
                assert(exp@ == SExp::Field(Box::new(base@), f@));
            }
            let r = match &bt {
                Some(LlvmType::Struct(s)) => field_type_of(module, s, f),
                Some(LlvmType::Ptr(inner)) => {
                    proof {
                        assert(infer_exp(*module, env.entries@, base@) == Some(SLlvm::Ptr(Box::new((**inner)@))));
                    }
                    match &**inner {
                        LlvmType::Struct(s) => field_type_of(module, s, f),
                        _ => None,
                    }
                },
                _ => None,
            };
            proof {
                assert(r matches Some(t) ==> infer_lv(*module, env.entries@, exp@) == Some(t@));
                assert(r is None ==> infer_lv(*module, env.entries@, exp@) is None);
            }
            r
        }
        Exp::PtrField(base, f) => {
            let bt = infer_exp_type(module, env, base);
            proof {
                assert(exp@ == SExp::PtrField(Box::new(base@), f@));
            }
            let r = match &bt {
                Some(LlvmType::Ptr(inner)) => {
                    proof {
                        assert(infer_exp(*module, env.entries@, base@) == Some(SLlvm::Ptr(Box::new((**inner)@))));
                    }
                    match &**inner {
                        LlvmType::Struct(s) => field_type_of(module, s, f),
                        _ => None,
                    }
                },
                _ => None,
            };
            proof {
                assert(r matches Some(t) ==> infer_lv(*module, env.entries@, exp@) == Some(t@));
                assert(r is None ==> infer_lv(*module, env.entries@, exp@) is None);
            }
            r
        }
        _ => None,
    };
    r
}

/// The type of the value the await with suspension number `state` resumes
/// with: the result of the promise it awaits.
pub fn infer_await_result_type(module: &ModuleCtx, env: &Table<LlvmType>, cfg: &AsyncCfgFunction, state: i32) -> (r: Option<LlvmType>)
    ensures
        ({
            let pts = spec_await_points(cfg.blocks@);
            match r {
                Some(t) => exists|k: int| 0 <= k < pts.len() && pts[k].state == state
                    && (forall|j: int| 0 <= j < k ==> #[trigger] pts[j].state != state)
                    && (infer_exp(*module, env.entries@, pts[k].child@) matches Some(u) && t@ == spec_promise_value(u)),
                None => forall|k: int| 0 <= k < pts.len() && pts[k].state == state
                    && (forall|j: int| 0 <= j < k ==> #[trigger] pts[j].state != state)
                    ==> infer_exp(*module, env.entries@, pts[k].child@) is None,
            }
        }),
{
    let points = cfg.await_points();
    let mut i: usize = 0;
    while i < points.len()
        invariant
            i <= points@.len(),
            points@.len() == spec_await_points(cfg.blocks@).len(),
            forall|k: int| 0 <= k < points@.len() ==> *points@[k] == #[trigger] spec_await_points(cfg.blocks@)[k],
            forall|j: int| 0 <= j < i ==> #[trigger] spec_await_points(cfg.blocks@)[j].state != state,
        decreases points.len() - i,
    {
        if points[i].state == state {
            proof {
                assert(*points@[i as int] == spec_await_points(cfg.blocks@)[i as int]);
            }
            return match infer_exp_type(module, env, &points[i].child) {
                Some(t) => Some(t.promise_value()),
                None => None,
            };
        }
        i = i + 1;
    }
    None
}

// ---------------------------------------------------------------------------
// The types of the locals of an async body.

/// The declarations of a body, in order: name and type, where each
/// declaration's dimensions see the constants declared before it in an
/// enclosing scope; the first declaration whose type fails gives the message.
pub open spec fn decl_env_stmt(m: ModuleCtx, s: Stmt, consts: Seq<(String, i32)>) -> Result<(Seq<(Seq<char>, SLlvm)>, Seq<(String, i32)>), Seq<char>>
    decreases s, 0nat,
{
    match s {
        Stmt::Spanned(inner, _) => decl_env_stmt(m, *inner, consts),
        Stmt::Block(ss) => match decl_env_stmts(m, ss@, ss@.len() as int, consts) {
            Ok((adds, _)) => Ok((adds, consts)),
            Err(e) => Err(e),
        },
        Stmt::Decl(ty, ds) => decl_env_decls(m, ty, ds@, ds@.len() as int, consts),
        Stmt::If(_, t) => match decl_env_stmt(m, *t, consts) {
            Ok((adds, _)) => Ok((adds, consts)),
            Err(e) => Err(e),
        },
        Stmt::IfElse(_, t, e) => match decl_env_stmt(m, *t, consts) {
            Ok((a1, _)) => match decl_env_stmt(m, *e, consts) {
                Ok((a2, _)) => Ok((a1 + a2, consts)),
                Err(x) => Err(x),
            },
            Err(x) => Err(x),
        },
        Stmt::While(_, b) => match decl_env_stmt(m, *b, consts) {
            Ok((adds, _)) => Ok((adds, consts)),
            Err(e) => Err(e),
        },
        _ => Ok((Seq::empty(), consts)),
    }
}

pub open spec fn decl_env_stmts(m: ModuleCtx, ss: Seq<Stmt>, n: int, consts: Seq<(String, i32)>) -> Result<(Seq<(Seq<char>, SLlvm)>, Seq<(String, i32)>), Seq<char>>
    decreases ss, n,
{
    if 0 < n <= ss.len() {
        match decl_env_stmts(m, ss, n - 1, consts) {
            Ok((a1, c1)) => match decl_env_stmt(m, ss[n - 1], c1) {
                Ok((a2, c2)) => Ok((a1 + a2, c2)),
                Err(e) => Err(e),
            },
            Err(e) => Err(e),
        }
    } else {
        Ok((Seq::empty(), consts))
    }
}

pub open spec fn decl_env_decls(m: ModuleCtx, ty: crate::lalr::Type, ds: Seq<crate::lalr::SingleDecl>, n: int, consts: Seq<(String, i32)>) -> Result<(Seq<(Seq<char>, SLlvm)>, Seq<(String, i32)>), Seq<char>>
    decreases n,
{
    if 0 < n <= ds.len() {
        match decl_env_decls(m, ty, ds, n - 1, consts) {
            Ok((a1, c1)) => match spec_decl_type(ty@, ds[n - 1].var@, m.constants.entries@ + c1) {
                Ok(t) => Ok((a1.push((decl_name_string(ds[n - 1].var)@, t)), const_step(c1, ty, ds[n - 1]))),
                Err(e) => Err(e),
            },
            Err(e) => Err(e),
        }
    } else {
        Ok((Seq::empty(), consts))
    }
}

/// The entries of `env` are those of `old` followed by bindings whose views are `adds`.
pub open spec fn env_extended(old: Seq<(String, LlvmType)>, new: Seq<(String, LlvmType)>, adds: Seq<(Seq<char>, SLlvm)>) -> bool {
    &&& new.len() == old.len() + adds.len()
    &&& forall|i: int| 0 <= i < old.len() ==> #[trigger] new[i] == old[i]
    &&& forall|k: int| 0 <= k < adds.len() ==> (#[trigger] new[old.len() + k]).0@ == adds[k].0 && new[old.len() + k].1@ == adds[k].1
}

proof fn lemma_env_extended_trans(a: Seq<(String, LlvmType)>, b: Seq<(String, LlvmType)>, c: Seq<(String, LlvmType)>, x: Seq<(Seq<char>, SLlvm)>, y: Seq<(Seq<char>, SLlvm)>)
    requires
        env_extended(a, b, x),
        env_extended(b, c, y),
    ensures
        env_extended(a, c, x + y),
{
    assert forall|k: int| 0 <= k < (x + y).len() implies (#[trigger] c[a.len() + k]).0@ == (x + y)[k].0 && c[a.len() + k].1@ == (x + y)[k].1 by {
        if k < x.len() {
            assert(c[a.len() + k] == b[a.len() + k]);
        } else {
            assert(c[a.len() + k] == c[b.len() + (k - x.len())]);
        }
    }
}

proof fn lemma_decls_err(m: ModuleCtx, ty: crate::lalr::Type, ds: Seq<crate::lalr::SingleDecl>, i: int, n: int, consts: Seq<(String, i32)>)
    requires
        0 <= i <= n <= ds.len(),
        decl_env_decls(m, ty, ds, i, consts) is Err,
    ensures
        decl_env_decls(m, ty, ds, n, consts) == decl_env_decls(m, ty, ds, i, consts),
    decreases n - i,
{
    if i < n {
        lemma_decls_err(m, ty, ds, i, n - 1, consts);
    }
}

proof fn lemma_stmts_err(m: ModuleCtx, ss: Seq<Stmt>, i: int, n: int, consts: Seq<(String, i32)>)
    requires
        0 <= i <= n <= ss.len(),
        decl_env_stmts(m, ss, i, consts) is Err,
    ensures
        decl_env_stmts(m, ss, n, consts) == decl_env_stmts(m, ss, i, consts),
    decreases n - i,
{
    if i < n {
        lemma_stmts_err(m, ss, i, n - 1, consts);
    }
}

fn collect_stmt_types(module: &ModuleCtx, stmt: &Stmt, env: &mut Table<LlvmType>, constants: &mut Table<i32>) -> (r: Result<(), String>)
    ensures
        match decl_env_stmt(*module, *stmt, old(constants).entries@) {
            Ok((adds, c)) => r is Ok && env_extended(old(env).entries@, final(env).entries@, adds) && final(constants).entries@ == c,
            Err(e) => r matches Err(x) && x@ == e,
        },
    decreases stmt, 1nat,
{
    let ghost e0 = env.entries@;
    let ghost c0 = constants.entries@;
    match stmt {
        Stmt::Spanned(inner, _) => collect_stmt_types(module, inner, env, constants),
        Stmt::Block(stmts) => {
            let mut scoped = copy_constants(constants);
            proof {
                lemma_block_view(stmt);
            }
            collect_decl_type_env(module, stmts, env, &mut scoped)
        }
        Stmt::Decl(ty, decls) => {
            let ghost ds = decls@;
            let mut i: usize = 0;
            proof {
                assert(env_extended(e0, env.entries@, Seq::empty()));
            }
            while i < decls.len()
                invariant
                    i <= ds.len(),
                    ds == decls@,
                    e0 == old(env).entries@,
                    c0 == old(constants).entries@,
                    decl_env_decls(*module, *ty, ds, i as int, c0) matches Ok((adds, c))
                        && env_extended(e0, env.entries@, adds) && constants.entries@ == c,
                decreases ds.len() - i,
            {
                let decl = &decls[i];
                let ghost before = env.entries@;
                let ghost adds = decl_env_decls(*module, *ty, ds, i as int, c0)->Ok_0.0;
                match decl_type_with_constants(ty, &decl.var, module, constants) {
                    Ok(t) => {
                        let ghost tv = t@;
                        env.insert(var_decl_name(&decl.var), t);
                        proof {
                            assert(env_extended(before, env.entries@, seq![(decl_name_string(decl.var)@, tv)]));
                            lemma_env_extended_trans(e0, before, env.entries@, adds, seq![(decl_name_string(decl.var)@, tv)]);
                        }
                        record_const_decl(constants, ty, decl);
                    }
                    Err(e) => {
                        proof {
                            lemma_decls_err(*module, *ty, ds, i + 1, ds.len() as int, c0);
                        }
                        return Err(e);
                    }
                }
                i = i + 1;
            }
            Ok(())
        }
        Stmt::If(_, t) => {
            let mut scoped = copy_constants(constants);
            collect_stmt_types(module, t, env, &mut scoped)
        }
        Stmt::IfElse(_, t, e) => {
            let mut then_constants = copy_constants(constants);
            match collect_stmt_types(module, t, env, &mut then_constants) {
                Ok(()) => {}
                Err(x) => {
                    return Err(x);
                }
            }
            let ghost mid = env.entries@;
            let mut else_constants = copy_constants(constants);
            let r = collect_stmt_types(module, e, env, &mut else_constants);
            proof {
                if r is Ok {
                    let a1 = decl_env_stmt(*module, **t, c0)->Ok_0.0;
                    let a2 = decl_env_stmt(*module, **e, c0)->Ok_0.0;
                    lemma_env_extended_trans(e0, mid, env.entries@, a1, a2);
                }
            }
            r
        }
        Stmt::While(_, b) => {
            let mut scoped = copy_constants(constants);
            collect_stmt_types(module, b, env, &mut scoped)
        }
        _ => {
            proof {
                assert(env_extended(e0, env.entries@, Seq::empty()));
            }
            Ok(())
        }
    }
}

/// Adds the types of the locals the statements declare to `env`, folding the
/// constants declared on the way for later dimensions.
pub fn collect_decl_type_env(module: &ModuleCtx, stmts: &Vec<Stmt>, env: &mut Table<LlvmType>, constants: &mut Table<i32>) -> (r: Result<(), String>)
    ensures
        match decl_env_stmts(*module, stmts@, stmts@.len() as int, old(constants).entries@) {
            Ok((adds, c)) => r is Ok && env_extended(old(env).entries@, final(env).entries@, adds) && final(constants).entries@ == c,
            Err(e) => r matches Err(x) && x@ == e,
        },
    decreases stmts, 0nat,
{
    let ghost e0 = env.entries@;
    let ghost c0 = constants.entries@;
    let mut i: usize = 0;
    proof {
        assert(env_extended(e0, env.entries@, Seq::empty()));
    }
    while i < stmts.len()
        invariant
            i <= stmts@.len(),
            e0 == old(env).entries@,
            c0 == old(constants).entries@,
            decl_env_stmts(*module, stmts@, i as int, c0) matches Ok((adds, c))
                && env_extended(e0, env.entries@, adds) && constants.entries@ == c,
        decreases stmts.len() - i,
    {
        let ghost before = env.entries@;
        let ghost adds = decl_env_stmts(*module, stmts@, i as int, c0)->Ok_0.0;
        match collect_stmt_types(module, &stmts[i], env, constants) {
            Ok(()) => {
                proof {
                    let a2 = decl_env_stmt(*module, stmts@[i as int], decl_env_stmts(*module, stmts@, i as int, c0)->Ok_0.1)->Ok_0.0;
                    lemma_env_extended_trans(e0, before, env.entries@, adds, a2);
                }
            }
            Err(e) => {
                proof {
                    lemma_stmts_err(*module, stmts@, i + 1, stmts@.len() as int, c0);
                }
                return Err(e);
            }
        }
        i = i + 1;
    }
    Ok(())
}

/// The types of a function's parameters, then of the locals its body declares.
pub fn collect_function_type_env(module: &ModuleCtx, func: &FuncDef) -> (r: Result<Table<LlvmType>, String>)
    ensures
        match r {
            Ok(env) => (forall|i: int| 0 <= i < func.func_params@.len() ==>
                    #[trigger] spec_param_type(func.func_params@[i]@, module.constants.entries@) is Ok
                    && env.entries@[i].0@ == func.func_params@[i].name@
                    && env.entries@[i].1@ == spec_from_btype(spec_param_type(func.func_params@[i]@, module.constants.entries@)->Ok_0))
                && (decl_env_stmts(*module, func.block@, func.block@.len() as int, module.constants.entries@) matches Ok((adds, _))
                    && env_extended(env.entries@.take(func.func_params@.len() as int), env.entries@, adds)),
            Err(_) => (exists|i: int| 0 <= i < func.func_params@.len()
                    && #[trigger] spec_param_type(func.func_params@[i]@, module.constants.entries@) is Err)
                || decl_env_stmts(*module, func.block@, func.block@.len() as int, module.constants.entries@) is Err,
        },
{
    let mut env: Table<LlvmType> = Table::new();
    let ps = &func.func_params;
    let mut i: usize = 0;
    while i < ps.len()
        invariant
            i <= ps@.len(),
            ps == &func.func_params,
            env.entries@.len() == i,
            forall|k: int| 0 <= k < i ==>
                #[trigger] spec_param_type(ps@[k]@, module.constants.entries@) is Ok
                && env.entries@[k].0@ == ps@[k].name@
                && env.entries@[k].1@ == spec_from_btype(spec_param_type(ps@[k]@, module.constants.entries@)->Ok_0),
        decreases ps.len() - i,
    {
        match param_resolved_btype(&ps[i], module) {
            Ok(t) => {
                env.insert(ps[i].name.clone(), LlvmType::from_btype(&t));
            }
            Err(e) => {
                return Err(e);
            }
        }
        i = i + 1;
    }
    let ghost p_entries = env.entries@;
    let mut constants = copy_constants(&module.constants);
    match collect_decl_type_env(module, &func.block, &mut env, &mut constants) {
        Ok(()) => {
            proof {
                assert(env.entries@.take(ps@.len() as int) =~= p_entries);
            }
            Ok(env)
        }
        Err(e) => Err(e),
    }
}

} // verus!
