use vstd::prelude::*;
use crate::lalr::{
    array_of, const_eval, eval_const_checked, lemma_block_view, spec_type_base, type_base_btype,
    wrap_array_dims, exps_view, func_param_btype, stmts_view, BType, Diagnostic, FuncDef, FuncParam,
    GlobalDef, SBType, SingleDecl, Stmt, Type, VarDecl,
};
use crate::llvm::module::{collect_var_dims, lemma_param_dims_err, spec_param_dims, spec_var_dims};
use crate::semantic::{
    assignment_ok, ensure_promise_result_supported, exp_consumed, exp_kind, exp_validate,
    ident_set, init_consumed, init_ok, object_type_error, promise_result_ok, struct_name_set,
    validate_assignment_kind, validate_initializer, validate_object_type_in_program,
    AsyncExprKind, SKind, SemanticCtx, SemanticProgram,
};
use crate::syntax::{
    block_guarantees_return, requires_guaranteed_return, spec_block_guarantees_return,
    btype_name, btype_same, decl_name_string, exp_contains_await, init_exp, spec_exp_contains_await,
    spec_init_exp, var_decl_name,
};
use crate::table::{assoc, NameSet, Table};
use crate::text::{cat, cat3, cat4};

verus! {

broadcast use vstd::std_specs::vec::group_vec_axioms;

// ---------------------------------------------------------------------------
// The state that checking statements changes.

/// The scopes of variables and of local constants (outermost first), the
/// promise variables declared so far and those consumed so far.
#[verifier::ext_equal]
pub struct SemState {
    pub scopes: Seq<Seq<(String, BType)>>,
    pub consts: Seq<Seq<(String, i32)>>,
    pub declared: Set<Seq<char>>,
    pub consumed: Set<Seq<char>>,
}

/// The local constants of all scopes, outermost first.
pub open spec fn flat_consts(cs: Seq<Seq<(String, i32)>>) -> Seq<(String, i32)>
    decreases cs.len(),
{
    if cs.len() == 0 {
        Seq::empty()
    } else {
        flat_consts(cs.drop_last()) + cs.last()
    }
}

/// The constants visible in a state: the program's, then the local ones, so
/// that an inner binding shadows an outer one.
pub open spec fn visible_consts(p: SemanticProgram, st: SemState) -> Seq<(String, i32)> {
    p.constants.entries@ + flat_consts(st.consts)
}

/// `st` with the promise variables of `more` consumed as well.
pub open spec fn consume(st: SemState, more: Set<Seq<char>>) -> SemState {
    SemState { scopes: st.scopes, consts: st.consts, declared: st.declared, consumed: st.consumed.union(more) }
}

/// `st` with a new innermost scope.
pub open spec fn push_state(st: SemState) -> SemState {
    SemState {
        scopes: st.scopes.push(Seq::empty()),
        consts: st.consts.push(Seq::empty()),
        declared: st.declared,
        consumed: st.consumed,
    }
}

/// `st` with its innermost scope closed.
pub open spec fn pop_state(st: SemState) -> SemState {
    SemState {
        scopes: if st.scopes.len() > 0 { st.scopes.drop_last() } else { st.scopes },
        consts: if st.consts.len() > 0 { st.consts.drop_last() } else { st.consts },
        declared: st.declared,
        consumed: st.consumed,
    }
}

/// `st` after defining the variable `name` of type `t` in the innermost
/// scope; `None` when that scope already defines `name`.
pub open spec fn define_var_spec(st: SemState, name: String, t: BType) -> Option<SemState> {
    if st.scopes.len() > 0 && assoc(st.scopes.last(), name@) is Some {
        None
    } else {
        Some(SemState {
            scopes: if st.scopes.len() > 0 {
                st.scopes.update(st.scopes.len() - 1, st.scopes.last().push((name, t)))
            } else {
                st.scopes
            },
            consts: st.consts,
            declared: if t is Promise { st.declared.insert(name@) } else { st.declared },
            consumed: st.consumed,
        })
    }
}

/// `st` after a declaration records a local `const int` whose initializer
/// evaluates to a value.
pub open spec fn define_const_spec(st: SemState, p: SemanticProgram, ty: Type, d: SingleDecl) -> SemState {
    if (ty matches Type::Const(BType::I32)) && st.consts.len() > 0 && d.var is Ident && d.init is Some {
        match spec_init_exp(d.init->Some_0@) {
            Some(e) => match const_eval(e, visible_consts(p, st)) {
                Some(Some(v)) => SemState {
                    scopes: st.scopes,
                    consts: st.consts.update(st.consts.len() - 1, st.consts.last().push((d.var->Ident_0, v))),
                    declared: st.declared,
                    consumed: st.consumed,
                },
                _ => st,
            },
            None => st,
        }
    } else {
        st
    }
}

/// The type a declarator gives its variable under the constants `env`.
pub open spec fn decl_type_under(ty: Type, var: VarDecl, env: Seq<(String, i32)>) -> Option<BType> {
    match spec_var_dims(var@, env) {
        Ok(d) => Some(array_of(spec_type_base(ty), d)),
        Err(_) => None,
    }
}

/// The state after one local declaration of type `ty`, or `None` when it is
/// rejected.
pub open spec fn decl_res(ty: Type, d: SingleDecl, p: SemanticProgram, in_async: bool, st: SemState) -> Option<SemState> {
    match decl_type_under(ty, d.var, visible_consts(p, st)) {
        None => None,
        Some(t) => if object_type_error(t@, struct_name_set(p), "Local variable"@) is Some {
            None
        } else {
            let st1 = match d.init {
                None => Some(st),
                Some(i) => if init_ok(i@, t@, p, st.scopes, in_async) {
                    Some(consume(st, init_consumed(i@, t@, p, st.scopes, in_async)))
                } else {
                    None
                },
            };
            match st1 {
                None => None,
                Some(s1) => define_var_spec(define_const_spec(s1, p, ty, d), decl_name_string(d.var), t),
            }
        },
    }
}

/// Declaration `d` is accepted up to its name, which the innermost scope
/// already holds.
pub open spec fn decl_dup(ty: Type, d: SingleDecl, p: SemanticProgram, in_async: bool, st: SemState) -> bool {
    match decl_type_under(ty, d.var, visible_consts(p, st)) {
        None => false,
        Some(t) => object_type_error(t@, struct_name_set(p), "Local variable"@) is None && {
            let st1 = match d.init {
                None => Some(st),
                Some(i) => if init_ok(i@, t@, p, st.scopes, in_async) {
                    Some(consume(st, init_consumed(i@, t@, p, st.scopes, in_async)))
                } else {
                    None
                },
            };
            match st1 {
                None => false,
                Some(s1) => define_var_spec(define_const_spec(s1, p, ty, d), decl_name_string(d.var), t) is None,
            }
        },
    }
}

/// The state after the first `n` declarations of a declaration statement.
pub open spec fn decls_res(ty: Type, ds: Seq<SingleDecl>, n: int, p: SemanticProgram, in_async: bool, st: SemState) -> Option<SemState>
    decreases n,
{
    if 0 < n <= ds.len() {
        match decls_res(ty, ds, n - 1, p, in_async, st) {
            None => None,
            Some(s) => decl_res(ty, ds[n - 1], p, in_async, s),
        }
    } else {
        Some(st)
    }
}

proof fn lemma_decl_dup_rejects(ty: Type, d: SingleDecl, p: SemanticProgram, in_async: bool, st: SemState)
    requires
        decl_dup(ty, d, p, in_async, st),
    ensures
        decl_res(ty, d, p, in_async, st) is None,
{
}

proof fn lemma_decls_res_none(ty: Type, ds: Seq<SingleDecl>, m: int, n: int, p: SemanticProgram, in_async: bool, st: SemState)
    requires
        0 <= m <= n <= ds.len(),
        decls_res(ty, ds, m, p, in_async, st) is None,
    ensures
        decls_res(ty, ds, n, p, in_async, st) is None,
    decreases n - m,
{
    if m < n {
        lemma_decls_res_none(ty, ds, m, n - 1, p, in_async, st);
    }
}

// ---------------------------------------------------------------------------
// The context's operations, stated over its state.

impl<'a> SemanticCtx<'a> {
    /// The local constant scopes, outermost first.
    pub open spec fn const_view(&self) -> Seq<Seq<(String, i32)>> {
        Seq::new(self.const_scopes@.len(), |i: int| self.const_scopes@[i].entries@)
    }

    pub open spec fn state(&self) -> SemState {
        SemState {
            scopes: self.scope_view(),
            consts: self.const_view(),
            declared: self.declared_promises.view_set(),
            consumed: self.consumed_promises.view_set(),
        }
    }

    pub open spec fn wf(&self) -> bool {
        self.declared_promises.wf() && self.consumed_promises.wf()
    }

    /// The context checks the same program, in the same kind of function.
    pub open spec fn same_frame(&self, old: SemanticCtx<'a>) -> bool {
        &&& *self.program == *old.program
        &&& self.in_async_fn == old.in_async_fn
        &&& self.ret_ty == old.ret_ty
    }

    pub fn new(program: &'a SemanticProgram, in_async_fn: bool, ret_ty: BType) -> (c: Self)
        ensures
            c.wf(),
            *c.program == *program,
            c.in_async_fn == in_async_fn,
            c.ret_ty == ret_ty,
            c.state() == (SemState {
                scopes: Seq::empty(),
                consts: Seq::empty(),
                declared: Set::empty(),
                consumed: Set::empty(),
            }),
    {
        let c = SemanticCtx {
            program,
            in_async_fn,
            ret_ty,
            scopes: Vec::new(),
            const_scopes: Vec::new(),
            declared_promises: NameSet::new(),
            consumed_promises: NameSet::new(),
        };
        proof {
            assert(c.state() =~= (SemState {
                scopes: Seq::empty(),
                consts: Seq::empty(),
                declared: Set::empty(),
                consumed: Set::empty(),
            }));
        }
        c
    }

    pub fn push_scope(&mut self)
        ensures
            final(self).wf() == old(self).wf(),
            final(self).same_frame(*old(self)),
            final(self).state() == push_state(old(self).state()),
    {
        let t1: Table<BType> = Table::new();
        let t2: Table<i32> = Table::new();
        proof {
            assert(t1.entries@ =~= Seq::<(String, BType)>::empty());
            assert(t2.entries@ =~= Seq::<(String, i32)>::empty());
        }
        self.scopes.push(t1);
        self.const_scopes.push(t2);
        proof {
            assert(self.scope_view() =~= old(self).scope_view().push(Seq::empty()));
            assert(self.const_view() =~= old(self).const_view().push(Seq::empty()));
            assert(self.state() =~= push_state(old(self).state()));
        }
    }

    pub fn pop_scope(&mut self)
        ensures
            final(self).wf() == old(self).wf(),
            final(self).same_frame(*old(self)),
            final(self).state() == pop_state(old(self).state()),
    {
        let _ = self.scopes.pop();
        let _ = self.const_scopes.pop();
        proof {
            assert(self.state() =~= pop_state(old(self).state()));
        }
    }

    /// Defines a variable in the innermost scope.
    pub fn define_var(&mut self, name: String, ty: BType) -> (r: Result<(), String>)
        requires
            old(self).wf(),
        ensures
            final(self).wf(),
            final(self).same_frame(*old(self)),
            match define_var_spec(old(self).state(), name, ty) {
                None => r matches Err(e) && e@ == "Duplicate local definition: "@ + name@,
                Some(s) => r is Ok && final(self).state() == s,
            },
    {
        let ghost st = self.state();
        let n = self.scopes.len();
        if n > 0 {
            proof {
                assert(st.scopes.last() == self.scopes@[n - 1].entries@);
            }
            if self.scopes[n - 1].contains_key(name.as_str()) {
                return Err(cat("Duplicate local definition: ", name.as_str()));
            }
            let mut last = self.scopes.pop().unwrap();
            last.insert(name.clone(), ty.copy());
            self.scopes.push(last);
        }
        match ty {
            BType::Promise(_) => {
                self.declared_promises.insert(name);
            }
            _ => {}
        }
        proof {
            let s = define_var_spec(st, name, ty)->Some_0;
            assert(self.scope_view() =~= s.scopes);
            assert(self.state() =~= s);
        }
        Ok(())
    }

    /// The constants visible here: the program's, then the local ones.
    pub fn visible_constants(&self) -> (t: Table<i32>)
        ensures
            t.entries@ == visible_consts(*self.program, self.state()),
    {
        let mut t = Table::layered(&self.program.constants, &Table::new());
        let ghost cv = self.const_view();
        proof {
            assert(cv.take(0) =~= Seq::<Seq<(String, i32)>>::empty());
            assert(self.program.constants.entries@ + Seq::<(String, i32)>::empty() =~= self.program.constants.entries@);
        }
        let mut i: usize = 0;
        while i < self.const_scopes.len()
            invariant
                i <= self.const_scopes@.len(),
                cv == self.const_view(),
                t.entries@ == self.program.constants.entries@ + flat_consts(cv.take(i as int)),
            decreases self.const_scopes.len() - i,
        {
            t = Table::layered(&t, &self.const_scopes[i]);
            proof {
                assert(cv.take(i + 1).drop_last() =~= cv.take(i as int));
                assert(cv.take(i + 1).last() == self.const_scopes@[i as int].entries@);
                assert(self.program.constants.entries@ + flat_consts(cv.take(i + 1))
                    =~= self.program.constants.entries@ + flat_consts(cv.take(i as int)) + self.const_scopes@[i as int].entries@);
            }
            i = i + 1;
        }
        proof {
            assert(cv.take(i as int) =~= cv);
        }
        t
    }

    /// Records the value of a local `const int` declaration in the innermost scope.
    pub fn define_const_from_decl(&mut self, ty: &Type, decl: &SingleDecl)
        ensures
            final(self).wf() == old(self).wf(),
            final(self).same_frame(*old(self)),
            final(self).state() == define_const_spec(old(self).state(), *old(self).program, *ty, *decl),
    {
        let ghost st = self.state();
        match ty {
            Type::Const(BType::I32) => {}
            _ => {
                return;
            }
        }
        let name = match &decl.var {
            VarDecl::Ident(name) => name,
            _ => {
                return;
            }
        };
        let init = match &decl.init {
            Some(init) => init,
            None => {
                return;
            }
        };
        let exp = match init_exp(init) {
            Some(e) => e,
            None => {
                return;
            }
        };
        let n = self.const_scopes.len();
        if n == 0 {
            return;
        }
        let constants = self.visible_constants();
        match eval_const_checked(exp, &constants) {
            Some(Some(value)) => {
                proof {
                    assert(st.consts.last() == self.const_scopes@[n - 1].entries@);
                }
                let mut last = self.const_scopes.pop().unwrap();
                last.insert(name.clone(), value);
                self.const_scopes.push(last);
                proof {
                    let s = define_const_spec(st, *self.program, *ty, *decl);
                    assert(self.const_view() =~= s.consts);
                    assert(self.state() =~= s);
                }
            }
            _ => {}
        }
    }
}

/// The type a declarator gives its variable, with dimensions evaluated under `constants`.
pub fn decl_btype(ty: &Type, var: &VarDecl, constants: &Table<i32>) -> (r: Result<BType, String>)
    ensures
        match spec_var_dims(var@, constants.entries@) {
            Ok(d) => r == Ok::<BType, String>(array_of(spec_type_base(*ty), d)),
            Err(m) => r matches Err(e) && e@ == m,
        },
{
    let mut dims: Vec<usize> = Vec::new();
    match collect_var_dims(var, constants, &mut dims) {
        Err(e) => Err(e),
        Ok(()) => {
            proof {
                assert(Seq::<usize>::empty() + spec_var_dims(var@, constants.entries@)->Ok_0 =~= dims@);
            }
            Ok(wrap_array_dims(type_base_btype(ty).copy(), &dims))
        }
    }
}

/// Checks one local declaration and defines its variable.
#[verifier::rlimit(40)]
fn decl_validate(ty: &Type, decl: &SingleDecl, ctx: &mut SemanticCtx, loop_depth: usize) -> (r: Result<(), Diagnostic>)
    requires
        old(ctx).wf(),
    ensures
        final(ctx).wf(),
        final(ctx).same_frame(*old(ctx)),
        match decl_res(*ty, *decl, *old(ctx).program, old(ctx).in_async_fn, old(ctx).state()) {
            None => r is Err,
            Some(s) => r is Ok && final(ctx).state() == s,
        },
        decl_dup(*ty, *decl, *old(ctx).program, old(ctx).in_async_fn, old(ctx).state()) ==> (r matches Err(e)
            && e.span == decl.span && e.message@ == "Duplicate local definition: "@ + decl_name_string(decl.var)@),
{
    let ghost st = ctx.state();
    let constants = ctx.visible_constants();
    let decl_ty = match decl_btype(ty, &decl.var, &constants) {
        Ok(t) => t,
        Err(e) => {
            return Err(crate::lalr::diagnostic_at(decl.span, e));
        }
    };
    match validate_object_type_in_program(&decl_ty, ctx.program, "Local variable") {
        Ok(()) => {}
        Err(e) => {
            return Err(crate::lalr::diagnostic_at(decl.span, e));
        }
    }
    match &decl.init {
        Some(init) => {
            match validate_initializer(ctx, init, &decl_ty, loop_depth) {
                Ok(()) => {}
                Err(e) => {
                    return Err(e);
                }
            }
            proof {
                assert(ctx.state() =~= consume(st, init_consumed(init@, decl_ty@, *ctx.program, st.scopes, ctx.in_async_fn)));
            }
        }
        None => {
            proof {
                assert(ctx.state() =~= st);
            }
        }
    }
    ctx.define_const_from_decl(ty, decl);
    match ctx.define_var(var_decl_name(&decl.var), decl_ty) {
        Ok(()) => Ok(()),
        Err(e) => Err(crate::lalr::diagnostic_at(decl.span, e)),
    }
}

// ---------------------------------------------------------------------------
// Statements.

/// A plain value of type `actual` may be returned from a function returning `ret`.
pub open spec fn return_plain_ok(ret: SBType, actual: SBType) -> bool {
    !(actual is Array) && if ret is Void { actual is Void } else { ret == actual }
}

/// The state after checking statement `s`, or `None` when it is rejected;
/// `in_loop` says whether `s` stands inside a loop.
pub open spec fn stmt_res(s: Stmt, p: SemanticProgram, in_async: bool, ret: BType, in_loop: bool, st: SemState) -> Option<SemState>
    decreases s, 0nat,
{
    match s {
        Stmt::Spanned(inner, _) => stmt_res(*inner, p, in_async, ret, in_loop, st),
        Stmt::Block(ss) => match stmts_res(ss@, ss@.len() as int, p, in_async, ret, in_loop, push_state(st)) {
            None => None,
            Some(s2) => Some(pop_state(s2)),
        },
        Stmt::Assign(l, r) => if spec_exp_contains_await(l@) {
            None
        } else {
            match (exp_kind(l@, p, st.scopes, in_async), exp_kind(r@, p, st.scopes, in_async)) {
                (Some(lk), Some(rk)) => if !assignment_ok(lk, rk) {
                    None
                } else {
                    Some(consume(st, exp_consumed(l@, p, st.scopes, in_async)
                        .union(exp_consumed(r@, p, st.scopes, in_async))
                        .union(if lk is Promise && rk is Promise { ident_set(r@) } else { Set::empty() })))
                },
                _ => None,
            }
        },
        Stmt::Decl(ty, ds) => decls_res(ty, ds@, ds@.len() as int, p, in_async, st),
        Stmt::Exp(e) => match exp_kind(e@, p, st.scopes, in_async) {
            Some(SKind::Plain(_)) => Some(consume(st, exp_consumed(e@, p, st.scopes, in_async))),
            _ => None,
        },
        Stmt::PromiseWait(e) => if spec_exp_contains_await(e@) {
            None
        } else {
            match exp_kind(e@, p, st.scopes, in_async) {
                Some(SKind::Promise(_)) => Some(consume(st, exp_consumed(e@, p, st.scopes, in_async).union(ident_set(e@)))),
                _ => None,
            }
        },
        Stmt::Return(Some(e)) => match exp_kind(e@, p, st.scopes, in_async) {
            Some(SKind::Promise(actual)) => if promise_result_ok(actual) && ret@ == SBType::Promise(Box::new(actual)) {
                Some(consume(st, exp_consumed(e@, p, st.scopes, in_async).union(ident_set(e@))))
            } else {
                None
            },
            Some(SKind::Plain(actual)) => if return_plain_ok(ret@, actual) {
                Some(consume(st, exp_consumed(e@, p, st.scopes, in_async)))
            } else {
                None
            },
            None => None,
        },
        Stmt::If(c, t) => match exp_kind(c@, p, st.scopes, in_async) {
            Some(SKind::Plain(_)) => stmt_res(*t, p, in_async, ret, in_loop, consume(st, exp_consumed(c@, p, st.scopes, in_async))),
            _ => None,
        },
        Stmt::IfElse(c, t, e) => match exp_kind(c@, p, st.scopes, in_async) {
            Some(SKind::Plain(_)) => match stmt_res(*t, p, in_async, ret, in_loop, consume(st, exp_consumed(c@, p, st.scopes, in_async))) {
                None => None,
                Some(s1) => stmt_res(*e, p, in_async, ret, in_loop, s1),
            },
            _ => None,
        },
        Stmt::While(c, b) => match exp_kind(c@, p, st.scopes, in_async) {
            Some(SKind::Plain(_)) => stmt_res(*b, p, in_async, ret, true, consume(st, exp_consumed(c@, p, st.scopes, in_async))),
            _ => None,
        },
        Stmt::Break | Stmt::Continue => if in_loop { Some(st) } else { None },
        Stmt::Return(None) => if ret is Void { Some(st) } else { None },
        Stmt::Empty => Some(st),
    }
}

/// The state after checking the first `n` statements of `ss` in order.
pub open spec fn stmts_res(ss: Seq<Stmt>, n: int, p: SemanticProgram, in_async: bool, ret: BType, in_loop: bool, st: SemState) -> Option<SemState>
    decreases ss, n,
{
    if 0 < n <= ss.len() {
        match stmts_res(ss, n - 1, p, in_async, ret, in_loop, st) {
            None => None,
            Some(s1) => stmt_res(ss[n - 1], p, in_async, ret, in_loop, s1),
        }
    } else {
        Some(st)
    }
}

proof fn lemma_stmts_res_none(ss: Seq<Stmt>, m: int, n: int, p: SemanticProgram, in_async: bool, ret: BType, in_loop: bool, st: SemState)
    requires
        0 <= m <= n <= ss.len(),
        stmts_res(ss, m, p, in_async, ret, in_loop, st) is None,
    ensures
        stmts_res(ss, n, p, in_async, ret, in_loop, st) is None,
    decreases n - m,
{
    if m < n {
        lemma_stmts_res_none(ss, m, n - 1, p, in_async, ret, in_loop, st);
    }
}

/// Checks the statements of `stmts` in order, in the current scope.
pub(crate) fn stmts_validate(stmts: &Vec<Stmt>, ctx: &mut SemanticCtx, loop_depth: usize) -> (r: Result<(), Diagnostic>)
    requires
        old(ctx).wf(),
    ensures
        final(ctx).wf(),
        final(ctx).same_frame(*old(ctx)),
        match stmts_res(stmts@, stmts@.len() as int, *old(ctx).program, old(ctx).in_async_fn, old(ctx).ret_ty, loop_depth > 0, old(ctx).state()) {
            None => r is Err,
            Some(s) => r is Ok && final(ctx).state() == s,
        },
    decreases stmts, 0nat,
{
    let ghost c0 = *ctx;
    let mut i: usize = 0;
    while i < stmts.len()
        invariant
            i <= stmts@.len(),
            ctx.wf(),
            ctx.same_frame(c0),
            stmts_res(stmts@, i as int, *c0.program, c0.in_async_fn, c0.ret_ty, loop_depth > 0, c0.state()) == Some(ctx.state()),
        decreases stmts.len() - i,
    {
        match stmt_validate(&stmts[i], ctx, loop_depth) {
            Ok(()) => {}
            Err(e) => {
                proof {
                    lemma_stmts_res_none(stmts@, i + 1, stmts@.len() as int, *c0.program, c0.in_async_fn, c0.ret_ty, loop_depth > 0, c0.state());
                }
                return Err(e);
            }
        }
        i = i + 1;
    }
    Ok(())
}

/// Checks a statement.
#[verifier::spinoff_prover]
#[verifier::rlimit(80)]
pub(crate) fn stmt_validate(stmt: &Stmt, ctx: &mut SemanticCtx, loop_depth: usize) -> (r: Result<(), Diagnostic>)
    requires
        old(ctx).wf(),
    ensures
        final(ctx).wf(),
        final(ctx).same_frame(*old(ctx)),
        match stmt_res(*stmt, *old(ctx).program, old(ctx).in_async_fn, old(ctx).ret_ty, loop_depth > 0, old(ctx).state()) {
            None => r is Err,
            Some(s) => r is Ok && final(ctx).state() == s,
        },
        (*stmt is Break || *stmt is Continue) && loop_depth == 0 ==> (r matches Err(d) && d.span is None
            && d.message@ == "break/continue used outside a loop"@),
        *stmt matches Stmt::Decl(ty, ds) ==> forall|k: int| #![trigger ds@[k]]
            0 <= k < ds@.len() && (decls_res(ty, ds@, k, *old(ctx).program, old(ctx).in_async_fn, old(ctx).state()) matches Some(sk)
                && decl_dup(ty, ds@[k], *old(ctx).program, old(ctx).in_async_fn, sk))
            ==> (r matches Err(e) && e.span == ds@[k].span && e.message@ == "Duplicate local definition: "@ + decl_name_string(ds@[k].var)@),
    decreases stmt, 1nat,
{
    let ghost c0 = *ctx;
    let ghost st = ctx.state();
    match stmt {
        Stmt::Spanned(inner, span) => match stmt_validate(inner, ctx, loop_depth) {
            Ok(()) => Ok(()),
            Err(e) => Err(e.with_fallback_span(*span)),
        },
        Stmt::Block(stmts) => {
            ctx.push_scope();
            match stmts_validate(stmts, ctx, loop_depth) {
                Ok(()) => {}
                Err(e) => {
                    return Err(e);
                }
            }
            ctx.pop_scope();
            Ok(())
        }
        Stmt::Assign(lhs, rhs) => {
            if exp_contains_await(lhs) {
                return Err(Diagnostic::new(String::from_str("await inside assignment target is not supported")));
            }
            let lhs_kind = match exp_validate(lhs, ctx, loop_depth) {
                Ok(k) => k,
                Err(e) => {
                    return Err(e);
                }
            };
            let rhs_kind = match exp_validate(rhs, ctx, loop_depth) {
                Ok(k) => k,
                Err(e) => {
                    return Err(e);
                }
            };
            match validate_assignment_kind(&lhs_kind, &rhs_kind) {
                Ok(()) => {}
                Err(m) => {
                    return Err(Diagnostic::new(m));
                }
            }
            let both = match (&lhs_kind, &rhs_kind) {
                (AsyncExprKind::Promise(_), AsyncExprKind::Promise(_)) => true,
                _ => false,
            };
            if both {
                ctx.consume_promise_exp(rhs);
            }
            proof {
                let p = *c0.program;
                let a = exp_consumed(lhs@, p, st.scopes, c0.in_async_fn);
                let b = exp_consumed(rhs@, p, st.scopes, c0.in_async_fn);
                let c = if both { ident_set(rhs@) } else { Set::empty() };
                assert(ctx.consumed_promises.view_set() =~= st.consumed.union(a.union(b).union(c)));
                assert(ctx.state() =~= stmt_res(*stmt, p, c0.in_async_fn, c0.ret_ty, loop_depth > 0, st)->Some_0);
            }
            Ok(())
        }
        Stmt::Decl(ty, decls) => {
            let mut i: usize = 0;
            while i < decls.len()
                invariant
                    i <= decls@.len(),
                    ctx.wf(),
                    ctx.same_frame(c0),
                    decls_res(*ty, decls@, i as int, *c0.program, c0.in_async_fn, st) == Some(ctx.state()),
                decreases decls.len() - i,
            {
                let ghost si = ctx.state();
                match decl_validate(ty, &decls[i], ctx, loop_depth) {
                    Ok(()) => {}
                    Err(e) => {
                        proof {
                            lemma_decls_res_none(*ty, decls@, i + 1, decls@.len() as int, *c0.program, c0.in_async_fn, st);
                            assert forall|k: int| #![trigger decls@[k]]
                                0 <= k < decls@.len() && (decls_res(*ty, decls@, k, *c0.program, c0.in_async_fn, st) matches Some(sk)
                                    && decl_dup(*ty, decls@[k], *c0.program, c0.in_async_fn, sk))
                                implies (e.span == decls@[k].span && e.message@ == "Duplicate local definition: "@ + decl_name_string(decls@[k].var)@) by {
                                if k < i {
                                    lemma_decl_dup_rejects(*ty, decls@[k], *c0.program, c0.in_async_fn,
                                        decls_res(*ty, decls@, k, *c0.program, c0.in_async_fn, st)->Some_0);
                                    lemma_decls_res_none(*ty, decls@, k + 1, i as int, *c0.program, c0.in_async_fn, st);
                                } else if k > i {
                                    lemma_decls_res_none(*ty, decls@, i + 1, k, *c0.program, c0.in_async_fn, st);
                                }
                            }
                        }
                        return Err(e);
                    }
                }
                i = i + 1;
            }
            proof {
                assert forall|k: int| #![trigger decls@[k]]
                    0 <= k < decls@.len() && (decls_res(*ty, decls@, k, *c0.program, c0.in_async_fn, st) matches Some(sk)
                        && decl_dup(*ty, decls@[k], *c0.program, c0.in_async_fn, sk))
                    implies false by {
                    lemma_decl_dup_rejects(*ty, decls@[k], *c0.program, c0.in_async_fn,
                        decls_res(*ty, decls@, k, *c0.program, c0.in_async_fn, st)->Some_0);
                    lemma_decls_res_none(*ty, decls@, k + 1, decls@.len() as int, *c0.program, c0.in_async_fn, st);
                }
            }
            Ok(())
        }
        Stmt::Exp(exp) => {
            let kind = match exp_validate(exp, ctx, loop_depth) {
                Ok(k) => k,
                Err(e) => {
                    return Err(e);
                }
            };
            if kind.is_promise() {
                return Err(Diagnostic::new(String::from_str("Promise expression must be awaited, stored, or registered")));
            }
            proof {
                assert(ctx.state() =~= consume(st, exp_consumed(exp@, *c0.program, st.scopes, c0.in_async_fn)));
            }
            Ok(())
        }
        Stmt::PromiseWait(exp) => {
            if exp_contains_await(exp) {
                return Err(Diagnostic::new(String::from_str("await inside Promise.wait receiver is not supported")));
            }
            let kind = match exp_validate(exp, ctx, loop_depth) {
                Ok(k) => k,
                Err(e) => {
                    return Err(e);
                }
            };
            if !kind.is_promise() {
                return Err(Diagnostic::new(String::from_str("Promise.wait() expects a Promise value")));
            }
            ctx.consume_promise_exp(exp);
            proof {
                assert(ctx.state() =~= consume(st, exp_consumed(exp@, *c0.program, st.scopes, c0.in_async_fn).union(ident_set(exp@))));
            }
            Ok(())
        }
        Stmt::Return(Some(exp)) => {
            let kind = match exp_validate(exp, ctx, loop_depth) {
                Ok(k) => k,
                Err(e) => {
                    return Err(e);
                }
            };
            match kind {
                AsyncExprKind::Promise(actual) => {
                    ctx.consume_promise_exp(exp);
                    match ensure_promise_result_supported(&actual) {
                        Ok(()) => {}
                        Err(m) => {
                            return Err(Diagnostic::new(m));
                        }
                    }
                    let expected = match &ctx.ret_ty {
                        BType::Promise(expected) => expected,
                        _ => {
                            return Err(Diagnostic::new(String::from_str("Promise value cannot be returned without await")));
                        }
                    };
                    if btype_same(expected, &actual) {
                        proof {
                            assert(ctx.state() =~= consume(st, exp_consumed(exp@, *c0.program, st.scopes, c0.in_async_fn).union(ident_set(exp@))));
                        }
                        Ok(())
                    } else {
                        let en = btype_name(&ctx.ret_ty);
                        let an = btype_name(&BType::Promise(Box::new(actual)));
                        Err(Diagnostic::new(cat4("Return type mismatch: expected ", en.as_str(), ", got ", an.as_str())))
                    }
                }
                AsyncExprKind::Plain(actual) => {
                    match actual {
                        BType::Array(_, _) => {
                            return Err(Diagnostic::new(String::from_str("Array value cannot be returned")));
                        }
                        _ => {}
                    }
                    match &ctx.ret_ty {
                        BType::Void => {
                            match actual {
                                BType::Void => {}
                                _ => {
                                    return Err(Diagnostic::new(String::from_str("Void function cannot return a value")));
                                }
                            }
                        }
                        _ => {
                            if !btype_same(&ctx.ret_ty, &actual) {
                                let en = btype_name(&ctx.ret_ty);
                                let an = btype_name(&actual);
                                return Err(Diagnostic::new(cat4("Return type mismatch: expected ", en.as_str(), ", got ", an.as_str())));
                            }
                        }
                    }
                    proof {
                        assert(ctx.state() =~= consume(st, exp_consumed(exp@, *c0.program, st.scopes, c0.in_async_fn)));
                    }
                    Ok(())
                }
            }
        }
        Stmt::If(cond, then_stmt) => {
            let kind = match exp_validate(cond, ctx, loop_depth) {
                Ok(k) => k,
                Err(e) => {
                    return Err(e);
                }
            };
            if kind.is_promise() {
                return Err(Diagnostic::new(String::from_str("Promise value cannot be used as an if condition")));
            }
            proof {
                assert(ctx.state() =~= consume(st, exp_consumed(cond@, *c0.program, st.scopes, c0.in_async_fn)));
            }
            stmt_validate(then_stmt, ctx, loop_depth)
        }
        Stmt::IfElse(cond, then_stmt, else_stmt) => {
            let kind = match exp_validate(cond, ctx, loop_depth) {
                Ok(k) => k,
                Err(e) => {
                    return Err(e);
                }
            };
            if kind.is_promise() {
                return Err(Diagnostic::new(String::from_str("Promise value cannot be used as an if condition")));
            }
            proof {
                assert(ctx.state() =~= consume(st, exp_consumed(cond@, *c0.program, st.scopes, c0.in_async_fn)));
            }
            match stmt_validate(then_stmt, ctx, loop_depth) {
                Ok(()) => {}
                Err(e) => {
                    return Err(e);
                }
            }
            stmt_validate(else_stmt, ctx, loop_depth)
        }
        Stmt::While(cond, body) => {
            let kind = match exp_validate(cond, ctx, loop_depth) {
                Ok(k) => k,
                Err(e) => {
                    return Err(e);
                }
            };
            if kind.is_promise() {
                return Err(Diagnostic::new(String::from_str("Promise value cannot be used as a while condition")));
            }
            proof {
                assert(ctx.state() =~= consume(st, exp_consumed(cond@, *c0.program, st.scopes, c0.in_async_fn)));
            }
            let inner_depth = if loop_depth < usize::MAX { loop_depth + 1 } else { loop_depth };
            stmt_validate(body, ctx, inner_depth)
        }
        Stmt::Break | Stmt::Continue => {
            if loop_depth == 0 {
                Err(Diagnostic::new(String::from_str("break/continue used outside a loop")))
            } else {
                Ok(())
            }
        }
        Stmt::Return(None) => {
            match &ctx.ret_ty {
                BType::Void => Ok(()),
                other => {
                    let n = btype_name(other);
                    Err(Diagnostic::new(cat3("Function returning ", n.as_str(), " cannot use empty return")))
                }
            }
        }
        Stmt::Empty => Ok(()),
    }
}

// ---------------------------------------------------------------------------
// Functions and global declarations.

/// The type a parameter has inside its function: an array parameter is a
/// pointer to arrays of its given dimensions.
pub open spec fn param_sem_type(param: FuncParam, env: Seq<(String, i32)>) -> Option<BType> {
    match param.array_dims {
        None => Some(param.btype),
        Some(dims) => match spec_param_dims(exps_view(dims@), env) {
            Ok(d) => Some(BType::Ptr(Box::new(array_of(param.btype, d)))),
            Err(_) => None,
        },
    }
}

/// The state after defining the first `n` parameters.
pub open spec fn params_res(ps: Seq<FuncParam>, n: int, p: SemanticProgram, st: SemState) -> Option<SemState>
    decreases n,
{
    if 0 < n <= ps.len() {
        match params_res(ps, n - 1, p, st) {
            None => None,
            Some(s) => match param_sem_type(ps[n - 1], p.constants.entries@) {
                None => None,
                Some(t) => define_var_spec(s, ps[n - 1].name, t),
            },
        }
    } else {
        Some(st)
    }
}

proof fn lemma_params_res_none(ps: Seq<FuncParam>, m: int, n: int, p: SemanticProgram, st: SemState)
    requires
        0 <= m <= n <= ps.len(),
        params_res(ps, m, p, st) is None,
    ensures
        params_res(ps, n, p, st) is None,
    decreases n - m,
{
    if m < n {
        lemma_params_res_none(ps, m, n - 1, p, st);
    }
}

/// The state a function body starts from: one empty scope, no promises.
pub open spec fn body_start() -> SemState {
    SemState {
        scopes: seq![Seq::empty()],
        consts: seq![Seq::empty()],
        declared: Set::empty(),
        consumed: Set::empty(),
    }
}

/// A function is accepted in program `p`: its parameters are well-typed and
/// distinct, its statements are accepted in order, every promise variable it
/// declares is consumed, and a function that returns a value returns on every path.
pub open spec fn func_ok(f: FuncDef, p: SemanticProgram) -> bool {
    let ret = spec_type_base(f.func_type);
    match params_res(f.func_params@, f.func_params@.len() as int, p, body_start()) {
        None => false,
        Some(s1) => match stmts_res(f.block@, f.block@.len() as int, p, f.is_async, ret, false, s1) {
            None => false,
            Some(s2) => s2.declared.subset_of(s2.consumed)
                && (ret is Void || spec_block_guarantees_return(stmts_view(f.block@))),
        },
    }
}

/// The diagnostic of a function whose parameters and body are accepted: an
/// unconsumed promise variable is named, then a value function that may
/// fall through is reported at the function.
pub open spec fn func_diag(f: FuncDef, p: SemanticProgram, r: Result<(), Diagnostic>) -> bool {
    func_body_state(f, p) matches Some(s2) ==> {
        &&& !s2.declared.subset_of(s2.consumed) ==> (r matches Err(d) && d.span is None
            && exists|n: Seq<char>| s2.declared.contains(n) && !s2.consumed.contains(n)
                && d.message@ == "Promise variable "@ + n + " must be awaited or explicitly blocked with Promise.wait()"@)
        &&& s2.declared.subset_of(s2.consumed) && !(spec_type_base(f.func_type) is Void)
            && !spec_block_guarantees_return(stmts_view(f.block@)) ==> (r matches Err(d) && d.span == f.span
            && d.message@ == "Function returning "@ + crate::syntax::spec_btype_name(spec_type_base(f.func_type)@) + " may fall through without return"@)
    }
}

/// An accepted function has no diagnostic to report.
pub proof fn lemma_func_diag_ok(f: FuncDef, p: SemanticProgram, r: Result<(), Diagnostic>)
    requires
        func_ok(f, p),
    ensures
        func_diag(f, p, r),
{
}

/// A function that returns a value and has a path through its body that runs
/// off the end is refused with the fall-through diagnostic at the function,
/// once its parameters and statements are accepted and its promises consumed:
/// for instance a body whose `if`-`else` returns in one branch only.
pub proof fn lemma_fall_through_refused(f: FuncDef, p: SemanticProgram, r: Result<(), Diagnostic>)
    requires
        func_diag(f, p, r),
        func_body_state(f, p) matches Some(s2) && s2.declared.subset_of(s2.consumed),
        !(spec_type_base(f.func_type) is Void),
        crate::syntax::may_run_off(crate::lalr::SStmt::Block(stmts_view(f.block@))),
    ensures
        r matches Err(d) && d.span == f.span
            && d.message@ == "Function returning "@ + crate::syntax::spec_btype_name(spec_type_base(f.func_type)@)
                + " may fall through without return"@,
{
    crate::syntax::lemma_block_return_paths(stmts_view(f.block@));
}

/// The state after a function's parameters and body, when both are accepted.
pub open spec fn func_body_state(f: FuncDef, p: SemanticProgram) -> Option<SemState> {
    match params_res(f.func_params@, f.func_params@.len() as int, p, body_start()) {
        None => None,
        Some(s1) => stmts_res(f.block@, f.block@.len() as int, p, f.is_async, spec_type_base(f.func_type), false, s1),
    }
}

/// A global declaration is accepted: its type evaluates and its initializer,
/// if any, fits it, outside any function.
pub open spec fn global_decl_ok(ty: Type, d: SingleDecl, p: SemanticProgram) -> bool {
    match decl_type_under(ty, d.var, p.constants.entries@) {
        None => false,
        Some(t) => match d.init {
            None => true,
            Some(i) => init_ok(i@, t@, p, Seq::empty(), false),
        },
    }
}

/// A global definition is accepted in program `p`.
pub open spec fn global_ok(g: GlobalDef, p: SemanticProgram) -> bool {
    match g {
        GlobalDef::FuncDef(f) => func_ok(f, p),
        GlobalDef::GlobalDecl(ty, ds) => forall|i: int| 0 <= i < ds@.len() ==> #[trigger] global_decl_ok(ty, ds@[i], p),
        GlobalDef::StructDef(_) => true,
    }
}

/// The type of a parameter inside its function.
pub fn func_param_semantic_btype(param: &FuncParam, constants: &Table<i32>) -> (r: Result<BType, String>)
    ensures
        match param_sem_type(*param, constants.entries@) {
            None => r is Err,
            Some(t) => r == Ok::<BType, String>(t),
        },
{
    match &param.array_dims {
        None => Ok(param.btype.copy()),
        Some(dims) => {
            let ghost dv = exps_view(dims@);
            let mut resolved: Vec<usize> = Vec::new();
            let mut i: usize = 0;
            while i < dims.len()
                invariant
                    i <= dims@.len(),
                    dv == exps_view(dims@),
                    spec_param_dims(dv.take(i as int), constants.entries@) == Ok::<Seq<usize>, Seq<char>>(resolved@),
                decreases dims.len() - i,
            {
                proof {
                    assert(dv.take(i + 1).drop_last() =~= dv.take(i as int));
                    assert(dv.take(i + 1).last() == dims@[i as int]@);
                }
                match eval_const_checked(&dims[i], constants) {
                    Some(Some(v)) => {
                        if v < 0 {
                            proof {
                                lemma_param_dims_err(dv, i + 1, constants.entries@);
                            }
                            return Err(String::from_str("Array parameter dimension must be non-negative"));
                        }
                        resolved.push(v as usize);
                    }
                    Some(None) => {
                        proof {
                            lemma_param_dims_err(dv, i + 1, constants.entries@);
                        }
                        return Err(String::from_str("Array parameter dimension must be a constant expression"));
                    }
                    None => {
                        proof {
                            lemma_param_dims_err(dv, i + 1, constants.entries@);
                        }
                        return Err(String::from_str("Constant expression overflows"));
                    }
                }
                i = i + 1;
            }
            proof {
                assert(dv.take(dims@.len() as int) =~= dv);
            }
            Ok(func_param_btype(param.btype.copy(), resolved))
        }
    }
}

impl<'a> SemanticCtx<'a> {
    /// Every promise variable declared has been consumed.
    pub fn finish_function(&self) -> (r: Result<(), String>)
        ensures
            r is Ok <==> self.declared_promises.view_set().subset_of(self.consumed_promises.view_set()),
            r matches Err(m) ==> exists|n: Seq<char>| self.declared_promises.view_set().contains(n)
                && !self.consumed_promises.view_set().contains(n)
                && m@ == "Promise variable "@ + n + " must be awaited or explicitly blocked with Promise.wait()"@,
    {
        let mut i: usize = 0;
        while i < self.declared_promises.names.len()
            invariant
                i <= self.declared_promises.names@.len(),
                forall|j: int| 0 <= j < i ==> self.consumed_promises.view_set().contains(#[trigger] self.declared_promises.names@[j]@),
            decreases self.declared_promises.names.len() - i,
        {
            let name = &self.declared_promises.names[i];
            if !self.consumed_promises.contains(name.as_str()) {
                proof {
                    assert(self.declared_promises.view_set().contains(name@));
                }
                return Err(cat3("Promise variable ", name.as_str(), " must be awaited or explicitly blocked with Promise.wait()"));
            }
            i = i + 1;
        }
        proof {
            assert forall|k: Seq<char>| self.declared_promises.view_set().contains(k) implies self.consumed_promises.view_set().contains(k) by {
                let j = choose|j: int| 0 <= j < self.declared_promises.names@.len() && self.declared_promises.names@[j]@ == k;
                assert(self.consumed_promises.view_set().contains(self.declared_promises.names@[j]@));
            }
        }
        Ok(())
    }
}

impl FuncDef {
    /// Checks the function against the signatures of its program.
    pub fn validate_semantics(&self, program: &SemanticProgram) -> (r: Result<(), Diagnostic>)
        ensures
            r is Ok <==> func_ok(*self, *program),
            func_diag(*self, *program, r),
    {
        let ret_ty = type_base_btype(&self.func_type).copy();
        let mut ctx = SemanticCtx::new(program, self.is_async, ret_ty);
        ctx.push_scope();
        proof {
            assert(ctx.state() =~= body_start());
        }
        let ghost ps = self.func_params@;
        let mut i: usize = 0;
        while i < self.func_params.len()
            invariant
                i <= ps.len(),
                ps == self.func_params@,
                ctx.wf(),
                *ctx.program == *program,
                ctx.in_async_fn == self.is_async,
                ctx.ret_ty == spec_type_base(self.func_type),
                params_res(ps, i as int, *program, body_start()) == Some(ctx.state()),
            decreases ps.len() - i,
        {
            let param = &self.func_params[i];
            let param_ty = match func_param_semantic_btype(param, &program.constants) {
                Ok(t) => t,
                Err(e) => {
                    proof {
                        lemma_params_res_none(ps, i + 1, ps.len() as int, *program, body_start());
                    }
                    return Err(crate::lalr::diagnostic_at(self.span, e));
                }
            };
            match ctx.define_var(param.name.clone(), param_ty) {
                Ok(()) => {}
                Err(e) => {
                    proof {
                        lemma_params_res_none(ps, i + 1, ps.len() as int, *program, body_start());
                    }
                    return Err(crate::lalr::diagnostic_at(self.span, e));
                }
            }
            i = i + 1;
        }
        match stmts_validate(&self.block, &mut ctx, 0) {
            Ok(()) => {}
            Err(e) => {
                return Err(e);
            }
        }
        match ctx.finish_function() {
            Ok(()) => {}
            Err(m) => {
                return Err(Diagnostic::new(m));
            }
        }
        if requires_guaranteed_return(&ctx.ret_ty) && !block_guarantees_return(&self.block) {
            let n = btype_name(&ctx.ret_ty);
            let message = cat3("Function returning ", n.as_str(), " may fall through without return");
            return Err(crate::lalr::diagnostic_at(self.span, message));
        }
        ctx.pop_scope();
        Ok(())
    }
}

impl GlobalDef {
    /// Checks a global definition against the signatures of its program.
    pub fn validate_semantics(&self, program: &SemanticProgram) -> (r: Result<(), Diagnostic>)
        ensures
            r is Ok <==> global_ok(*self, *program),
            *self matches GlobalDef::FuncDef(f) ==> func_diag(f, *program, r),
    {
        match self {
            GlobalDef::FuncDef(func) => func.validate_semantics(program),
            GlobalDef::GlobalDecl(ty, decls) => {
                let mut ctx = SemanticCtx::new(program, false, BType::Void);
                proof {
                    assert(ctx.scope_view().len() == 0);
                }
                let mut i: usize = 0;
                while i < decls.len()
                    invariant
                        i <= decls@.len(),
                        ctx.wf(),
                        *ctx.program == *program,
                        ctx.in_async_fn == false,
                        ctx.scopes@.len() == 0,
                        forall|j: int| 0 <= j < i ==> #[trigger] global_decl_ok(*ty, decls@[j], *program),
                    decreases decls.len() - i,
                {
                    let decl = &decls[i];
                    let decl_ty = match decl_btype(ty, &decl.var, &program.constants) {
                        Ok(t) => t,
                        Err(e) => {
                            proof {
                                assert(!global_decl_ok(*ty, decls@[i as int], *program));
                            }
                            return Err(Diagnostic::new(e));
                        }
                    };
                    match &decl.init {
                        Some(init) => {
                            proof {
                                assert(ctx.scope_view() =~= Seq::<Seq<(String, BType)>>::empty());
                            }
                            match validate_initializer(&mut ctx, init, &decl_ty, 0) {
                                Ok(()) => {}
                                Err(e) => {
                                    proof {
                                        assert(!global_decl_ok(*ty, decls@[i as int], *program));
                                    }
                                    return Err(e);
                                }
                            }
                        }
                        None => {}
                    }
                    i = i + 1;
                }
                Ok(())
            }
            GlobalDef::StructDef(_) => Ok(()),
        }
    }
}

} // verus!
