use vstd::prelude::*;
use crate::lalr::{
    lemma_arr_view, lemma_block_view, lemma_call_view, Exp, FuncDef, FuncParam, InitVal, SDecl,
    SExp, SInit, SStmt, SingleDecl, Stmt, SVarDecl, VarDecl,
};
use crate::syntax::spec_var_decl_name;
use crate::table::{assoc, NameSet, Table};
use crate::llvm::layout::{align_up, spec_align_up, spec_try_align, spec_try_size, StructLayout};
use crate::llvm::module::{decl_type_with_constants, ModuleCtx};
use crate::llvm::types::{LlvmType, SLlvm};
use crate::llvm::async_cfg::{spec_await_points, AsyncCfgFunction};
use crate::syntax::{init_exp, var_decl_name};
use crate::lalr::{eval_const_checked, BType, Type};
use crate::text::{cat, cat3, i32_text, int_text, is_digit, lemma_nat_text_digits, lemma_nat_text_injective, nat_text, usize_text};

verus! {

broadcast use vstd::std_specs::vec::group_vec_axioms;

// ---------------------------------------------------------------------------
// Renaming the locals of an async function apart.

/// The name given to the local declared as `name` when the renamer's counter
/// stood at `id`.
pub open spec fn local_text(id: nat, name: Seq<char>) -> Seq<char> {
    "__sysy_local_"@ + nat_text(id) + "_"@ + name
}

/// The names a declaration list declares, in order.
pub open spec fn decls_names(ds: Seq<SDecl>) -> Seq<Seq<char>> {
    Seq::new(ds.len(), |i: int| spec_var_decl_name(ds[i].var))
}

/// The names a statement declares, in the order they appear.
pub open spec fn stmt_decl_names(s: SStmt) -> Seq<Seq<char>>
    decreases s, 1nat,
{
    match s {
        SStmt::Spanned(inner, _) => stmt_decl_names(*inner),
        SStmt::Block(ss) => stmts_decl_names(ss, ss.len() as int),
        SStmt::Decl(_, ds) => decls_names(ds),
        SStmt::If(_, t) => stmt_decl_names(*t),
        SStmt::IfElse(_, t, e) => stmt_decl_names(*t) + stmt_decl_names(*e),
        SStmt::While(_, b) => stmt_decl_names(*b),
        _ => Seq::empty(),
    }
}

/// The names the first `n` statements declare.
pub open spec fn stmts_decl_names(ss: Seq<SStmt>, n: int) -> Seq<Seq<char>>
    decreases ss, n,
{
    if 0 < n <= ss.len() {
        stmts_decl_names(ss, n - 1) + stmt_decl_names(ss[n - 1])
    } else {
        Seq::empty()
    }
}

/// `out` renames `orig` with consecutive numbers starting at `start`.
pub open spec fn renamed_from(out: Seq<Seq<char>>, orig: Seq<Seq<char>>, start: nat) -> bool {
    &&& out.len() == orig.len()
    &&& forall|j: int| 0 <= j < out.len() ==> #[trigger] out[j] == local_text(start + j as nat, orig[j])
}

/// Scopes of renamings: each a list of (original, new) names, later
/// bindings shadowing earlier ones.
pub open spec fn assoc_text(entries: Seq<(Seq<char>, Seq<char>)>, key: Seq<char>) -> Option<Seq<char>>
    decreases entries.len(),
{
    if entries.len() == 0 {
        None
    } else if entries.last().0 == key {
        Some(entries.last().1)
    } else {
        assoc_text(entries.drop_last(), key)
    }
}

/// The pairs of a table of names as plain text.
pub open spec fn text_pairs(entries: Seq<(String, String)>) -> Seq<(Seq<char>, Seq<char>)> {
    Seq::new(entries.len(), |j: int| (entries[j].0@, entries[j].1@))
}

proof fn lemma_assoc_text(entries: Seq<(String, String)>, key: Seq<char>)
    ensures
        assoc_text(text_pairs(entries), key) == match assoc(entries, key) {
            Some(v) => Some(v@),
            None => None,
        },
    decreases entries.len(),
{
    if entries.len() > 0 {
        assert(text_pairs(entries).drop_last() =~= text_pairs(entries.drop_last()));
        lemma_assoc_text(entries.drop_last(), key);
    }
}

/// The binding of `name` in the innermost of the first `n` scopes that has one.
pub open spec fn lookup_scopes(scopes: Seq<Seq<(Seq<char>, Seq<char>)>>, name: Seq<char>, n: int) -> Option<Seq<char>>
    decreases n,
{
    if 0 < n <= scopes.len() {
        match assoc_text(scopes[n - 1], name) {
            Some(v) => Some(v),
            None => lookup_scopes(scopes, name, n - 1),
        }
    } else {
        None
    }
}

/// `e` with every variable replaced by its binding in `scopes`, if it has one.
pub open spec fn spec_rename_exp(e: SExp, scopes: Seq<Seq<(Seq<char>, Seq<char>)>>) -> SExp
    decreases e,
{
    match e {
        SExp::Spanned(i, s) => SExp::Spanned(Box::new(spec_rename_exp(*i, scopes)), s),
        SExp::Ident(n) => SExp::Ident(
            match lookup_scopes(scopes, n, scopes.len() as int) {
                Some(v) => v,
                None => n,
            },
        ),
        SExp::UnaryExp(op, i) => SExp::UnaryExp(op, Box::new(spec_rename_exp(*i, scopes))),
        SExp::BinaryExp(op, l, r) => SExp::BinaryExp(op, Box::new(spec_rename_exp(*l, scopes)), Box::new(spec_rename_exp(*r, scopes))),
        SExp::FuncCall(n, args) => SExp::FuncCall(
            n,
            Seq::new(args.len(), |i: int| if 0 <= i < args.len() { spec_rename_exp(args[i], scopes) } else { SExp::Number(0) }),
        ),
        SExp::ArrGet(b, i) => SExp::ArrGet(Box::new(spec_rename_exp(*b, scopes)), Box::new(spec_rename_exp(*i, scopes))),
        SExp::Field(b, f) => SExp::Field(Box::new(spec_rename_exp(*b, scopes)), f),
        SExp::PtrField(b, f) => SExp::PtrField(Box::new(spec_rename_exp(*b, scopes)), f),
        SExp::Await(i) => SExp::Await(Box::new(spec_rename_exp(*i, scopes))),
        SExp::Sleep(i) => SExp::Sleep(Box::new(spec_rename_exp(*i, scopes))),
        SExp::PromiseWait(i) => SExp::PromiseWait(Box::new(spec_rename_exp(*i, scopes))),
        _ => e,
    }
}

/// `init` with every expression in it renamed through `scopes`.
pub open spec fn spec_rename_init(init: SInit, scopes: Seq<Seq<(Seq<char>, Seq<char>)>>) -> SInit
    decreases init,
{
    match init {
        SInit::Spanned(i, s) => SInit::Spanned(Box::new(spec_rename_init(*i, scopes)), s),
        SInit::Exp(e) => SInit::Exp(spec_rename_exp(e, scopes)),
        SInit::Arr(items) => SInit::Arr(
            Seq::new(items.len(), |k: int| if 0 <= k < items.len() { spec_rename_init(items[k], scopes) } else { SInit::Arr(Seq::empty()) }),
        ),
    }
}

/// Binds `o` to `n` in the innermost scope, if there is one.
pub open spec fn scopes_define(sc: Seq<Seq<(Seq<char>, Seq<char>)>>, o: Seq<char>, n: Seq<char>) -> Seq<Seq<(Seq<char>, Seq<char>)>> {
    if sc.len() > 0 {
        sc.update(sc.len() - 1, sc.last().push((o, n)))
    } else {
        sc
    }
}

/// A declarator with its name replaced by the local numbered `id` and its
/// dimensions renamed through `sc`.
pub open spec fn spec_rename_var(v: SVarDecl, sc: Seq<Seq<(Seq<char>, Seq<char>)>>, id: nat) -> SVarDecl
    decreases v,
{
    match v {
        SVarDecl::Ident(n) => SVarDecl::Ident(local_text(id, n)),
        SVarDecl::Array(inner, d) => SVarDecl::Array(Box::new(spec_rename_var(*inner, sc, id)), spec_rename_exp(d, sc)),
    }
}

/// The first `n` declarations renamed in turn: each initializer is read with
/// the bindings before its declarator, which then gets the next number.
pub open spec fn spec_rename_decls(ds: Seq<SDecl>, n: int, sc: Seq<Seq<(Seq<char>, Seq<char>)>>, id: nat)
    -> (Seq<SDecl>, Seq<Seq<(Seq<char>, Seq<char>)>>, nat)
    decreases n,
{
    if 0 < n <= ds.len() {
        let p = spec_rename_decls(ds, n - 1, sc, id);
        let d = ds[n - 1];
        let name = spec_var_decl_name(d.var);
        (
            p.0.push(SDecl {
                span: d.span,
                var: spec_rename_var(d.var, p.1, p.2),
                init: match d.init {
                    Some(i) => Some(spec_rename_init(i, p.1)),
                    None => None,
                },
            }),
            scopes_define(p.1, name, local_text(p.2, name)),
            p.2 + 1,
        )
    } else {
        (Seq::empty(), sc, id)
    }
}

/// A statement with its locals renamed apart and every use of a local
/// replaced by the new name of its innermost declaration; the scopes and the
/// next number after it.
pub open spec fn spec_rename_stmt(s: SStmt, sc: Seq<Seq<(Seq<char>, Seq<char>)>>, id: nat)
    -> (SStmt, Seq<Seq<(Seq<char>, Seq<char>)>>, nat)
    decreases s, 1nat,
{
    match s {
        SStmt::Spanned(i, sp) => {
            let r = spec_rename_stmt(*i, sc, id);
            (SStmt::Spanned(Box::new(r.0), sp), r.1, r.2)
        },
        SStmt::Block(ss) => {
            let r = spec_rename_stmts(ss, ss.len() as int, sc.push(Seq::empty()), id);
            (SStmt::Block(r.0), r.1.drop_last(), r.2)
        },
        SStmt::Assign(l, r) => (SStmt::Assign(spec_rename_exp(l, sc), spec_rename_exp(r, sc)), sc, id),
        SStmt::Decl(ty, ds) => {
            let r = spec_rename_decls(ds, ds.len() as int, sc, id);
            (SStmt::Decl(ty, r.0), r.1, r.2)
        },
        SStmt::Exp(e) => (SStmt::Exp(spec_rename_exp(e, sc)), sc, id),
        SStmt::If(c, t) => {
            let r = spec_rename_stmt(*t, sc, id);
            (SStmt::If(spec_rename_exp(c, sc), Box::new(r.0)), r.1, r.2)
        },
        SStmt::IfElse(c, t, e) => {
            let a = spec_rename_stmt(*t, sc, id);
            let b = spec_rename_stmt(*e, a.1, a.2);
            (SStmt::IfElse(spec_rename_exp(c, sc), Box::new(a.0), Box::new(b.0)), b.1, b.2)
        },
        SStmt::While(c, body) => {
            let r = spec_rename_stmt(*body, sc, id);
            (SStmt::While(spec_rename_exp(c, sc), Box::new(r.0)), r.1, r.2)
        },
        SStmt::PromiseWait(e) => (SStmt::PromiseWait(spec_rename_exp(e, sc)), sc, id),
        SStmt::Return(Some(e)) => (SStmt::Return(Some(spec_rename_exp(e, sc))), sc, id),
        _ => (s, sc, id),
    }
}

pub open spec fn spec_rename_stmts(ss: Seq<SStmt>, n: int, sc: Seq<Seq<(Seq<char>, Seq<char>)>>, id: nat)
    -> (Seq<SStmt>, Seq<Seq<(Seq<char>, Seq<char>)>>, nat)
    decreases ss, n,
{
    if 0 < n <= ss.len() {
        let p = spec_rename_stmts(ss, n - 1, sc, id);
        let q = spec_rename_stmt(ss[n - 1], p.1, p.2);
        (p.0.push(q.0), q.1, q.2)
    } else {
        (Seq::empty(), sc, id)
    }
}

/// The scope of a function's parameters: each bound to itself.
pub open spec fn param_scope(ps: Seq<FuncParam>) -> Seq<(Seq<char>, Seq<char>)> {
    Seq::new(ps.len(), |i: int| (ps[i].name@, ps[i].name@))
}

/// Gives every local of a function a name of its own, so that shadowed
/// variables no longer share a name.
pub struct LocalRenamer {
    pub scopes: Vec<Table<String>>,
    pub next_id: usize,
}

impl LocalRenamer {
    pub open spec fn scopes_view(&self) -> Seq<Seq<(Seq<char>, Seq<char>)>> {
        Seq::new(self.scopes@.len(), |i: int| text_pairs(self.scopes@[i].entries@))
    }

    pub fn new() -> (r: Self)
        ensures
            r.scopes@.len() == 0,
            r.next_id == 0,
    {
        LocalRenamer { scopes: Vec::new(), next_id: 0 }
    }

    fn push_scope(&mut self)
        ensures
            final(self).scopes@.len() == old(self).scopes@.len() + 1,
            final(self).scopes_view() == old(self).scopes_view().push(Seq::empty()),
            final(self).next_id == old(self).next_id,
    {
        let t: Table<String> = Table::new();
        proof {
            assert(t.entries@ =~= Seq::<(String, String)>::empty());
            assert(text_pairs(t.entries@) =~= Seq::<(Seq<char>, Seq<char>)>::empty());
        }
        self.scopes.push(t);
        proof {
            assert(self.scopes_view() =~= old(self).scopes_view().push(Seq::empty()));
        }
    }

    fn pop_scope(&mut self)
        requires
            old(self).scopes@.len() > 0,
        ensures
            final(self).scopes@.len() == old(self).scopes@.len() - 1,
            final(self).scopes_view() == old(self).scopes_view().drop_last(),
            final(self).next_id == old(self).next_id,
    {
        self.scopes.pop();
        proof {
            assert(self.scopes_view() =~= old(self).scopes_view().drop_last());
        }
    }

    /// Binds `original` to `renamed` in the innermost scope, if there is one.
    fn define(&mut self, original: String, renamed: String)
        ensures
            final(self).scopes@.len() == old(self).scopes@.len(),
            final(self).next_id == old(self).next_id,
            old(self).scopes@.len() == 0 ==> final(self).scopes_view() == old(self).scopes_view(),
            old(self).scopes@.len() > 0 ==> final(self).scopes_view() == old(self).scopes_view().update(
                old(self).scopes@.len() - 1,
                old(self).scopes_view().last().push((original@, renamed@)),
            ),
    {
        let n = self.scopes.len();
        if n > 0 {
            let ghost ov = original@;
            let ghost rv = renamed@;
            let mut scope = self.scopes.remove(n - 1);
            let ghost e0 = scope.entries@;
            scope.insert(original, renamed);
            self.scopes.push(scope);
            proof {
                assert(text_pairs(self.scopes@[n - 1].entries@) =~= text_pairs(e0).push((ov, rv)));
                assert(self.scopes_view() =~= old(self).scopes_view().update(
                    n - 1,
                    old(self).scopes_view().last().push((original@, renamed@)),
                ));
            }
        } else {
            proof {
                assert(self.scopes_view() =~= old(self).scopes_view());
            }
        }
    }

    /// The binding of `name` in the innermost scope that has one.
    fn lookup(&self, name: &str) -> (r: Option<String>)
        ensures
            match r {
                Some(v) => lookup_scopes(self.scopes_view(), name@, self.scopes@.len() as int) == Some(v@),
                None => lookup_scopes(self.scopes_view(), name@, self.scopes@.len() as int) is None,
            },
    {
        let mut i = self.scopes.len();
        while i > 0
            invariant
                i <= self.scopes@.len(),
                lookup_scopes(self.scopes_view(), name@, self.scopes@.len() as int)
                    == lookup_scopes(self.scopes_view(), name@, i as int),
            decreases i,
        {
            proof {
                assert(self.scopes_view()[i - 1] == text_pairs(self.scopes@[i - 1].entries@));
                lemma_assoc_text(self.scopes@[i - 1].entries@, name@);
            }
            match self.scopes[i - 1].get(name) {
                Some(v) => {
                    return Some(v.clone());
                }
                None => {}
            }
            i = i - 1;
        }
        None
    }

    /// A fresh name for a local first declared as `name`.
    fn unique_local(&mut self, name: &str) -> (r: String)
        requires
            old(self).next_id < usize::MAX,
        ensures
            r@ == local_text(old(self).next_id as nat, name@),
            final(self).next_id == old(self).next_id + 1,
            final(self).scopes == old(self).scopes,
    {
        let id = self.next_id;
        self.next_id = self.next_id + 1;
        let digits = usize_text(id);
        let a = cat("__sysy_local_", digits.as_str());
        let b = cat(a.as_str(), "_");
        cat(b.as_str(), name)
    }

    /// Replaces every variable of `exp` by its binding, if it has one.
    pub fn rename_exp(&self, exp: &Exp) -> (r: Exp)
        ensures
            r@ == spec_rename_exp(exp@, self.scopes_view()),
        decreases exp,
    {
        match exp {
            Exp::Spanned(inner, span) => Exp::Spanned(Box::new(self.rename_exp(inner)), *span),
            Exp::Ident(name) => match self.lookup(name.as_str()) {
                Some(v) => Exp::Ident(v),
                None => Exp::Ident(name.clone()),
            },
            Exp::Number(value) => Exp::Number(*value),
            Exp::UnaryExp(op, inner) => Exp::UnaryExp(*op, Box::new(self.rename_exp(inner))),
            Exp::BinaryExp(op, lhs, rhs) => Exp::BinaryExp(*op, Box::new(self.rename_exp(lhs)), Box::new(self.rename_exp(rhs))),
            Exp::FuncCall(name, args) => {
                let mut renamed: Vec<Exp> = Vec::new();
                let mut i: usize = 0;
                while i < args.len()
                    invariant
                        i <= args@.len(),
                        renamed@.len() == i,
                        forall|j: int| 0 <= j < i ==> (#[trigger] renamed@[j])@ == spec_rename_exp(args@[j]@, self.scopes_view()),
                    decreases args.len() - i,
                {
                    renamed.push(self.rename_exp(&args[i]));
                    i = i + 1;
                }
                let r = Exp::FuncCall(name.clone(), renamed);
                proof {
                    lemma_call_view(exp);
                    lemma_call_view(&r);
                    assert(r@->FuncCall_1 =~= spec_rename_exp(exp@, self.scopes_view())->FuncCall_1);
                }
                r
            }
            Exp::ArrGet(base, index) => Exp::ArrGet(Box::new(self.rename_exp(base)), Box::new(self.rename_exp(index))),
            Exp::Field(base, field) => Exp::Field(Box::new(self.rename_exp(base)), field.clone()),
            Exp::PtrField(base, field) => Exp::PtrField(Box::new(self.rename_exp(base)), field.clone()),
            Exp::New(ty) => Exp::New(ty.copy()),
            Exp::Await(inner) => Exp::Await(Box::new(self.rename_exp(inner))),
            Exp::Sleep(inner) => Exp::Sleep(Box::new(self.rename_exp(inner))),
            Exp::PromiseWait(inner) => Exp::PromiseWait(Box::new(self.rename_exp(inner))),
        }
    }

    fn rename_init(&self, init: &InitVal) -> (r: InitVal)
        ensures
            r@ == spec_rename_init(init@, self.scopes_view()),
        decreases init,
    {
        match init {
            InitVal::Spanned(inner, span) => InitVal::Spanned(Box::new(self.rename_init(inner)), *span),
            InitVal::Exp(exp) => InitVal::Exp(self.rename_exp(exp)),
            InitVal::Arr(items) => {
                let mut renamed: Vec<InitVal> = Vec::new();
                let mut i: usize = 0;
                while i < items.len()
                    invariant
                        i <= items@.len(),
                        renamed@.len() == i,
                        forall|j: int| 0 <= j < i ==> (#[trigger] renamed@[j])@ == spec_rename_init(items@[j]@, self.scopes_view()),
                    decreases items.len() - i,
                {
                    renamed.push(self.rename_init(&items[i]));
                    i = i + 1;
                }
                let r = InitVal::Arr(renamed);
                proof {
                    lemma_arr_view(&r);
                    lemma_arr_view(init);
                    assert(r@->Arr_0 =~= spec_rename_init(init@, self.scopes_view())->Arr_0);
                }
                r
            }
        }
    }

    /// Renames the declared name of `var`; answers the renamed declarator,
    /// the original name and the new one.
    fn rename_decl_var(&mut self, var: &VarDecl) -> (r: (VarDecl, String, String))
        requires
            old(self).next_id < usize::MAX,
        ensures
            r.1@ == spec_var_decl_name(var@),
            r.2@ == local_text(old(self).next_id as nat, spec_var_decl_name(var@)),
            spec_var_decl_name(r.0@) == r.2@,
            r.0@ == spec_rename_var(var@, old(self).scopes_view(), old(self).next_id as nat),
            final(self).next_id == old(self).next_id + 1,
            final(self).scopes == old(self).scopes,
        decreases var,
    {
        match var {
            VarDecl::Ident(name) => {
                let renamed = self.unique_local(name.as_str());
                (VarDecl::Ident(renamed.clone()), name.clone(), renamed)
            }
            VarDecl::Array(inner, dim) => {
                let renamed_dim = self.rename_exp(dim);
                let (renamed_inner, original, renamed) = self.rename_decl_var(inner);
                (VarDecl::Array(Box::new(renamed_inner), renamed_dim), original, renamed)
            }
        }
    }
}

/// Renamings with consecutive numbers concatenate.
proof fn lemma_renamed_concat(a: Seq<Seq<char>>, oa: Seq<Seq<char>>, b: Seq<Seq<char>>, ob: Seq<Seq<char>>, start: nat)
    requires
        renamed_from(a, oa, start),
        renamed_from(b, ob, start + oa.len()),
    ensures
        renamed_from(a + b, oa + ob, start),
{
    assert forall|j: int| 0 <= j < (a + b).len() implies #[trigger] (a + b)[j] == local_text(start + j as nat, (oa + ob)[j]) by {
        if j >= a.len() {
            assert(b[j - a.len()] == local_text(start + oa.len() + (j - a.len()) as nat, ob[j - a.len()]));
        }
    }
}

proof fn lemma_stmts_decl_names_prefix(ss: Seq<SStmt>, i: int, n: int)
    requires
        0 <= i <= n <= ss.len(),
    ensures
        stmts_decl_names(ss, i).len() <= stmts_decl_names(ss, n).len(),
    decreases n - i,
{
    if i < n {
        lemma_stmts_decl_names_prefix(ss, i, n - 1);
    }
}

impl LocalRenamer {
    /// Renames the locals a statement declares and the variables it reads.
    #[verifier::spinoff_prover]
    #[verifier::rlimit(40)]
    pub fn rename_stmt(&mut self, stmt: &Stmt) -> (r: Stmt)
        requires
            old(self).next_id + stmt_decl_names(stmt@).len() < usize::MAX,
        ensures
            renamed_from(stmt_decl_names(r@), stmt_decl_names(stmt@), old(self).next_id as nat),
            final(self).next_id == old(self).next_id + stmt_decl_names(stmt@).len(),
            final(self).scopes@.len() == old(self).scopes@.len(),
            (r@, final(self).scopes_view(), final(self).next_id as nat) == spec_rename_stmt(stmt@, old(self).scopes_view(), old(self).next_id as nat),
        decreases stmt,
    {
        match stmt {
            Stmt::Spanned(inner, span) => Stmt::Spanned(Box::new(self.rename_stmt(inner)), *span),
            Stmt::Block(stmts) => {
                let ghost views = stmt@->Block_0;
                let ghost start = self.next_id as nat;
                proof {
                    lemma_block_view(stmt);
                }
                self.push_scope();
                let mut renamed: Vec<Stmt> = Vec::new();
                proof {
                    assert(crate::lalr::stmts_view(renamed@) =~= Seq::<SStmt>::empty());
                }
                let mut i: usize = 0;
                proof {
                    assert(renamed_from(stmts_decl_names(crate::lalr::stmts_view(renamed@), 0), stmts_decl_names(views, 0), start));
                }
                while i < stmts.len()
                    invariant
                        i <= stmts@.len(),
                        views.len() == stmts@.len(),
                        forall|j: int| 0 <= j < stmts@.len() ==> #[trigger] views[j] == stmts@[j]@,
                        renamed@.len() == i,
                        renamed_from(stmts_decl_names(crate::lalr::stmts_view(renamed@), i as int), stmts_decl_names(views, i as int), start),
                        self.next_id == start + stmts_decl_names(views, i as int).len(),
                        start + stmts_decl_names(views, views.len() as int).len() < usize::MAX,
                        self.scopes@.len() == old(self).scopes@.len() + 1,
                        spec_rename_stmts(views, i as int, old(self).scopes_view().push(Seq::empty()), start)
                            == (crate::lalr::stmts_view(renamed@), self.scopes_view(), self.next_id as nat),
                    decreases stmts.len() - i,
                {
                    proof {
                        lemma_stmts_decl_names_prefix(views, i + 1, views.len() as int);
                    }
                    let ghost before = crate::lalr::stmts_view(renamed@);
                    let one = self.rename_stmt(&stmts[i]);
                    renamed.push(one);
                    proof {
                        let after = crate::lalr::stmts_view(renamed@);
                        assert(after.len() == i + 1);
                        assert forall|j: int| 0 <= j < i implies after[j] == before[j] by {}
                        assert(stmts_decl_names(after, i as int) == stmts_decl_names(before, i as int)) by {
                            lemma_stmts_decl_names_same(after, before, i as int);
                        }
                        lemma_renamed_concat(
                            stmts_decl_names(before, i as int),
                            stmts_decl_names(views, i as int),
                            stmt_decl_names(after[i as int]),
                            stmt_decl_names(views[i as int]),
                            start,
                        );
                        assert(after =~= before.push(one@));
                    }
                    i = i + 1;
                }
                self.pop_scope();
                let r = Stmt::Block(renamed);
                proof {
                    lemma_block_view(&r);
                    assert(r@->Block_0 =~= crate::lalr::stmts_view(renamed@));
                }
                r
            }
            Stmt::Assign(lhs, rhs) => Stmt::Assign(self.rename_exp(lhs), self.rename_exp(rhs)),
            Stmt::Decl(ty, decls) => {
                let ghost views = stmt@->Decl_1;
                let ghost start = self.next_id as nat;
                let mut renamed: Vec<SingleDecl> = Vec::new();
                let mut i: usize = 0;
                proof {
                    assert(crate::lalr::decls_view(renamed@) =~= Seq::<SDecl>::empty());
                }
                while i < decls.len()
                    invariant
                        i <= decls@.len(),
                        views == crate::lalr::decls_view(decls@),
                        renamed@.len() == i,
                        forall|j: int| 0 <= j < i ==> spec_var_decl_name((#[trigger] renamed@[j]).var@)
                            == local_text(start + j as nat, spec_var_decl_name(decls@[j].var@)),
                        self.next_id == start + i,
                        start + decls@.len() < usize::MAX,
                        self.scopes@.len() == old(self).scopes@.len(),
                        spec_rename_decls(views, i as int, old(self).scopes_view(), start)
                            == (crate::lalr::decls_view(renamed@), self.scopes_view(), self.next_id as nat),
                    decreases decls.len() - i,
                {
                    let decl = &decls[i];
                    let init = match &decl.init {
                        Some(init) => Some(self.rename_init(init)),
                        None => None,
                    };
                    let ghost r0 = renamed@;
                    let (var, original, renamed_name) = self.rename_decl_var(&decl.var);
                    self.define(original, renamed_name);
                    renamed.push(SingleDecl { span: decl.span, var, init });
                    proof {
                        assert(views[i as int] == decl@);
                        assert(crate::lalr::decls_view(renamed@) =~= crate::lalr::decls_view(r0).push(renamed@[i as int]@));
                    }
                    i = i + 1;
                }
                let r = Stmt::Decl(ty.copy(), renamed);
                proof {
                    assert(stmt_decl_names(r@) == decls_names(crate::lalr::decls_view(renamed@)));
                    assert forall|j: int| 0 <= j < renamed@.len() implies
                        #[trigger] decls_names(crate::lalr::decls_view(renamed@))[j]
                            == local_text(start + j as nat, decls_names(views)[j]) by {
                        assert(crate::lalr::decls_view(renamed@)[j] == renamed@[j]@);
                        assert(views[j] == decls@[j]@);
                    }
                }
                r
            }
            Stmt::Exp(exp) => Stmt::Exp(self.rename_exp(exp)),
            Stmt::If(cond, then_stmt) => {
                let c = self.rename_exp(cond);
                let t = self.rename_stmt(then_stmt);
                Stmt::If(c, Box::new(t))
            }
            Stmt::IfElse(cond, then_stmt, else_stmt) => {
                let ghost start = self.next_id as nat;
                let c = self.rename_exp(cond);
                let t = self.rename_stmt(then_stmt);
                let e = self.rename_stmt(else_stmt);
                let r = Stmt::IfElse(c, Box::new(t), Box::new(e));
                proof {
                    lemma_renamed_concat(stmt_decl_names(t@), stmt_decl_names(then_stmt@), stmt_decl_names(e@), stmt_decl_names(else_stmt@), start);
                }
                r
            }
            Stmt::While(cond, body) => {
                let c = self.rename_exp(cond);
                let b = self.rename_stmt(body);
                Stmt::While(c, Box::new(b))
            }
            Stmt::PromiseWait(exp) => Stmt::PromiseWait(self.rename_exp(exp)),
            Stmt::Return(Some(exp)) => Stmt::Return(Some(self.rename_exp(exp))),
            Stmt::Return(None) => Stmt::Return(None),
            Stmt::Continue => Stmt::Continue,
            Stmt::Break => Stmt::Break,
            Stmt::Empty => Stmt::Empty,
        }
    }
}

/// Two statement lists that agree on their first `n` statements declare the
/// same names there.
proof fn lemma_stmts_decl_names_same(a: Seq<SStmt>, b: Seq<SStmt>, n: int)
    requires
        0 <= n <= a.len(),
        n <= b.len(),
        forall|j: int| 0 <= j < n ==> a[j] == b[j],
    ensures
        stmts_decl_names(a, n) == stmts_decl_names(b, n),
    decreases n,
{
    if n > 0 {
        lemma_stmts_decl_names_same(a, b, n - 1);
    }
}

/// Names made with different numbers differ, whatever the original names.
pub proof fn lemma_local_text_injective(id1: nat, n1: Seq<char>, id2: nat, n2: Seq<char>)
    requires
        local_text(id1, n1) == local_text(id2, n2),
    ensures
        id1 == id2,
{
    let p = "__sysy_local_"@;
    reveal_strlit("__sysy_local_");
    reveal_strlit("_");
    let t1 = nat_text(id1);
    let t2 = nat_text(id2);
    let s1 = local_text(id1, n1);
    let s2 = local_text(id2, n2);
    lemma_nat_text_digits(id1);
    lemma_nat_text_digits(id2);
    assert(p.len() == 13);
    if t1.len() < t2.len() {
        assert(s1[13 + t1.len() as int] == '_');
        assert(s2[13 + t1.len() as int] == t2[t1.len() as int]);
        assert(is_digit(t2[t1.len() as int]));
    } else if t2.len() < t1.len() {
        assert(s2[13 + t2.len() as int] == '_');
        assert(s1[13 + t2.len() as int] == t1[t2.len() as int]);
        assert(is_digit(t1[t2.len() as int]));
    } else {
        assert(s1.subrange(13, 13 + t1.len() as int) =~= t1);
        assert(s2.subrange(13, 13 + t2.len() as int) =~= t2);
        lemma_nat_text_injective(id1, id2);
    }
}

/// Renamed locals never clash: a renaming with consecutive numbers gives
/// pairwise different names, each with the local prefix.
pub proof fn lemma_renamed_names_distinct(out: Seq<Seq<char>>, orig: Seq<Seq<char>>, start: nat)
    requires
        renamed_from(out, orig, start),
    ensures
        forall|i: int, j: int| 0 <= i < j < out.len() ==> out[i] != out[j],
        forall|i: int| 0 <= i < out.len() ==> (#[trigger] out[i]).take(13) == "__sysy_local_"@,
{
    assert forall|i: int, j: int| 0 <= i < j < out.len() implies out[i] != out[j] by {
        if out[i] == out[j] {
            assert(out[i] == local_text(start + i as nat, orig[i]));
            assert(out[j] == local_text(start + j as nat, orig[j]));
            lemma_local_text_injective(start + i as nat, orig[i], start + j as nat, orig[j]);
        }
    }
    assert forall|i: int| 0 <= i < out.len() implies (#[trigger] out[i]).take(13) == "__sysy_local_"@ by {
        reveal_strlit("__sysy_local_");
        assert(out[i] == local_text(start + i as nat, orig[i]));
        assert(out[i].take(13) =~= "__sysy_local_"@);
    }
}

/// The names a function body declares.
pub open spec fn body_decl_names(f: FuncDef) -> Seq<Seq<char>> {
    stmts_decl_names(crate::lalr::stmts_view(f.block@), f.block@.len() as int)
}

impl LocalRenamer {
    /// The function with its locals renamed apart; parameters keep their names.
    pub fn rename_func(self, func: &FuncDef) -> (r: FuncDef)
        requires
            self.next_id + body_decl_names(*func).len() < usize::MAX,
        ensures
            renamed_from(body_decl_names(r), body_decl_names(*func), self.next_id as nat),
            r.span == func.span,
            r.is_async == func.is_async,
            r.func_type@ == func.func_type@,
            r.ident@ == func.ident@,
            r.func_params@.len() == func.func_params@.len(),
            forall|i: int| 0 <= i < r.func_params@.len() ==> (#[trigger] r.func_params@[i])@ == func.func_params@[i]@,
            crate::lalr::stmts_view(r.block@) == spec_rename_stmts(crate::lalr::stmts_view(func.block@), func.block@.len() as int,
                self.scopes_view().push(param_scope(func.func_params@)), self.next_id as nat).0,
    {
        let mut renamer = self;
        let ghost start = renamer.next_id as nat;
        let ghost views = crate::lalr::stmts_view(func.block@);
        let ghost sv0 = renamer.scopes_view();
        renamer.push_scope();
        proof {
            assert(param_scope(func.func_params@.subrange(0, 0)) =~= Seq::<(Seq<char>, Seq<char>)>::empty());
        }
        let mut p: usize = 0;
        while p < func.func_params.len()
            invariant
                p <= func.func_params@.len(),
                renamer.next_id == start,
                renamer.scopes@.len() > 0,
                renamer.scopes_view() == sv0.push(param_scope(func.func_params@.subrange(0, p as int))),
            decreases func.func_params.len() - p,
        {
            let name = func.func_params[p].name.clone();
            let same = func.func_params[p].name.clone();
            renamer.define(name, same);
            proof {
                assert(param_scope(func.func_params@.subrange(0, p + 1))
                    =~= param_scope(func.func_params@.subrange(0, p as int)).push((func.func_params@[p as int].name@, func.func_params@[p as int].name@)));
                assert(renamer.scopes_view() =~= sv0.push(param_scope(func.func_params@.subrange(0, p + 1))));
            }
            p = p + 1;
        }
        proof {
            assert(func.func_params@.subrange(0, func.func_params@.len() as int) =~= func.func_params@);
        }
        let ghost sc1 = renamer.scopes_view();
        let mut block: Vec<Stmt> = Vec::new();
        proof {
            assert(crate::lalr::stmts_view(block@) =~= Seq::<SStmt>::empty());
        }
        let mut i: usize = 0;
        while i < func.block.len()
            invariant
                i <= func.block@.len(),
                views == crate::lalr::stmts_view(func.block@),
                block@.len() == i,
                renamed_from(stmts_decl_names(crate::lalr::stmts_view(block@), i as int), stmts_decl_names(views, i as int), start),
                renamer.next_id == start + stmts_decl_names(views, i as int).len(),
                start + stmts_decl_names(views, views.len() as int).len() < usize::MAX,
                renamer.scopes@.len() > 0,
                spec_rename_stmts(views, i as int, sc1, start) == (crate::lalr::stmts_view(block@), renamer.scopes_view(), renamer.next_id as nat),
            decreases func.block.len() - i,
        {
            proof {
                lemma_stmts_decl_names_prefix(views, i + 1, views.len() as int);
            }
            let ghost before = crate::lalr::stmts_view(block@);
            let one = renamer.rename_stmt(&func.block[i]);
            block.push(one);
            proof {
                let after = crate::lalr::stmts_view(block@);
                assert forall|j: int| 0 <= j < i implies after[j] == before[j] by {}
                lemma_stmts_decl_names_same(after, before, i as int);
                lemma_renamed_concat(
                    stmts_decl_names(before, i as int),
                    stmts_decl_names(views, i as int),
                    stmt_decl_names(after[i as int]),
                    stmt_decl_names(views[i as int]),
                    start,
                );
                assert(after =~= before.push(one@));
            }
            i = i + 1;
        }
        renamer.pop_scope();
        let mut params: Vec<FuncParam> = Vec::new();
        let mut q: usize = 0;
        while q < func.func_params.len()
            invariant
                q <= func.func_params@.len(),
                params@.len() == q,
                forall|j: int| 0 <= j < q ==> (#[trigger] params@[j])@ == func.func_params@[j]@,
            decreases func.func_params.len() - q,
        {
            params.push(func.func_params[q].copy());
            q = q + 1;
        }
        FuncDef {
            span: func.span,
            is_async: func.is_async,
            func_type: func.func_type.copy(),
            ident: func.ident.clone(),
            func_params: params,
            block,
        }
    }
}

/// Renames the locals of `func` apart, numbering them from zero.
pub fn rename_async_locals(func: &FuncDef) -> (r: FuncDef)
    requires
        body_decl_names(*func).len() < usize::MAX,
    ensures
        renamed_from(body_decl_names(r), body_decl_names(*func), 0),
        r.ident@ == func.ident@,
        r.is_async == func.is_async,
        crate::lalr::stmts_view(r.block@) == spec_rename_stmts(crate::lalr::stmts_view(func.block@), func.block@.len() as int,
            seq![param_scope(func.func_params@)], 0).0,
{
    let renamer = LocalRenamer::new();
    proof {
        assert(renamer.scopes_view().push(param_scope(func.func_params@)) =~= seq![param_scope(func.func_params@)]);
    }
    renamer.rename_func(func)
}

// ---------------------------------------------------------------------------
// The frame of an async function: the values that must outlive a suspension.

#[derive(Debug)]
pub struct FrameField {
    pub frame_type: String,
    pub index: usize,
    pub ty: LlvmType,
}

#[derive(Debug)]
pub struct AsyncFrameLayout {
    pub frame_name: String,
    pub fields: Table<FrameField>,
    pub ordered_fields: Vec<(String, LlvmType)>,
    pub size: usize,
}

/// The names of the fields, in field order.
pub open spec fn frame_names(ordered: Seq<(String, LlvmType)>) -> Seq<Seq<char>> {
    Seq::new(ordered.len(), |i: int| ordered[i].0@)
}

/// The lookup table and the ordered list describe the same fields, each name
/// once, each field knowing its position.
pub open spec fn frame_wf(fields: Seq<(String, FrameField)>, ordered: Seq<(String, LlvmType)>) -> bool {
    &&& fields.len() == ordered.len()
    &&& forall|i: int| 0 <= i < fields.len() ==> {
        &&& (#[trigger] fields[i]).0@ == ordered[i].0@
        &&& fields[i].1.index == i
        &&& fields[i].1.ty@ == ordered[i].1@
    }
    &&& forall|i: int, j: int| 0 <= i < j < ordered.len() ==> (#[trigger] ordered[i]).0@ != (#[trigger] ordered[j]).0@
}

pub open spec fn size_overflow_text() -> Seq<char> {
    "Type size overflows"@
}

/// The offset and largest alignment after adding field `name` of type `ty`
/// to a frame whose fields so far are named by `names`; `None` where the
/// type has no size or alignment, or the offset overflows.
pub open spec fn frame_add(off: nat, ma: nat, names: Set<Seq<char>>, name: Seq<char>, ty: SLlvm, l: Seq<(String, StructLayout)>) -> Option<(nat, nat)> {
    if names.contains(name) {
        Some((off, ma))
    } else {
        match spec_try_align(ty, l) {
            Err(_) => None,
            Ok(a) => if a != 0 && off + a > usize::MAX {
                None
            } else {
                match spec_try_size(ty, l) {
                    Err(_) => None,
                    Ok(z) => if spec_align_up(off, a) + z > usize::MAX {
                        None
                    } else {
                        Some((spec_align_up(off, a) + z, if ma < a { a } else { ma }))
                    },
                }
            },
        }
    }
}

/// Names and types of fields as plain values.
pub open spec fn typed_fields(v: Seq<(String, LlvmType)>) -> Seq<(Seq<char>, SLlvm)> {
    Seq::new(v.len(), |i: int| (v[i].0@, v[i].1@))
}

/// Appends a field named `name` of type `ty`, aligned, unless the frame
/// already has a field of that name.
fn add_frame_field(
    fields: &mut Table<FrameField>,
    ordered_fields: &mut Vec<(String, LlvmType)>,
    offset: &mut usize,
    max_align: &mut usize,
    structs: &Table<StructLayout>,
    frame_type: &str,
    name: String,
    ty: LlvmType,
) -> (r: Result<(), String>)
    requires
        frame_wf(old(fields).entries@, old(ordered_fields)@),
    ensures
        frame_wf(final(fields).entries@, final(ordered_fields)@),
        r is Ok ==> forall|x: Seq<char>| #[trigger] frame_names(final(ordered_fields)@).contains(x)
            <==> (frame_names(old(ordered_fields)@).contains(x) || x == name@),
        match frame_add(*old(offset) as nat, *old(max_align) as nat, frame_names(old(ordered_fields)@).to_set(), name@, ty@, structs.entries@) {
            Some(p) => r is Ok && *final(offset) == p.0 && *final(max_align) == p.1,
            None => r is Err,
        },
        r is Ok && !frame_names(old(ordered_fields)@).contains(name@) ==> final(ordered_fields)@ == old(ordered_fields)@.push((name, ty)),
        match fst_add((*old(offset) as nat, *old(max_align) as nat, typed_fields(old(ordered_fields)@)), name@, ty@, structs.entries@) {
            Some(q) => r is Ok && *final(offset) == q.0 && *final(max_align) == q.1 && typed_fields(final(ordered_fields)@) == q.2,
            None => r is Err,
        },
        frame_names(old(ordered_fields)@).contains(name@) ==> {
            &&& r is Ok
            &&& final(ordered_fields)@ == old(ordered_fields)@
            &&& *final(offset) == *old(offset)
            &&& *final(max_align) == *old(max_align)
        },
{
    let ghost names0 = frame_names(ordered_fields@);
    let ghost ord0 = ordered_fields@;
    proof {
        assert(list_names(typed_fields(ordered_fields@)) =~= frame_names(ordered_fields@));
    }
    if fields.contains_key(name.as_str()) {
        proof {
            assert(fields.get_spec(name@) is Some);
            crate::table::lemma_assoc_some(fields.entries@, name@);
            let k = choose|k: int| 0 <= k < fields.entries@.len() && fields.entries@[k].0@ == name@;
            assert(names0[k] == name@);
        }
        return Ok(());
    }
    proof {
        crate::table::lemma_assoc_some(fields.entries@, name@);
        if names0.contains(name@) {
            let k = choose|k: int| 0 <= k < names0.len() && names0[k] == name@;
            assert(fields.entries@[k].0@ == name@);
        }
    }
    let field_align = match ty.try_align(structs) {
        Ok(a) => a,
        Err(e) => {
            return Err(e);
        }
    };
    if *max_align < field_align {
        *max_align = field_align;
    }
    if field_align != 0 && *offset > usize::MAX - field_align {
        return Err(String::from_str("Type size overflows"));
    }
    *offset = align_up(*offset, field_align);
    let index = ordered_fields.len();
    let ghost f0 = fields.entries@;
    let ghost o0 = ordered_fields@;
    fields.insert(name.clone(), FrameField { frame_type: String::from_str(frame_type), index, ty: ty.copy() });
    let ghost nv = name@;
    ordered_fields.push((name, ty.copy()));
    proof {
        assert(ordered_fields@[index as int].0@ == nv);
        assert forall|i: int, j: int| 0 <= i < j < ordered_fields@.len() implies
            (#[trigger] ordered_fields@[i]).0@ != (#[trigger] ordered_fields@[j]).0@ by {
            if j == index {
                assert(o0[i].0@ == names0[i]);
            } else {
                assert(ordered_fields@[i] == o0[i]);
                assert(ordered_fields@[j] == o0[j]);
            }
        }
        assert forall|i: int| 0 <= i < fields.entries@.len() implies {
            &&& (#[trigger] fields.entries@[i]).0@ == ordered_fields@[i].0@
            &&& fields.entries@[i].1.index == i
            &&& fields.entries@[i].1.ty@ == ordered_fields@[i].1@
        } by {
            if i < index {
                assert(fields.entries@[i] == f0[i]);
                assert(ordered_fields@[i] == o0[i]);
            }
        }
        assert forall|x: Seq<char>| #[trigger] frame_names(ordered_fields@).contains(x) <==> (names0.contains(x) || x == nv) by {
            let nn = frame_names(ordered_fields@);
            if nn.contains(x) {
                let k = choose|k: int| 0 <= k < nn.len() && nn[k] == x;
                if k < index {
                    assert(names0[k] == x);
                }
            }
            if names0.contains(x) {
                let k = choose|k: int| 0 <= k < names0.len() && names0[k] == x;
                assert(nn[k] == x);
            }
            if x == nv {
                assert(nn[index as int] == x);
            }
        }
    }
    let size = match ty.try_size(structs) {
        Ok(v) => v,
        Err(e) => {
            return Err(e);
        }
    };
    if *offset > usize::MAX - size {
        return Err(String::from_str("Type size overflows"));
    }
    *offset = *offset + size;
    proof {
        assert(typed_fields(ordered_fields@) =~= typed_fields(ord0).push((name@, ty@)));
    }
    Ok(())
}

/// The constants after a declaration: a `const int` scalar whose
/// initializer folds to a value is bound to it.
pub open spec fn const_step(c: Seq<(String, i32)>, ty: Type, d: SingleDecl) -> Seq<(String, i32)> {
    if (ty matches Type::Const(BType::I32)) && d.var is Ident && d.init is Some {
        match crate::syntax::spec_init_exp(d.init->Some_0@) {
            Some(e) => match crate::lalr::const_eval(e, c) {
                Some(Some(v)) => c.push((d.var->Ident_0, v)),
                _ => c,
            },
            None => c,
        }
    } else {
        c
    }
}

/// Records the value of a `const int` scalar whose initializer folds to a
/// constant; other declarations leave `constants` alone.
pub(crate) fn record_const_decl(constants: &mut Table<i32>, ty: &Type, decl: &SingleDecl)
    ensures
        final(constants).entries@ == const_step(old(constants).entries@, *ty, *decl),
{
    let is_const_int = match ty {
        Type::Const(BType::I32) => true,
        _ => false,
    };
    if !is_const_int {
        return;
    }
    match (&decl.var, &decl.init) {
        (VarDecl::Ident(name), Some(init)) => match init_exp(init) {
            Some(exp) => match eval_const_checked(exp, constants) {
                Some(Some(value)) => constants.insert(name.clone(), value),
                _ => {}
            },
            None => {}
        },
        _ => {}
    }
}

/// A copy of a constant table.
pub(crate) fn copy_constants(c: &Table<i32>) -> (r: Table<i32>)
    ensures
        r.entries@ == c.entries@,
{
    let empty: Table<i32> = Table::new();
    let r = Table::layered(&empty, c);
    proof {
        assert(empty.entries@ + c.entries@ =~= c.entries@);
    }
    r
}

proof fn lemma_concat_contains(a: Seq<Seq<char>>, b: Seq<Seq<char>>, x: Seq<char>)
    ensures
        (a + b).contains(x) <==> (a.contains(x) || b.contains(x)),
{
    if (a + b).contains(x) {
        let k = choose|k: int| 0 <= k < (a + b).len() && (a + b)[k] == x;
        if k < a.len() {
            assert(a[k] == x);
        } else {
            assert(b[k - a.len()] == x);
        }
    }
    if a.contains(x) {
        let k = choose|k: int| 0 <= k < a.len() && a[k] == x;
        assert((a + b)[k] == x);
    }
    if b.contains(x) {
        let k = choose|k: int| 0 <= k < b.len() && b[k] == x;
        assert((a + b)[a.len() + k] == x);
    }
}

/// The frame gained exactly the names of `declared` that are frame locals.
pub open spec fn gained(before: Seq<Seq<char>>, after: Seq<Seq<char>>, declared: Seq<Seq<char>>, locals: Set<Seq<char>>) -> bool {
    forall|x: Seq<char>| #[trigger] after.contains(x) <==> (before.contains(x) || (declared.contains(x) && locals.contains(x)))
}

/// The names of a list of fields, in order.
pub open spec fn list_names(list: Seq<(Seq<char>, SLlvm)>) -> Seq<Seq<char>> {
    Seq::new(list.len(), |i: int| list[i].0)
}

/// A frame under construction: the next offset, the largest alignment so far
/// and the fields in order.
pub open spec fn fst_add(st: (nat, nat, Seq<(Seq<char>, SLlvm)>), name: Seq<char>, ty: SLlvm, l: Seq<(String, StructLayout)>) -> Option<(nat, nat, Seq<(Seq<char>, SLlvm)>)> {
    match frame_add(st.0, st.1, list_names(st.2).to_set(), name, ty, l) {
        None => None,
        Some(p) => Some((p.0, p.1, if list_names(st.2).contains(name) { st.2 } else { st.2.push((name, ty)) })),
    }
}

/// The frame after adding the first `k` fields of `list`, in order.
pub open spec fn fst_fold(list: Seq<(Seq<char>, SLlvm)>, k: int, st: (nat, nat, Seq<(Seq<char>, SLlvm)>), l: Seq<(String, StructLayout)>) -> Option<(nat, nat, Seq<(Seq<char>, SLlvm)>)>
    decreases k,
{
    if k <= 0 || k > list.len() {
        Some(st)
    } else {
        match fst_fold(list, k - 1, st, l) {
            None => None,
            Some(s1) => fst_add(s1, list[k - 1].0, list[k - 1].1, l),
        }
    }
}

/// The frame after the declarations `ds[..n]` of type `ty`: each declared
/// type is resolved with the constants in force, a frame local gets a field,
/// and a folded `const int` is bound for later declarations.
pub open spec fn collect_decls_spec(
    ty: Type,
    ds: Seq<SingleDecl>,
    n: int,
    env: Seq<(String, i32)>,
    st: (nat, nat, Seq<(Seq<char>, SLlvm)>),
    mc: Seq<(String, i32)>,
    l: Seq<(String, StructLayout)>,
    locals: Set<Seq<char>>,
) -> Option<((nat, nat, Seq<(Seq<char>, SLlvm)>), Seq<(String, i32)>)>
    decreases n,
{
    if n <= 0 || n > ds.len() {
        Some((st, env))
    } else {
        match collect_decls_spec(ty, ds, n - 1, env, st, mc, l, locals) {
            None => None,
            Some(q) => match crate::llvm::module::spec_decl_type(ty@, ds[n - 1].var@, mc + q.1) {
                Err(_) => None,
                Ok(t) => if locals.contains(spec_var_decl_name(ds[n - 1].var@)) {
                    match fst_add(q.0, spec_var_decl_name(ds[n - 1].var@), t, l) {
                        None => None,
                        Some(s2) => Some((s2, const_step(q.1, ty, ds[n - 1]))),
                    }
                } else {
                    Some((q.0, const_step(q.1, ty, ds[n - 1])))
                },
            },
        }
    }
}

/// The frame after collecting the frame locals declared in `s`, and the
/// constants in force after it.
pub open spec fn collect_stmt_spec(
    s: Stmt,
    env: Seq<(String, i32)>,
    st: (nat, nat, Seq<(Seq<char>, SLlvm)>),
    mc: Seq<(String, i32)>,
    l: Seq<(String, StructLayout)>,
    locals: Set<Seq<char>>,
) -> Option<((nat, nat, Seq<(Seq<char>, SLlvm)>), Seq<(String, i32)>)>
    decreases s, 1nat,
{
    match s {
        Stmt::Spanned(inner, _) => collect_stmt_spec(*inner, env, st, mc, l, locals),
        Stmt::Decl(ty, ds) => collect_decls_spec(ty, ds@, ds@.len() as int, env, st, mc, l, locals),
        Stmt::Block(ss) => match collect_stmts_spec(ss@, ss@.len() as int, env, st, mc, l, locals) {
            None => None,
            Some(q) => Some((q.0, env)),
        },
        Stmt::If(_, t) => match collect_stmt_spec(*t, env, st, mc, l, locals) {
            None => None,
            Some(q) => Some((q.0, env)),
        },
        Stmt::IfElse(_, t, e) => match collect_stmt_spec(*t, env, st, mc, l, locals) {
            None => None,
            Some(q) => match collect_stmt_spec(*e, env, q.0, mc, l, locals) {
                None => None,
                Some(q2) => Some((q2.0, env)),
            },
        },
        Stmt::While(_, b) => match collect_stmt_spec(*b, env, st, mc, l, locals) {
            None => None,
            Some(q) => Some((q.0, env)),
        },
        _ => Some((st, env)),
    }
}

pub open spec fn collect_stmts_spec(
    ss: Seq<Stmt>,
    n: int,
    env: Seq<(String, i32)>,
    st: (nat, nat, Seq<(Seq<char>, SLlvm)>),
    mc: Seq<(String, i32)>,
    l: Seq<(String, StructLayout)>,
    locals: Set<Seq<char>>,
) -> Option<((nat, nat, Seq<(Seq<char>, SLlvm)>), Seq<(String, i32)>)>
    decreases ss, n,
{
    if 0 < n <= ss.len() {
        match collect_stmts_spec(ss, n - 1, env, st, mc, l, locals) {
            None => None,
            Some(q) => collect_stmt_spec(ss[n - 1], q.1, q.0, mc, l, locals),
        }
    } else {
        Some((st, env))
    }
}

proof fn lemma_collect_decls_none(
    ty: Type,
    ds: Seq<SingleDecl>,
    k: int,
    n: int,
    env: Seq<(String, i32)>,
    st: (nat, nat, Seq<(Seq<char>, SLlvm)>),
    mc: Seq<(String, i32)>,
    l: Seq<(String, StructLayout)>,
    locals: Set<Seq<char>>,
)
    requires
        0 < k <= n <= ds.len(),
        collect_decls_spec(ty, ds, k, env, st, mc, l, locals) is None,
    ensures
        collect_decls_spec(ty, ds, n, env, st, mc, l, locals) is None,
    decreases n - k,
{
    if k < n {
        lemma_collect_decls_none(ty, ds, k, n - 1, env, st, mc, l, locals);
    }
}

proof fn lemma_collect_stmts_none(
    ss: Seq<Stmt>,
    k: int,
    n: int,
    env: Seq<(String, i32)>,
    st: (nat, nat, Seq<(Seq<char>, SLlvm)>),
    mc: Seq<(String, i32)>,
    l: Seq<(String, StructLayout)>,
    locals: Set<Seq<char>>,
)
    requires
        0 < k <= n <= ss.len(),
        collect_stmts_spec(ss, k, env, st, mc, l, locals) is None,
    ensures
        collect_stmts_spec(ss, n, env, st, mc, l, locals) is None,
    decreases n - k,
{
    if k < n {
        lemma_collect_stmts_none(ss, k, n - 1, env, st, mc, l, locals);
    }
}

/// Adds a frame field for every local declared in `stmt` that must live in
/// the frame; constants declared on the way are folded for later dimensions.
#[verifier::spinoff_prover]
#[verifier::rlimit(40)]
fn collect_stmt_fields(
    module: &ModuleCtx,
    frame_type: &str,
    stmt: &Stmt,
    frame_locals: &NameSet,
    fields: &mut Table<FrameField>,
    ordered_fields: &mut Vec<(String, LlvmType)>,
    offset: &mut usize,
    max_align: &mut usize,
    constants: &mut Table<i32>,
) -> (r: Result<(), String>)
    requires
        frame_wf(old(fields).entries@, old(ordered_fields)@),
    ensures
        frame_wf(final(fields).entries@, final(ordered_fields)@),
        r is Ok ==> gained(frame_names(old(ordered_fields)@), frame_names(final(ordered_fields)@),
            stmt_decl_names(stmt@), frame_locals.view_set()),
        match collect_stmt_spec(*stmt, old(constants).entries@,
            (*old(offset) as nat, *old(max_align) as nat, typed_fields(old(ordered_fields)@)),
            module.constants.entries@, module.layouts.entries@, frame_locals.view_set()) {
            Some(q) => {
                &&& r is Ok
                &&& *final(offset) == q.0.0
                &&& *final(max_align) == q.0.1
                &&& typed_fields(final(ordered_fields)@) == q.0.2
                &&& final(constants).entries@ == q.1
            },
            None => r is Err,
        },
    decreases stmt,
{
    let ghost n0 = frame_names(ordered_fields@);
    let ghost f0 = fields.entries@;
    let ghost o0 = ordered_fields@;
    let ghost off0 = *offset;
    let ghost ma0 = *max_align;
    let ghost c0 = constants.entries@;
    let ghost st0 = (*offset as nat, *max_align as nat, typed_fields(ordered_fields@));
    let ghost mc = module.constants.entries@;
    let ghost lay = module.layouts.entries@;
    let ghost locals = frame_locals.view_set();
    match stmt {
        Stmt::Spanned(inner, _) => collect_stmt_fields(module, frame_type, inner, frame_locals, fields, ordered_fields, offset, max_align, constants),
        Stmt::Decl(ty, decls) => {
            let ghost views = stmt@->Decl_1;
            let mut i: usize = 0;
            proof {
                assert(decls_names(views).take(0) =~= Seq::<Seq<char>>::empty());
            }
            while i < decls.len()
                invariant
                    i <= decls@.len(),
                    views == crate::lalr::decls_view(decls@),
                    frame_wf(fields.entries@, ordered_fields@),
                    gained(n0, frame_names(ordered_fields@), decls_names(views).take(i as int), frame_locals.view_set()),
                    st0 == (off0 as nat, ma0 as nat, typed_fields(o0)),
                    mc == module.constants.entries@,
                    lay == module.layouts.entries@,
                    locals == frame_locals.view_set(),
                    *stmt == Stmt::Decl(*ty, *decls),
                    collect_decls_spec(*ty, decls@, i as int, c0, st0, mc, lay, locals)
                        == Some(((*offset as nat, *max_align as nat, typed_fields(ordered_fields@)), constants.entries@)),
                decreases decls.len() - i,
            {
                let decl = &decls[i];
                let name = var_decl_name(&decl.var);
                proof {
                    assert(decls_names(views)[i as int] == name@);
                }
                let ghost before = frame_names(ordered_fields@);
                proof {
                    assert(decls_names(views).take(i + 1) =~= decls_names(views).take(i as int).push(name@));
                    lemma_concat_contains(decls_names(views).take(i as int), seq![name@], name@);
                }
                let value_ty = match decl_type_with_constants(ty, &decl.var, module, constants) {
                    Ok(t) => t,
                    Err(e) => {
                        proof {
                            lemma_collect_decls_none(*ty, decls@, i as int + 1, decls@.len() as int, c0, st0, mc, lay, locals);
                        }
                        return Err(e);
                    }
                };
                if !frame_locals.contains(name.as_str()) {
                    record_const_decl(constants, ty, decl);
                    proof {
                        assert(frame_names(ordered_fields@) == before);
                        assert(!frame_locals.view_set().contains(name@));
                        assert forall|x: Seq<char>| #[trigger] frame_names(ordered_fields@).contains(x) <==>
                            (n0.contains(x) || (decls_names(views).take(i + 1).contains(x) && frame_locals.view_set().contains(x))) by {
                            lemma_concat_contains(decls_names(views).take(i as int), seq![name@], x);
                            assert(decls_names(views).take(i + 1) =~= decls_names(views).take(i as int) + seq![name@]);
                            assert(before.contains(x) <==> (n0.contains(x)
                                || (decls_names(views).take(i as int).contains(x) && frame_locals.view_set().contains(x))));
                            if seq![name@].contains(x) {
                                assert(x == name@);
                            }
                        }
                    }
                    i = i + 1;
                    continue;
                }
                let ghost nv = name@;
                match add_frame_field(fields, ordered_fields, offset, max_align, &module.layouts, frame_type, name, value_ty) {
                    Ok(()) => {}
                    Err(e) => {
                        proof {
                            lemma_collect_decls_none(*ty, decls@, i as int + 1, decls@.len() as int, c0, st0, mc, lay, locals);
                        }
                        return Err(e);
                    }
                }
                record_const_decl(constants, ty, decl);
                proof {
                    assert forall|x: Seq<char>| #[trigger] frame_names(ordered_fields@).contains(x) <==>
                        (n0.contains(x) || (decls_names(views).take(i + 1).contains(x) && frame_locals.view_set().contains(x))) by {
                        lemma_concat_contains(decls_names(views).take(i as int), seq![nv], x);
                        assert(decls_names(views).take(i + 1) =~= decls_names(views).take(i as int) + seq![nv]);
                        assert(frame_names(ordered_fields@).contains(x) <==> (before.contains(x) || x == nv));
                        if x == nv {
                            assert(seq![nv].contains(x)) by {
                                assert(seq![nv][0] == x);
                            }
                        }
                        if seq![nv].contains(x) {
                            assert(x == nv);
                        }
                    }
                }
                i = i + 1;
            }
            proof {
                assert(decls_names(views).take(decls@.len() as int) =~= decls_names(views));
            }
            Ok(())
        }
        Stmt::Block(stmts) => {
            let mut scoped = copy_constants(constants);
            let ghost views = stmt@->Block_0;
            proof {
                lemma_block_view(stmt);
            }
            let mut i: usize = 0;
            while i < stmts.len()
                invariant
                    i <= stmts@.len(),
                    views.len() == stmts@.len(),
                    forall|j: int| 0 <= j < stmts@.len() ==> #[trigger] views[j] == stmts@[j]@,
                    frame_wf(fields.entries@, ordered_fields@),
                    gained(n0, frame_names(ordered_fields@), stmts_decl_names(views, i as int), frame_locals.view_set()),
                    constants.entries@ == c0,
                    st0 == (off0 as nat, ma0 as nat, typed_fields(o0)),
                    mc == module.constants.entries@,
                    lay == module.layouts.entries@,
                    locals == frame_locals.view_set(),
                    *stmt == Stmt::Block(*stmts),
                    collect_stmts_spec(stmts@, i as int, c0, st0, mc, lay, locals)
                        == Some(((*offset as nat, *max_align as nat, typed_fields(ordered_fields@)), scoped.entries@)),
                decreases stmts.len() - i,
            {
                let ghost before = frame_names(ordered_fields@);
                proof {
                    assert(views[i as int] == stmts@[i as int]@);
                }
                match collect_stmt_fields(module, frame_type, &stmts[i], frame_locals, fields, ordered_fields, offset, max_align, &mut scoped) {
                    Ok(()) => {}
                    Err(e) => {
                        proof {
                            lemma_collect_stmts_none(stmts@, i as int + 1, stmts@.len() as int, c0, st0, mc, lay, locals);
                        }
                        return Err(e);
                    }
                }
                proof {
                    assert forall|x: Seq<char>| #[trigger] frame_names(ordered_fields@).contains(x) <==>
                        (n0.contains(x) || (stmts_decl_names(views, i + 1).contains(x) && frame_locals.view_set().contains(x))) by {
                        lemma_concat_contains(stmts_decl_names(views, i as int), stmt_decl_names(views[i as int]), x);
                        assert(frame_names(ordered_fields@).contains(x) <==> (before.contains(x)
                            || (stmt_decl_names(stmts@[i as int]@).contains(x) && frame_locals.view_set().contains(x))));
                    }
                }
                i = i + 1;
            }
            Ok(())
        }
        Stmt::If(_, then_stmt) => {
            let mut scoped = copy_constants(constants);
            collect_stmt_fields(module, frame_type, then_stmt, frame_locals, fields, ordered_fields, offset, max_align, &mut scoped)
        }
        Stmt::IfElse(_, then_stmt, else_stmt) => {
            let mut then_constants = copy_constants(constants);
            match collect_stmt_fields(module, frame_type, then_stmt, frame_locals, fields, ordered_fields, offset, max_align, &mut then_constants) {
                Ok(()) => {}
                Err(e) => {
                    return Err(e);
                }
            }
            let ghost mid = frame_names(ordered_fields@);
            let mut else_constants = copy_constants(constants);
            match collect_stmt_fields(module, frame_type, else_stmt, frame_locals, fields, ordered_fields, offset, max_align, &mut else_constants) {
                Ok(()) => {}
                Err(e) => {
                    return Err(e);
                }
            }
            proof {
                assert forall|x: Seq<char>| #[trigger] frame_names(ordered_fields@).contains(x) <==>
                    (n0.contains(x) || (stmt_decl_names(stmt@).contains(x) && frame_locals.view_set().contains(x))) by {
                    lemma_concat_contains(stmt_decl_names(then_stmt@), stmt_decl_names(else_stmt@), x);
                    assert(mid.contains(x) <==> (n0.contains(x) || (stmt_decl_names(then_stmt@).contains(x) && frame_locals.view_set().contains(x))));
                }
            }
            Ok(())
        }
        Stmt::While(_, body) => {
            let mut scoped = copy_constants(constants);
            collect_stmt_fields(module, frame_type, body, frame_locals, fields, ordered_fields, offset, max_align, &mut scoped)
        }
        _ => {
            proof {
                assert(stmt_decl_names(stmt@) =~= Seq::<Seq<char>>::empty());
            }
            Ok(())
        }
    }
}

/// The fields every frame of an async function has, with the names the
/// caller adds: the promise, the parameters, the frame locals declared in the
/// body, the extra fields, one slot per await and the return value.
pub open spec fn frame_field_wanted(
    x: Seq<char>,
    params: Seq<(String, LlvmType)>,
    body: Seq<SStmt>,
    locals: Set<Seq<char>>,
    extra: Seq<(String, LlvmType)>,
    await_count: nat,
) -> bool {
    ||| x == "__promise"@
    ||| (exists|i: int| 0 <= i < params.len() && #[trigger] params[i].0@ == x)
    ||| (stmts_decl_names(body, body.len() as int).contains(x) && locals.contains(x))
    ||| (exists|i: int| 0 <= i < extra.len() && #[trigger] extra[i].0@ == x)
    ||| (exists|k: nat| k < await_count && x == #[trigger] await_field_name(k))
    ||| x == "__return"@
}

/// The frame slot holding the promise of the await numbered `k`.
pub open spec fn await_field_name(k: nat) -> Seq<char> {
    "__await"@ + nat_text(k)
}

/// The fields every async frame starts with: the promise, then the parameters.
pub open spec fn pre_frame_fields(params: Seq<(String, LlvmType)>) -> Seq<(Seq<char>, SLlvm)> {
    seq![("__promise"@, SLlvm::Promise(Box::new(SLlvm::Void)))] + typed_fields(params)
}

/// The fields every async frame ends with: the extra fields, one slot per
/// await and the return value.
pub open spec fn post_frame_fields(extra: Seq<(String, LlvmType)>, await_count: nat) -> Seq<(Seq<char>, SLlvm)> {
    typed_fields(extra)
        + Seq::new(await_count, |k: int| (await_field_name(k as nat), SLlvm::Promise(Box::new(SLlvm::I32))))
        + seq![("__return"@, SLlvm::I32)]
}

/// The size and the fields of the frame of an async function: the leading
/// fields, the frame locals of the body with their resolved types, the
/// trailing fields, the size rounded up to the largest alignment; `None`
/// where a type does not resolve or a size overflows.
pub open spec fn frame_result(
    params: Seq<(String, LlvmType)>,
    body: Seq<Stmt>,
    extra: Seq<(String, LlvmType)>,
    await_count: nat,
    mc: Seq<(String, i32)>,
    l: Seq<(String, StructLayout)>,
    locals: Set<Seq<char>>,
) -> Option<(nat, Seq<(Seq<char>, SLlvm)>)> {
    let pre = pre_frame_fields(params);
    let post = post_frame_fields(extra, await_count);
    match fst_fold(pre, pre.len() as int, (0, 1, Seq::empty()), l) {
        None => None,
        Some(s1) => match collect_stmts_spec(body, body.len() as int, mc, s1, mc, l, locals) {
            None => None,
            Some(q) => match fst_fold(post, post.len() as int, q.0, l) {
                None => None,
                Some(s3) => if s3.1 != 0 && s3.0 + s3.1 > usize::MAX {
                    None
                } else {
                    Some((spec_align_up(s3.0, s3.1), s3.2))
                },
            },
        },
    }
}

proof fn lemma_fst_fold_none(list: Seq<(Seq<char>, SLlvm)>, k: int, n: int, st: (nat, nat, Seq<(Seq<char>, SLlvm)>), l: Seq<(String, StructLayout)>)
    requires
        0 < k <= n <= list.len(),
        fst_fold(list, k, st, l) is None,
    ensures
        fst_fold(list, n, st, l) is None,
    decreases n - k,
{
    if k < n {
        lemma_fst_fold_none(list, k, n - 1, st, l);
    }
}

proof fn lemma_frame_lists_index(params: Seq<(String, LlvmType)>, extra: Seq<(String, LlvmType)>, a: nat)
    ensures
        pre_frame_fields(params).len() == params.len() + 1,
        pre_frame_fields(params)[0] == ("__promise"@, SLlvm::Promise(Box::new(SLlvm::Void))),
        forall|p: int| 0 <= p < params.len() ==> #[trigger] pre_frame_fields(params)[1 + p] == (params[p].0@, params[p].1@),
        post_frame_fields(extra, a).len() == extra.len() + a + 1,
        forall|k: int| 0 <= k < extra.len() ==> #[trigger] post_frame_fields(extra, a)[k] == (extra[k].0@, extra[k].1@),
        forall|j: int| 0 <= j < a ==> #[trigger] post_frame_fields(extra, a)[extra.len() + j]
            == (await_field_name(j as nat), SLlvm::Promise(Box::new(SLlvm::I32))),
        post_frame_fields(extra, a)[(extra.len() + a) as int] == ("__return"@, SLlvm::I32),
{
    let s1 = seq![("__promise"@, SLlvm::Promise(Box::new(SLlvm::Void)))];
    let s2 = typed_fields(params);
    let s3 = typed_fields(extra);
    let s4 = Seq::new(a, |k: int| (await_field_name(k as nat), SLlvm::Promise(Box::new(SLlvm::I32))));
    let s5 = seq![("__return"@, SLlvm::I32)];
    assert forall|p: int| 0 <= p < params.len() implies #[trigger] pre_frame_fields(params)[1 + p] == (params[p].0@, params[p].1@) by {
        assert((s1 + s2)[1 + p] == s2[p]);
    }
    assert forall|k: int| 0 <= k < extra.len() implies #[trigger] post_frame_fields(extra, a)[k] == (extra[k].0@, extra[k].1@) by {
        assert((s3 + s4)[k] == s3[k]);
    }
    assert forall|j: int| 0 <= j < a implies #[trigger] post_frame_fields(extra, a)[extra.len() + j]
        == (await_field_name(j as nat), SLlvm::Promise(Box::new(SLlvm::I32))) by {
        assert((s3 + s4)[extra.len() + j] == s4[j]);
    }
}

/// Lays out the frame of an async function: the promise, the parameters, the
/// locals that live across an await, the extra fields, one slot per await and
/// the return value, each field aligned, the size rounded up to the largest
/// alignment.
#[verifier::spinoff_prover]
#[verifier::rlimit(100)]
pub fn async_frame_layout(
    module: &ModuleCtx,
    frame_type: &str,
    params: &Vec<(String, LlvmType)>,
    stmts: &Vec<Stmt>,
    frame_locals: &NameSet,
    extra_fields: &Table<LlvmType>,
    await_count: usize,
) -> (r: Result<AsyncFrameLayout, String>)
    ensures
        r matches Ok(layout) ==> {
            &&& frame_wf(layout.fields.entries@, layout.ordered_fields@)
            &&& layout.frame_name@ == frame_type@
            &&& forall|x: Seq<char>| #[trigger] frame_names(layout.ordered_fields@).contains(x) <==>
                frame_field_wanted(x, params@, crate::lalr::stmts_view(stmts@), frame_locals.view_set(),
                    extra_fields.entries@, await_count as nat)
        },
        match frame_result(params@, stmts@, extra_fields.entries@, await_count as nat,
            module.constants.entries@, module.layouts.entries@, frame_locals.view_set()) {
            Some(q) => r matches Ok(layout) && layout.size == q.0 && typed_fields(layout.ordered_fields@) == q.1,
            None => r is Err,
        },
{
    let ghost body = crate::lalr::stmts_view(stmts@);
    let ghost want = |x: Seq<char>| frame_field_wanted(x, params@, body, frame_locals.view_set(), extra_fields.entries@, await_count as nat);
    let mut fields: Table<FrameField> = Table::new();
    let mut ordered_fields: Vec<(String, LlvmType)> = Vec::new();
    let mut offset: usize = 0;
    let mut max_align: usize = 1;
    let ghost pre = pre_frame_fields(params@);
    let ghost post = post_frame_fields(extra_fields.entries@, await_count as nat);
    let ghost st_e: (nat, nat, Seq<(Seq<char>, SLlvm)>) = (0, 1, Seq::empty());
    let ghost mc = module.constants.entries@;
    let ghost locals = frame_locals.view_set();
    let ghost lay = module.layouts.entries@;
    let ghost np: int = params@.len() as int;
    let ghost ne: int = extra_fields.entries@.len() as int;
    proof {
        assert(fields.entries@ =~= Seq::<(String, FrameField)>::empty());
        reveal_strlit("__promise");
        lemma_frame_lists_index(params@, extra_fields.entries@, await_count as nat);
        assert(typed_fields(ordered_fields@) =~= Seq::<(Seq<char>, SLlvm)>::empty());
        assert(st_e == (offset as nat, max_align as nat, typed_fields(ordered_fields@)));
    }
    let ghost o_pre = ordered_fields@;
    let promise_name = String::from_str("__promise");
    let promise_ty = LlvmType::Promise(Box::new(LlvmType::Void));
    proof {
        assert(promise_name@ == pre[0].0);
        assert(LlvmType::Void.view() == SLlvm::Void);
        assert(promise_ty@ == pre[0].1);
    }
    match add_frame_field(&mut fields, &mut ordered_fields, &mut offset, &mut max_align, &module.layouts, frame_type,
        promise_name, promise_ty) {
        Ok(()) => {
            proof {
                assert(fst_fold(pre, 0, st_e, lay) == Some(st_e));
                assert(fst_fold(pre, 1, st_e, lay) == fst_add(st_e, pre[0].0, pre[0].1, lay));
            }
        }
        Err(e) => {
            proof {
                assert(fst_fold(pre, 0, st_e, lay) == Some(st_e));
                assert(fst_fold(pre, 1, st_e, lay) == fst_add(st_e, pre[0].0, pre[0].1, lay));
                lemma_fst_fold_none(pre, 1, pre.len() as int, st_e, lay);
            }
            return Err(e);
        }
    }
    // Part one: the promise and the parameters.
    let mut p: usize = 0;
    while p < params.len()
        invariant
            p <= params@.len(),
            frame_wf(fields.entries@, ordered_fields@),
            forall|x: Seq<char>| #[trigger] frame_names(ordered_fields@).contains(x) <==>
                (x == "__promise"@ || exists|i: int| 0 <= i < p && #[trigger] params@[i].0@ == x),
            pre == pre_frame_fields(params@),
            lay == module.layouts.entries@,
            np == params@.len(),
            pre.len() == np + 1,
            forall|q: int| 0 <= q < params@.len() ==> #[trigger] pre[1 + q] == (params@[q].0@, params@[q].1@),
            fst_fold(pre, 1 + p, st_e, lay) == Some((offset as nat, max_align as nat, typed_fields(ordered_fields@))),
        decreases params.len() - p,
    {
        let ghost before = frame_names(ordered_fields@);
        let ghost nv = params@[p as int].0@;
        let ghost o_pre = ordered_fields@;
        let ghost off_pre = offset as nat;
        let ghost ma_pre = max_align as nat;
        proof {
            assert(pre[1 + p] == (params@[p as int].0@, params@[p as int].1@));
        }
        match add_frame_field(&mut fields, &mut ordered_fields, &mut offset, &mut max_align, &module.layouts, frame_type,
            params[p].0.clone(), params[p].1.copy()) {
            Ok(()) => {}
            Err(e) => {
                proof {
                    lemma_fst_fold_none(pre, 2 + p, pre.len() as int, st_e, lay);
                }
                return Err(e);
            }
        }
        proof {
            assert forall|x: Seq<char>| #[trigger] frame_names(ordered_fields@).contains(x) <==>
                (x == "__promise"@ || exists|i: int| 0 <= i < p + 1 && #[trigger] params@[i].0@ == x) by {
                if x == nv {
                    assert(params@[p as int].0@ == x);
                }
                if exists|i: int| 0 <= i < p + 1 && #[trigger] params@[i].0@ == x {
                    let i = choose|i: int| 0 <= i < p + 1 && #[trigger] params@[i].0@ == x;
                    if i < p {
                        assert(before.contains(x));
                    }
                }
            }
        }
        p = p + 1;
    }
    let ghost after_params = frame_names(ordered_fields@);
    let ghost s1 = (offset as nat, max_align as nat, typed_fields(ordered_fields@));
    // Part two: the frame locals of the body.
    let mut constants = copy_constants(&module.constants);
    let mut i: usize = 0;
    while i < stmts.len()
        invariant
            i <= stmts@.len(),
            body == crate::lalr::stmts_view(stmts@),
            frame_wf(fields.entries@, ordered_fields@),
            gained(after_params, frame_names(ordered_fields@), stmts_decl_names(body, i as int), frame_locals.view_set()),
            lay == module.layouts.entries@,
            mc == module.constants.entries@,
            locals == frame_locals.view_set(),
            fst_fold(pre, pre.len() as int, st_e, lay) == Some(s1),
            collect_stmts_spec(stmts@, i as int, mc, s1, mc, lay, locals)
                == Some(((offset as nat, max_align as nat, typed_fields(ordered_fields@)), constants.entries@)),
        decreases stmts.len() - i,
    {
        let ghost before = frame_names(ordered_fields@);
        match collect_stmt_fields(module, frame_type, &stmts[i], frame_locals, &mut fields, &mut ordered_fields,
            &mut offset, &mut max_align, &mut constants) {
            Ok(()) => {}
            Err(e) => {
                proof {
                    lemma_collect_stmts_none(stmts@, i as int + 1, stmts@.len() as int, mc, s1, mc, lay, locals);
                }
                return Err(e);
            }
        }
        proof {
            assert(body[i as int] == stmts@[i as int]@);
            assert forall|x: Seq<char>| #[trigger] frame_names(ordered_fields@).contains(x) <==>
                (after_params.contains(x) || (stmts_decl_names(body, i + 1).contains(x) && frame_locals.view_set().contains(x))) by {
                lemma_concat_contains(stmts_decl_names(body, i as int), stmt_decl_names(body[i as int]), x);
                assert(frame_names(ordered_fields@).contains(x) <==> (before.contains(x)
                    || (stmt_decl_names(stmts@[i as int]@).contains(x) && frame_locals.view_set().contains(x))));
            }
        }
        i = i + 1;
    }
    let ghost after_locals = frame_names(ordered_fields@);
    let ghost s2 = (offset as nat, max_align as nat, typed_fields(ordered_fields@));
    proof {
        assert(collect_stmts_spec(stmts@, stmts@.len() as int, mc, s1, mc, lay, locals) == Some((s2, constants.entries@)));
    }
    // Part three: the extra fields.
    let mut k: usize = 0;
    while k < extra_fields.entries.len()
        invariant
            k <= extra_fields.entries@.len(),
            frame_wf(fields.entries@, ordered_fields@),
            forall|x: Seq<char>| #[trigger] frame_names(ordered_fields@).contains(x) <==>
                (after_locals.contains(x) || exists|j: int| 0 <= j < k && #[trigger] extra_fields.entries@[j].0@ == x),
            post == post_frame_fields(extra_fields.entries@, await_count as nat),
            lay == module.layouts.entries@,
            ne == extra_fields.entries@.len(),
            post.len() == ne + await_count + 1,
            forall|q: int| 0 <= q < ne ==> #[trigger] post[q] == (extra_fields.entries@[q].0@, extra_fields.entries@[q].1@),
            fst_fold(post, k as int, s2, lay) == Some((offset as nat, max_align as nat, typed_fields(ordered_fields@))),
        decreases extra_fields.entries.len() - k,
    {
        let ghost before = frame_names(ordered_fields@);
        let ghost nv = extra_fields.entries@[k as int].0@;
        let ghost o_pre = ordered_fields@;
        let ghost off_pre = offset as nat;
        let ghost ma_pre = max_align as nat;
        proof {
            assert(post[k as int] == (extra_fields.entries@[k as int].0@, extra_fields.entries@[k as int].1@));
        }
        match add_frame_field(&mut fields, &mut ordered_fields, &mut offset, &mut max_align, &module.layouts, frame_type,
            extra_fields.entries[k].0.clone(), extra_fields.entries[k].1.copy()) {
            Ok(()) => {}
            Err(e) => {
                proof {
                    lemma_fst_fold_none(post, k + 1, post.len() as int, s2, lay);
                }
                return Err(e);
            }
        }
        proof {
            assert forall|x: Seq<char>| #[trigger] frame_names(ordered_fields@).contains(x) <==>
                (after_locals.contains(x) || exists|j: int| 0 <= j < k + 1 && #[trigger] extra_fields.entries@[j].0@ == x) by {
                if x == nv {
                    assert(extra_fields.entries@[k as int].0@ == x);
                }
                if exists|j: int| 0 <= j < k + 1 && #[trigger] extra_fields.entries@[j].0@ == x {
                    let j = choose|j: int| 0 <= j < k + 1 && #[trigger] extra_fields.entries@[j].0@ == x;
                    if j < k {
                        assert(before.contains(x));
                    }
                }
            }
        }
        k = k + 1;
    }
    let ghost after_extra = frame_names(ordered_fields@);
    // Part four: one slot per await.
    let mut idx: usize = 0;
    while idx < await_count
        invariant
            idx <= await_count,
            frame_wf(fields.entries@, ordered_fields@),
            forall|x: Seq<char>| #[trigger] frame_names(ordered_fields@).contains(x) <==>
                (after_extra.contains(x) || exists|j: nat| j < idx && x == #[trigger] await_field_name(j)),
            post == post_frame_fields(extra_fields.entries@, await_count as nat),
            lay == module.layouts.entries@,
            ne == extra_fields.entries@.len(),
            post.len() == ne + await_count + 1,
            forall|q: int| 0 <= q < await_count ==> #[trigger] post[ne + q]
                == (await_field_name(q as nat), SLlvm::Promise(Box::new(SLlvm::I32))),
            fst_fold(post, ne + idx, s2, lay) == Some((offset as nat, max_align as nat, typed_fields(ordered_fields@))),
        decreases await_count - idx,
    {
        let ghost before = frame_names(ordered_fields@);
        let digits = usize_text(idx);
        let name = cat("__await", digits.as_str());
        proof {
            reveal_strlit("__await");
        }
        let ghost nv = name@;
        let ghost o_pre = ordered_fields@;
        let ghost off_pre = offset as nat;
        let ghost ma_pre = max_align as nat;
        proof {
            assert(nv == await_field_name(idx as nat));
            assert(post[ne + idx] == (nv, SLlvm::Promise(Box::new(SLlvm::I32))));
        }
        match add_frame_field(&mut fields, &mut ordered_fields, &mut offset, &mut max_align, &module.layouts, frame_type,
            name, LlvmType::Promise(Box::new(LlvmType::I32))) {
            Ok(()) => {}
            Err(e) => {
                proof {
                    lemma_fst_fold_none(post, ne + idx + 1, post.len() as int, s2, lay);
                }
                return Err(e);
            }
        }
        proof {
            assert(nv == await_field_name(idx as nat));
            assert forall|x: Seq<char>| #[trigger] frame_names(ordered_fields@).contains(x) <==>
                (after_extra.contains(x) || exists|j: nat| j < idx + 1 && x == #[trigger] await_field_name(j)) by {
                if exists|j: nat| j < idx + 1 && x == #[trigger] await_field_name(j) {
                    let j = choose|j: nat| j < idx + 1 && x == #[trigger] await_field_name(j);
                    if j < idx {
                        assert(before.contains(x));
                    }
                }
            }
        }
        idx = idx + 1;
    }
    let ghost after_awaits = frame_names(ordered_fields@);
    proof {
        reveal_strlit("__return");
    }
    let ghost o_pre = ordered_fields@;
    let ghost off_pre = offset as nat;
    let ghost ma_pre = max_align as nat;
    let ghost last = ne + await_count;
    proof {
        lemma_frame_lists_index(params@, extra_fields.entries@, await_count as nat);
        assert(post[last] == ("__return"@, SLlvm::I32));
    }
    match add_frame_field(&mut fields, &mut ordered_fields, &mut offset, &mut max_align, &module.layouts, frame_type,
        String::from_str("__return"), LlvmType::I32) {
        Ok(()) => {
            proof {
                assert(fst_fold(post, post.len() as int, s2, lay) == Some((offset as nat, max_align as nat, typed_fields(ordered_fields@))));
            }
        }
        Err(e) => {
            return Err(e);
        }
    }
    if max_align != 0 && offset > usize::MAX - max_align {
        return Err(String::from_str("Type size overflows"));
    }
    let size = align_up(offset, max_align);
    let layout = AsyncFrameLayout { frame_name: String::from_str(frame_type), fields, ordered_fields, size };
    proof {
        assert forall|x: Seq<char>| #[trigger] frame_names(layout.ordered_fields@).contains(x) <==> want(x) by {
            assert(frame_names(layout.ordered_fields@).contains(x) <==> (after_awaits.contains(x) || x == "__return"@));
        }
    }
    Ok(layout)
}

/// What the lowering needs to know of one suspension.
#[derive(Debug)]
pub struct AwaitPointInfo {
    pub state: i32,
    pub child_field: String,
    pub result_target: Option<String>,
    pub callback_name: String,
}

pub open spec fn opt_view(o: Option<String>) -> Option<Seq<char>> {
    match o {
        Some(s) => Some(s@),
        None => None,
    }
}

/// The suspensions of `cfg` in block order, each with the frame slot of its
/// promise and the name of the continuation that resumes it.
pub fn collect_await_points(module: &ModuleCtx, safe_func_name: &str, cfg: &AsyncCfgFunction) -> (r: Vec<AwaitPointInfo>)
    requires
        forall|k: int| 0 <= k < spec_await_points(cfg.blocks@).len() ==> (#[trigger] spec_await_points(cfg.blocks@)[k]).state >= 1,
    ensures
        r@.len() == spec_await_points(cfg.blocks@).len(),
        forall|k: int| 0 <= k < r@.len() ==> {
            let a = spec_await_points(cfg.blocks@)[k];
            &&& (#[trigger] r@[k]).state == a.state
            &&& r@[k].child_field@ == await_field_name((a.state - 1) as nat)
            &&& opt_view(r@[k].result_target) == opt_view(a.result_target)
            &&& r@[k].callback_name@ == "__sysy_async_cont_"@ + safe_func_name@ + "_"@ + int_text(a.state as int)
        },
{
    let points = cfg.await_points();
    let mut r: Vec<AwaitPointInfo> = Vec::new();
    let mut i: usize = 0;
    while i < points.len()
        invariant
            i <= points@.len(),
            points@.len() == spec_await_points(cfg.blocks@).len(),
            forall|k: int| 0 <= k < points@.len() ==> *points@[k] == #[trigger] spec_await_points(cfg.blocks@)[k],
            r@.len() == i,
            forall|k: int| 0 <= k < i ==> {
                let a = spec_await_points(cfg.blocks@)[k];
                &&& (#[trigger] r@[k]).state == a.state
                &&& r@[k].child_field@ == await_field_name((a.state - 1) as nat)
                &&& opt_view(r@[k].result_target) == opt_view(a.result_target)
                &&& r@[k].callback_name@ == "__sysy_async_cont_"@ + safe_func_name@ + "_"@ + int_text(a.state as int)
            },
        decreases points.len() - i,
    {
        let a = points[i];
        proof {
            assert(*points@[i as int] == spec_await_points(cfg.blocks@)[i as int]);
        }
        let slot = (a.state - 1) as usize;
        let digits = usize_text(slot);
        let child_field = cat("__await", digits.as_str());
        let state_text = i32_text(a.state);
        let callback_name = cat3("__sysy_async_cont_", safe_func_name, "_");
        let callback_name = cat(callback_name.as_str(), state_text.as_str());
        let result_target = match &a.result_target {
            Some(t) => Some(t.clone()),
            None => None,
        };
        r.push(AwaitPointInfo { state: a.state, child_field, result_target, callback_name });
        i = i + 1;
    }
    r
}

} // verus!
