use vstd::prelude::*;
use crate::lalr::{
    lemma_arr_view, lemma_block_view, lemma_call_view, stmts_view, AsyncFunctionAnalysis,
    AsyncProgramAnalysis, AwaitPoint, CompUnit, Exp, FuncDef, GlobalDef, InitVal, SDecl, SExp,
    SInit, SStmt, SingleDecl, Stmt,
};
use crate::llvm::async_cfg::{collect_uses_exp, collect_uses_init, exp_idents, init_idents};
use crate::order::{insert_sorted, strictly_sorted, views_of};
use crate::syntax::{init_contains_await, spec_init_contains_await, spec_var_decl_name, var_decl_name};
use crate::table::NameSet;

verus! {

broadcast use vstd::std_specs::vec::group_vec_axioms;

// ---------------------------------------------------------------------------
// The variables statements read.

/// The variables a statement reads; a declaration reads those of its initializers.
pub open spec fn stmt_used(s: SStmt) -> Set<Seq<char>>
    decreases s, 0nat,
{
    match s {
        SStmt::Spanned(inner, _) => stmt_used(*inner),
        SStmt::Block(ss) => stmts_used(ss, ss.len() as int),
        SStmt::Assign(l, r) => exp_idents(l).union(exp_idents(r)),
        SStmt::Decl(_, ds) => decls_used(ds, ds.len() as int),
        SStmt::Exp(e) => exp_idents(e),
        SStmt::Return(Some(e)) => exp_idents(e),
        SStmt::PromiseWait(e) => exp_idents(e),
        SStmt::If(c, t) => exp_idents(c).union(stmt_used(*t)),
        SStmt::IfElse(c, t, e) => exp_idents(c).union(stmt_used(*t)).union(stmt_used(*e)),
        SStmt::While(c, b) => exp_idents(c).union(stmt_used(*b)),
        _ => Set::empty(),
    }
}

pub open spec fn stmts_used(ss: Seq<SStmt>, n: int) -> Set<Seq<char>>
    decreases ss, n,
{
    if 0 < n <= ss.len() {
        stmts_used(ss, n - 1).union(stmt_used(ss[n - 1]))
    } else {
        Set::empty()
    }
}

pub open spec fn decls_used(ds: Seq<SDecl>, n: int) -> Set<Seq<char>>
    decreases n,
{
    if 0 < n <= ds.len() {
        decls_used(ds, n - 1).union(match ds[n - 1].init {
            Some(i) => init_idents(i),
            None => Set::empty(),
        })
    } else {
        Set::empty()
    }
}

/// The statements directly inside a statement: the one a span wraps, those of
/// a block, the branches of an `if`, the body of a loop.
pub open spec fn sub_stmts(s: SStmt) -> Seq<SStmt> {
    match s {
        SStmt::Spanned(inner, _) => seq![*inner],
        SStmt::Block(ss) => ss,
        SStmt::If(_, t) => seq![*t],
        SStmt::IfElse(_, t, e) => seq![*t, *e],
        SStmt::While(_, b) => seq![*b],
        _ => Seq::empty(),
    }
}

/// The expressions a statement evaluates itself, outside its sub-statements:
/// both sides of an assignment, the expression of an expression statement, the
/// value returned, the promise waited for, the condition of an `if` or a loop.
pub open spec fn own_exps(s: SStmt) -> Seq<SExp> {
    match s {
        SStmt::Assign(l, r) => seq![l, r],
        SStmt::Exp(e) => seq![e],
        SStmt::Return(Some(e)) => seq![e],
        SStmt::PromiseWait(e) => seq![e],
        SStmt::If(c, _) => seq![c],
        SStmt::IfElse(c, _, _) => seq![c],
        SStmt::While(c, _) => seq![c],
        _ => Seq::empty(),
    }
}

/// The declarations of a declaration statement; none for other statements.
pub open spec fn own_decls(s: SStmt) -> Seq<SDecl> {
    match s {
        SStmt::Decl(_, ds) => ds,
        _ => Seq::empty(),
    }
}

/// The names a declaration's initializer reads, if it has one.
pub open spec fn decl_reads(d: SDecl) -> Set<Seq<char>> {
    match d.init {
        Some(i) => init_idents(i),
        None => Set::empty(),
    }
}

proof fn lemma_stmts_used(ss: Seq<SStmt>, n: int, x: Seq<char>)
    requires
        0 <= n <= ss.len(),
    ensures
        stmts_used(ss, n).contains(x) <==> exists|k: int| 0 <= k < n && #[trigger] stmt_used(ss[k]).contains(x),
    decreases n,
{
    if n > 0 {
        lemma_stmts_used(ss, n - 1, x);
        if stmt_used(ss[n - 1]).contains(x) {
            assert(exists|k: int| 0 <= k < n && #[trigger] stmt_used(ss[k]).contains(x));
        }
        if exists|k: int| 0 <= k < n && #[trigger] stmt_used(ss[k]).contains(x) {
            let k = choose|k: int| 0 <= k < n && #[trigger] stmt_used(ss[k]).contains(x);
            if k < n - 1 {
                assert(exists|k2: int| 0 <= k2 < n - 1 && #[trigger] stmt_used(ss[k2]).contains(x));
            }
        }
    }
}

proof fn lemma_decls_used(ds: Seq<SDecl>, n: int, x: Seq<char>)
    requires
        0 <= n <= ds.len(),
    ensures
        decls_used(ds, n).contains(x) <==> exists|k: int| 0 <= k < n && #[trigger] decl_reads(ds[k]).contains(x),
    decreases n,
{
    if n > 0 {
        lemma_decls_used(ds, n - 1, x);
        if decl_reads(ds[n - 1]).contains(x) {
            assert(exists|k: int| 0 <= k < n && #[trigger] decl_reads(ds[k]).contains(x));
        }
        if exists|k: int| 0 <= k < n && #[trigger] decl_reads(ds[k]).contains(x) {
            let k = choose|k: int| 0 <= k < n && #[trigger] decl_reads(ds[k]).contains(x);
            if k < n - 1 {
                assert(exists|k2: int| 0 <= k2 < n - 1 && #[trigger] decl_reads(ds[k2]).contains(x));
            }
        }
    }
}

/// The names a statement reads are those read by one of its sub-statements
/// (either branch of an `if`-`else`, the `else` branch included), by an
/// expression it evaluates, or by the initializer of a local it declares.
pub proof fn lemma_reads_parts(s: SStmt, x: Seq<char>)
    ensures
        stmt_used(s).contains(x) <==> (
            (exists|k: int| 0 <= k < sub_stmts(s).len() && #[trigger] stmt_used(sub_stmts(s)[k]).contains(x))
            || (exists|k: int| 0 <= k < own_exps(s).len() && #[trigger] exp_idents(own_exps(s)[k]).contains(x))
            || (exists|k: int| 0 <= k < own_decls(s).len() && #[trigger] decl_reads(own_decls(s)[k]).contains(x))),
{
    let subs = sub_stmts(s);
    let es = own_exps(s);
    match s {
        SStmt::Block(ss) => {
            lemma_stmts_used(ss, ss.len() as int, x);
            assert(subs == ss);
            if stmt_used(s).contains(x) {
                let k = choose|k: int| 0 <= k < ss.len() && #[trigger] stmt_used(ss[k]).contains(x);
                assert(stmt_used(subs[k]).contains(x));
            }
            if exists|k: int| 0 <= k < subs.len() && #[trigger] stmt_used(subs[k]).contains(x) {
                let k = choose|k: int| 0 <= k < subs.len() && #[trigger] stmt_used(subs[k]).contains(x);
                assert(stmt_used(ss[k]).contains(x));
            }
        },
        SStmt::Decl(_, ds) => {
            lemma_decls_used(ds, ds.len() as int, x);
            let dd = own_decls(s);
            assert(dd == ds);
            if stmt_used(s).contains(x) {
                let k = choose|k: int| 0 <= k < ds.len() && #[trigger] decl_reads(ds[k]).contains(x);
                assert(decl_reads(dd[k]).contains(x));
            }
            if exists|k: int| 0 <= k < dd.len() && #[trigger] decl_reads(dd[k]).contains(x) {
                let k = choose|k: int| 0 <= k < dd.len() && #[trigger] decl_reads(dd[k]).contains(x);
                assert(decl_reads(ds[k]).contains(x));
            }
        },
        SStmt::Assign(l, r) => {
            assert(es[0] == l && es[1] == r);
            if exp_idents(l).contains(x) {
                assert(exp_idents(es[0]).contains(x));
            }
            if exp_idents(r).contains(x) {
                assert(exp_idents(es[1]).contains(x));
            }
        },
        SStmt::If(c, t) => {
            assert(es[0] == c && subs[0] == *t);
            if exp_idents(c).contains(x) {
                assert(exp_idents(es[0]).contains(x));
            }
            if stmt_used(*t).contains(x) {
                assert(stmt_used(subs[0]).contains(x));
            }
        },
        SStmt::IfElse(c, t, e) => {
            assert(es[0] == c && subs[0] == *t && subs[1] == *e);
            if exp_idents(c).contains(x) {
                assert(exp_idents(es[0]).contains(x));
            }
            if stmt_used(*t).contains(x) {
                assert(stmt_used(subs[0]).contains(x));
            }
            if stmt_used(*e).contains(x) {
                assert(stmt_used(subs[1]).contains(x));
            }
        },
        SStmt::While(c, b) => {
            assert(es[0] == c && subs[0] == *b);
            if exp_idents(c).contains(x) {
                assert(exp_idents(es[0]).contains(x));
            }
            if stmt_used(*b).contains(x) {
                assert(stmt_used(subs[0]).contains(x));
            }
        },
        SStmt::Spanned(inner, _) => {
            assert(subs[0] == *inner);
            if stmt_used(*inner).contains(x) {
                assert(stmt_used(subs[0]).contains(x));
            }
        },
        SStmt::Exp(e) => {
            assert(es[0] == e);
            if exp_idents(e).contains(x) {
                assert(exp_idents(es[0]).contains(x));
            }
        },
        SStmt::PromiseWait(e) => {
            assert(es[0] == e);
            if exp_idents(e).contains(x) {
                assert(exp_idents(es[0]).contains(x));
            }
        },
        SStmt::Return(Some(e)) => {
            assert(es[0] == e);
            if exp_idents(e).contains(x) {
                assert(exp_idents(es[0]).contains(x));
            }
        },
        _ => {},
    }
}

/// The variables the statements of `ss` from `start` on read.
pub open spec fn used_after(ss: Seq<SStmt>, start: int) -> Set<Seq<char>> {
    let rest = ss.subrange(start, ss.len() as int);
    stmts_used(rest, rest.len() as int)
}

fn collect_used_vars_in_stmt(stmt: &Stmt, vars: &mut NameSet, none: &NameSet)
    requires
        old(vars).wf(),
        none.view_set() == Set::<Seq<char>>::empty(),
    ensures
        final(vars).wf(),
        final(vars).view_set() == old(vars).view_set().union(stmt_used(stmt@)),
    decreases stmt,
{
    let ghost v0 = vars.view_set();
    proof {
        assert forall|s: Set<Seq<char>>| s.difference(none.view_set()) =~= s by {}
    }
    match stmt {
        Stmt::Spanned(inner, _) => collect_used_vars_in_stmt(inner, vars, none),
        Stmt::Block(stmts) => {
            proof {
                lemma_block_view(stmt);
            }
            collect_used_vars_in_stmts(stmts, 0, vars, none);
            proof {
                assert(stmts_view(stmts@).subrange(0, stmts@.len() as int) =~= stmt@->Block_0);
            }
        }
        Stmt::Assign(l, r) => {
            collect_uses_exp(l, vars, none);
            collect_uses_exp(r, vars, none);
            proof {
                assert(vars.view_set() =~= v0.union(stmt_used(stmt@)));
            }
        }
        Stmt::Decl(_, decls) => {
            let ghost dv = stmt@->Decl_1;
            let mut i: usize = 0;
            while i < decls.len()
                invariant
                    i <= decls@.len(),
                    dv == crate::lalr::decls_view(decls@),
                    vars.wf(),
                    vars.view_set() == v0.union(decls_used(dv, i as int)),
                decreases decls.len() - i,
            {
                match &decls[i].init {
                    Some(init) => {
                        collect_uses_init(init, vars, none);
                        proof {
                            assert(dv[i as int].init == Some(init@));
                        }
                    }
                    None => {}
                }
                proof {
                    assert(vars.view_set() =~= v0.union(decls_used(dv, i + 1)));
                }
                i = i + 1;
            }
        }
        Stmt::Exp(e) => {
            collect_uses_exp(e, vars, none);
        }
        Stmt::Return(Some(e)) => {
            collect_uses_exp(e, vars, none);
        }
        Stmt::PromiseWait(e) => {
            collect_uses_exp(e, vars, none);
        }
        Stmt::If(c, t) => {
            collect_uses_exp(c, vars, none);
            collect_used_vars_in_stmt(t, vars, none);
            proof {
                assert(vars.view_set() =~= v0.union(stmt_used(stmt@)));
            }
        }
        Stmt::IfElse(c, t, e) => {
            collect_uses_exp(c, vars, none);
            collect_used_vars_in_stmt(t, vars, none);
            collect_used_vars_in_stmt(e, vars, none);
            proof {
                assert(vars.view_set() =~= v0.union(stmt_used(stmt@)));
            }
        }
        Stmt::While(c, b) => {
            collect_uses_exp(c, vars, none);
            collect_used_vars_in_stmt(b, vars, none);
            proof {
                assert(vars.view_set() =~= v0.union(stmt_used(stmt@)));
            }
        }
        _ => {
            proof {
                assert(vars.view_set() =~= v0.union(stmt_used(stmt@)));
            }
        }
    }
}

/// Adds the variables the statements of `stmts` from `start` on read.
fn collect_used_vars_in_stmts(stmts: &Vec<Stmt>, start: usize, vars: &mut NameSet, none: &NameSet)
    requires
        old(vars).wf(),
        none.view_set() == Set::<Seq<char>>::empty(),
        start <= stmts@.len(),
    ensures
        final(vars).wf(),
        final(vars).view_set() == old(vars).view_set().union(used_after(stmts_view(stmts@), start as int)),
    decreases stmts, 0nat,
{
    let ghost v0 = vars.view_set();
    let ghost sv = stmts_view(stmts@);
    let ghost rest = sv.subrange(start as int, sv.len() as int);
    let mut i = start;
    proof {
        assert(vars.view_set() =~= v0.union(stmts_used(rest, 0)));
    }
    while i < stmts.len()
        invariant
            start <= i <= stmts@.len(),
            sv == stmts_view(stmts@),
            rest == sv.subrange(start as int, sv.len() as int),
            vars.wf(),
            vars.view_set() == v0.union(stmts_used(rest, i - start)),
        decreases stmts.len() - i,
    {
        collect_used_vars_in_stmt(&stmts[i], vars, none);
        proof {
            assert(rest[i - start] == stmts@[i as int]@);
            assert(vars.view_set() =~= v0.union(stmts_used(rest, i + 1 - start)));
        }
        i = i + 1;
    }
}

// ---------------------------------------------------------------------------
// Await points and the locals that live across them.

/// What the analysis has found so far: whether each await point met lies in
/// a loop, the locals that must live in the frame, and the locals declared
/// so far.
#[verifier::ext_equal]
pub struct AState {
    pub points: Seq<bool>,
    pub cands: Set<Seq<char>>,
    pub declared: Set<Seq<char>>,
}

/// The state after meeting an await point, when the statements after the
/// current one read `used`: the locals declared before it and read after it
/// become frame candidates.
pub open spec fn at_await(st: AState, in_loop: bool, used: Set<Seq<char>>) -> AState {
    AState { points: st.points.push(in_loop), cands: st.cands.union(st.declared.intersect(used)), declared: st.declared }
}

pub open spec fn a_exp(e: SExp, in_loop: bool, used: Set<Seq<char>>, st: AState) -> AState
    decreases e, 1nat,
{
    match e {
        SExp::Spanned(inner, _) => a_exp(*inner, in_loop, used, st),
        SExp::Await(inner) => a_exp(*inner, in_loop, used, at_await(st, in_loop, used)),
        SExp::Sleep(inner) => a_exp(*inner, in_loop, used, st),
        SExp::PromiseWait(inner) => a_exp(*inner, in_loop, used, st),
        SExp::UnaryExp(_, inner) => a_exp(*inner, in_loop, used, st),
        SExp::BinaryExp(_, l, r) => a_exp(*r, in_loop, used, a_exp(*l, in_loop, used, st)),
        SExp::ArrGet(l, r) => a_exp(*r, in_loop, used, a_exp(*l, in_loop, used, st)),
        SExp::FuncCall(_, args) => a_args(args, args.len() as int, in_loop, used, st),
        SExp::Field(b, _) => a_exp(*b, in_loop, used, st),
        SExp::PtrField(b, _) => a_exp(*b, in_loop, used, st),
        _ => st,
    }
}

pub open spec fn a_args(args: Seq<SExp>, n: int, in_loop: bool, used: Set<Seq<char>>, st: AState) -> AState
    decreases args, n,
{
    if 0 < n <= args.len() {
        a_exp(args[n - 1], in_loop, used, a_args(args, n - 1, in_loop, used, st))
    } else {
        st
    }
}

pub open spec fn a_init(i: SInit, in_loop: bool, used: Set<Seq<char>>, st: AState) -> AState
    decreases i, 1nat,
{
    match i {
        SInit::Spanned(inner, _) => a_init(*inner, in_loop, used, st),
        SInit::Exp(e) => a_exp(e, in_loop, used, st),
        SInit::Arr(items) => a_items(items, items.len() as int, in_loop, used, st),
    }
}

pub open spec fn a_items(items: Seq<SInit>, n: int, in_loop: bool, used: Set<Seq<char>>, st: AState) -> AState
    decreases items, n,
{
    if 0 < n <= items.len() {
        a_init(items[n - 1], in_loop, used, a_items(items, n - 1, in_loop, used, st))
    } else {
        st
    }
}

/// A declaration: a local whose initializer awaits counts as declared
/// before its own await points; every local counts as declared after it.
pub open spec fn a_decl(d: SDecl, in_loop: bool, used: Set<Seq<char>>, st: AState) -> AState {
    let name = spec_var_decl_name(d.var);
    let st1 = match d.init {
        Some(i) => if spec_init_contains_await(i) {
            AState { points: st.points, cands: st.cands, declared: st.declared.insert(name) }
        } else {
            st
        },
        None => st,
    };
    let st2 = match d.init {
        Some(i) => a_init(i, in_loop, used, st1),
        None => st1,
    };
    AState { points: st2.points, cands: st2.cands, declared: st2.declared.insert(name) }
}

pub open spec fn a_decls(ds: Seq<SDecl>, n: int, in_loop: bool, used: Set<Seq<char>>, st: AState) -> AState
    decreases n,
{
    if 0 < n <= ds.len() {
        a_decl(ds[n - 1], in_loop, used, a_decls(ds, n - 1, in_loop, used, st))
    } else {
        st
    }
}

/// A statement, when the statements after it in its enclosing list read `used`.
pub open spec fn a_stmt(s: SStmt, in_loop: bool, used: Set<Seq<char>>, st: AState) -> AState
    decreases s, 0nat,
{
    match s {
        SStmt::Spanned(inner, _) => a_stmt(*inner, in_loop, used, st),
        SStmt::Block(ss) => a_stmts(ss, ss.len() as int, in_loop, st),
        SStmt::Assign(l, r) => a_exp(r, in_loop, used, a_exp(l, in_loop, used, st)),
        SStmt::Decl(_, ds) => a_decls(ds, ds.len() as int, in_loop, used, st),
        SStmt::Exp(e) => a_exp(e, in_loop, used, st),
        SStmt::Return(Some(e)) => a_exp(e, in_loop, used, st),
        SStmt::PromiseWait(e) => a_exp(e, in_loop, used, st),
        SStmt::If(c, t) => a_stmt(*t, in_loop, used, a_exp(c, in_loop, used, st)),
        SStmt::IfElse(c, t, e) => a_stmt(*e, in_loop, used, a_stmt(*t, in_loop, used, a_exp(c, in_loop, used, st))),
        SStmt::While(c, b) => a_stmt(*b, true, used, a_exp(c, true, used, st)),
        _ => st,
    }
}

/// The first `n` statements of a list, each with the statements after it in the list.
pub open spec fn a_stmts(ss: Seq<SStmt>, n: int, in_loop: bool, st: AState) -> AState
    decreases ss, n,
{
    if 0 < n <= ss.len() {
        a_stmt(ss[n - 1], in_loop, used_after(ss, n), a_stmts(ss, n - 1, in_loop, st))
    } else {
        st
    }
}

/// The number of the await point at position `k`: from 1 on, and no more
/// than `usize::MAX`.
pub open spec fn cont_id(k: int) -> usize {
    if k + 1 <= usize::MAX { (k + 1) as usize } else { usize::MAX }
}

/// Walks a function body, numbering its await points.
pub struct AsyncFunctionAnalyzer {
    pub next_continuation_id: usize,
    pub await_points: Vec<AwaitPoint>,
    pub frame_local_candidates: NameSet,
    pub declared_before: NameSet,
}

impl View for AsyncFunctionAnalyzer {
    type V = AState;

    open spec fn view(&self) -> AState {
        AState {
            points: Seq::new(self.await_points@.len(), |k: int| self.await_points@[k].in_loop),
            cands: self.frame_local_candidates.view_set(),
            declared: self.declared_before.view_set(),
        }
    }
}

impl AsyncFunctionAnalyzer {
    pub open spec fn wf(&self) -> bool {
        &&& self.frame_local_candidates.wf()
        &&& self.declared_before.wf()
        &&& self.next_continuation_id == cont_id(self.await_points@.len() as int)
        &&& forall|k: int| 0 <= k < self.await_points@.len() ==> (#[trigger] self.await_points@[k]).continuation_id == cont_id(k)
    }

    pub fn new() -> (a: Self)
        ensures
            a.wf(),
            a@ == (AState { points: Seq::empty(), cands: Set::empty(), declared: Set::empty() }),
    {
        let a = AsyncFunctionAnalyzer {
            next_continuation_id: 1,
            await_points: Vec::new(),
            frame_local_candidates: NameSet::new(),
            declared_before: NameSet::new(),
        };
        proof {
            assert(a@ =~= (AState { points: Seq::empty(), cands: Set::empty(), declared: Set::empty() }));
        }
        a
    }

    /// Records an await point; the statements `fol` from `fol_start` on follow it.
    fn record_await(&mut self, in_loop: bool, fol: &Vec<Stmt>, fol_start: usize)
        requires
            old(self).wf(),
            fol_start <= fol@.len(),
        ensures
            final(self).wf(),
            final(self)@ == at_await(old(self)@, in_loop, used_after(stmts_view(fol@), fol_start as int)),
    {
        let ghost st = self@;
        let id = self.next_continuation_id;
        if self.next_continuation_id < usize::MAX {
            self.next_continuation_id = self.next_continuation_id + 1;
        }
        self.await_points.push(AwaitPoint { continuation_id: id, in_loop });
        let none = NameSet::new();
        let mut used = NameSet::new();
        collect_used_vars_in_stmts(fol, fol_start, &mut used, &none);
        let ghost u = used_after(stmts_view(fol@), fol_start as int);
        proof {
            assert(used.view_set() =~= u);
        }
        let ghost c0 = self.frame_local_candidates.view_set();
        let ghost dnames = self.declared_before.names@;
        let ghost ap1 = self.await_points@;
        let ghost n1 = self.next_continuation_id;
        proof {
            assert(ap1 =~= old(self).await_points@.push(AwaitPoint { continuation_id: cont_id(old(self).await_points@.len() as int), in_loop }));
        }
        let mut i: usize = 0;
        while i < self.declared_before.names.len()
            invariant
                i <= dnames.len(),
                dnames == self.declared_before.names@,
                self.frame_local_candidates.wf(),
                self.declared_before.wf(),
                self.declared_before.view_set() == st.declared,
                self.await_points@ == ap1,
                self.next_continuation_id == n1,
                used.view_set() == u,
                self.frame_local_candidates.view_set() == c0.union(
                    Set::new(|x: Seq<char>| exists|j: int| 0 <= j < i && dnames[j]@ == x && u.contains(x))),
            decreases dnames.len() - i,
        {
            let ghost before = self.frame_local_candidates.view_set();
            if used.contains(self.declared_before.names[i].as_str()) {
                let name = self.declared_before.names[i].clone();
                self.frame_local_candidates.insert(name);
            }
            proof {
                assert(self.frame_local_candidates.view_set() =~= c0.union(
                    Set::new(|x: Seq<char>| exists|j: int| 0 <= j < i + 1 && dnames[j]@ == x && u.contains(x)))) by {
                    assert forall|x: Seq<char>| (exists|j: int| 0 <= j < i + 1 && dnames[j]@ == x && u.contains(x))
                        implies #[trigger] self.frame_local_candidates.view_set().contains(x) by {
                        let j = choose|j: int| 0 <= j < i + 1 && dnames[j]@ == x && u.contains(x);
                        if j < i {
                            assert(before.contains(x));
                        }
                    }
                }
            }
            i = i + 1;
        }
        proof {
            assert(self.frame_local_candidates.view_set() =~= st.cands.union(st.declared.intersect(u))) by {
                assert forall|x: Seq<char>| st.declared.contains(x) && u.contains(x)
                    implies #[trigger] self.frame_local_candidates.view_set().contains(x) by {
                    let j = choose|j: int| 0 <= j < dnames.len() && dnames[j]@ == x;
                    assert(exists|j2: int| 0 <= j2 < i && dnames[j2]@ == x && u.contains(x));
                }
            }
            assert(self@.points =~= st.points.push(in_loop));
            assert(self@ =~= at_await(st, in_loop, u));
        }
    }

    fn visit_exp(&mut self, exp: &Exp, in_loop: bool, fol: &Vec<Stmt>, fol_start: usize)
        requires
            old(self).wf(),
            fol_start <= fol@.len(),
        ensures
            final(self).wf(),
            final(self)@ == a_exp(exp@, in_loop, used_after(stmts_view(fol@), fol_start as int), old(self)@),
        decreases exp,
    {
        let ghost u = used_after(stmts_view(fol@), fol_start as int);
        match exp {
            Exp::Spanned(inner, _) => self.visit_exp(inner, in_loop, fol, fol_start),
            Exp::Await(inner) => {
                self.record_await(in_loop, fol, fol_start);
                self.visit_exp(inner, in_loop, fol, fol_start);
            }
            Exp::Sleep(inner) => self.visit_exp(inner, in_loop, fol, fol_start),
            Exp::PromiseWait(inner) => self.visit_exp(inner, in_loop, fol, fol_start),
            Exp::UnaryExp(_, inner) => self.visit_exp(inner, in_loop, fol, fol_start),
            Exp::BinaryExp(_, l, r) => {
                self.visit_exp(l, in_loop, fol, fol_start);
                self.visit_exp(r, in_loop, fol, fol_start);
            }
            Exp::ArrGet(l, r) => {
                self.visit_exp(l, in_loop, fol, fol_start);
                self.visit_exp(r, in_loop, fol, fol_start);
            }
            Exp::FuncCall(_, args) => {
                proof {
                    lemma_call_view(exp);
                }
                let ghost av = exp@->FuncCall_1;
                let ghost st0 = self@;
                let mut i: usize = 0;
                while i < args.len()
                    invariant
                        i <= args@.len(),
                        av.len() == args@.len(),
                        forall|j: int| 0 <= j < args@.len() ==> #[trigger] av[j] == args@[j]@,
                        self.wf(),
                        fol_start <= fol@.len(),
                        self@ == a_args(av, i as int, in_loop, u, st0),
                    decreases args.len() - i,
                {
                    self.visit_exp(&args[i], in_loop, fol, fol_start);
                    i = i + 1;
                }
            }
            Exp::Field(b, _) => self.visit_exp(b, in_loop, fol, fol_start),
            Exp::PtrField(b, _) => self.visit_exp(b, in_loop, fol, fol_start),
            _ => {}
        }
    }

    fn visit_init(&mut self, init: &InitVal, in_loop: bool, fol: &Vec<Stmt>, fol_start: usize)
        requires
            old(self).wf(),
            fol_start <= fol@.len(),
        ensures
            final(self).wf(),
            final(self)@ == a_init(init@, in_loop, used_after(stmts_view(fol@), fol_start as int), old(self)@),
        decreases init,
    {
        let ghost u = used_after(stmts_view(fol@), fol_start as int);
        match init {
            InitVal::Spanned(inner, _) => self.visit_init(inner, in_loop, fol, fol_start),
            InitVal::Exp(e) => self.visit_exp(e, in_loop, fol, fol_start),
            InitVal::Arr(items) => {
                proof {
                    lemma_arr_view(init);
                }
                let ghost iv = init@->Arr_0;
                let ghost st0 = self@;
                let mut i: usize = 0;
                while i < items.len()
                    invariant
                        i <= items@.len(),
                        iv.len() == items@.len(),
                        forall|j: int| 0 <= j < items@.len() ==> #[trigger] iv[j] == items@[j]@,
                        self.wf(),
                        fol_start <= fol@.len(),
                        self@ == a_items(iv, i as int, in_loop, u, st0),
                    decreases items.len() - i,
                {
                    self.visit_init(&items[i], in_loop, fol, fol_start);
                    i = i + 1;
                }
            }
        }
    }

    fn visit_decl(&mut self, decl: &SingleDecl, in_loop: bool, fol: &Vec<Stmt>, fol_start: usize)
        requires
            old(self).wf(),
            fol_start <= fol@.len(),
        ensures
            final(self).wf(),
            final(self)@ == a_decl(decl@, in_loop, used_after(stmts_view(fol@), fol_start as int), old(self)@),
    {
        let ghost st = self@;
        let name = var_decl_name(&decl.var);
        match &decl.init {
            Some(init) => {
                if init_contains_await(init) {
                    self.declared_before.insert(name.clone());
                }
                proof {
                    assert(self@ =~= (if spec_init_contains_await(init@) {
                        AState { points: st.points, cands: st.cands, declared: st.declared.insert(name@) }
                    } else {
                        st
                    }));
                }
                self.visit_init(init, in_loop, fol, fol_start);
            }
            None => {}
        }
        let ghost st2 = self@;
        self.declared_before.insert(name);
        proof {
            assert(self@ =~= AState { points: st2.points, cands: st2.cands, declared: st2.declared.insert(spec_var_decl_name(decl@.var)) });
        }
    }

    fn visit_stmt(&mut self, stmt: &Stmt, in_loop: bool, fol: &Vec<Stmt>, fol_start: usize)
        requires
            old(self).wf(),
            fol_start <= fol@.len(),
        ensures
            final(self).wf(),
            final(self)@ == a_stmt(stmt@, in_loop, used_after(stmts_view(fol@), fol_start as int), old(self)@),
        decreases stmt, 1nat,
    {
        let ghost u = used_after(stmts_view(fol@), fol_start as int);
        match stmt {
            Stmt::Spanned(inner, _) => self.visit_stmt(inner, in_loop, fol, fol_start),
            Stmt::Block(stmts) => {
                proof {
                    lemma_block_view(stmt);
                    assert(stmts_view(stmts@) =~= stmt@->Block_0);
                }
                self.visit_stmts(stmts, in_loop);
            }
            Stmt::Assign(l, r) => {
                self.visit_exp(l, in_loop, fol, fol_start);
                self.visit_exp(r, in_loop, fol, fol_start);
            }
            Stmt::Decl(_, decls) => {
                let ghost dv = stmt@->Decl_1;
                let ghost st0 = self@;
                let mut i: usize = 0;
                while i < decls.len()
                    invariant
                        i <= decls@.len(),
                        dv == crate::lalr::decls_view(decls@),
                        self.wf(),
                        fol_start <= fol@.len(),
                        self@ == a_decls(dv, i as int, in_loop, u, st0),
                    decreases decls.len() - i,
                {
                    self.visit_decl(&decls[i], in_loop, fol, fol_start);
                    i = i + 1;
                }
            }
            Stmt::Exp(e) => self.visit_exp(e, in_loop, fol, fol_start),
            Stmt::Return(Some(e)) => self.visit_exp(e, in_loop, fol, fol_start),
            Stmt::PromiseWait(e) => self.visit_exp(e, in_loop, fol, fol_start),
            Stmt::If(c, t) => {
                self.visit_exp(c, in_loop, fol, fol_start);
                self.visit_stmt(t, in_loop, fol, fol_start);
            }
            Stmt::IfElse(c, t, e) => {
                self.visit_exp(c, in_loop, fol, fol_start);
                self.visit_stmt(t, in_loop, fol, fol_start);
                self.visit_stmt(e, in_loop, fol, fol_start);
            }
            Stmt::While(c, b) => {
                self.visit_exp(c, true, fol, fol_start);
                self.visit_stmt(b, true, fol, fol_start);
            }
            _ => {}
        }
    }

    /// Walks a list of statements, each followed by the rest of the list.
    pub fn visit_stmts(&mut self, stmts: &Vec<Stmt>, in_loop: bool)
        requires
            old(self).wf(),
        ensures
            final(self).wf(),
            final(self)@ == a_stmts(stmts_view(stmts@), stmts@.len() as int, in_loop, old(self)@),
        decreases stmts, 0nat,
    {
        let ghost sv = stmts_view(stmts@);
        let ghost st0 = self@;
        let mut i: usize = 0;
        while i < stmts.len()
            invariant
                i <= stmts@.len(),
                sv == stmts_view(stmts@),
                self.wf(),
                self@ == a_stmts(sv, i as int, in_loop, st0),
            decreases stmts.len() - i,
        {
            proof {
                assert(sv[i as int] == stmts@[i as int]@);
            }
            self.visit_stmt(&stmts[i], in_loop, stmts, i + 1);
            i = i + 1;
        }
    }
}

/// The state a function body starts from.
pub open spec fn a_start() -> AState {
    AState { points: Seq::empty(), cands: Set::empty(), declared: Set::empty() }
}

/// What walking the body of `f` finds.
pub open spec fn body_analysis(f: FuncDef) -> AState {
    a_stmts(stmts_view(f.block@), f.block@.len() as int, false, a_start())
}

/// `a` is the analysis of function `f`: its await points numbered from 1 in
/// the order of the body, with whether each lies in a loop, and the locals
/// that live across an await point, sorted.
pub open spec fn analysis_of(a: AsyncFunctionAnalysis, f: FuncDef) -> bool {
    let st = body_analysis(f);
    &&& a.name == f.ident
    &&& a.await_points@.len() == st.points.len()
    &&& forall|k: int| 0 <= k < st.points.len() ==>
        (#[trigger] a.await_points@[k]).continuation_id == cont_id(k) && a.await_points@[k].in_loop == st.points[k]
    &&& strictly_sorted(views_of(a.frame_local_candidates@))
    &&& forall|x: Seq<char>| #[trigger] views_of(a.frame_local_candidates@).contains(x) <==> st.cands.contains(x)
}

/// The analysis of a function is unique: whichever way it is obtained, alone
/// or as part of a whole program, it names the same function, has the same
/// await points and the same sorted frame-local candidates.
pub proof fn lemma_analysis_unique(a: AsyncFunctionAnalysis, b: AsyncFunctionAnalysis, f: FuncDef)
    requires
        analysis_of(a, f),
        analysis_of(b, f),
    ensures
        a.name == b.name,
        a.await_points@.len() == b.await_points@.len(),
        forall|k: int| 0 <= k < a.await_points@.len() ==>
            (#[trigger] a.await_points@[k]).continuation_id == b.await_points@[k].continuation_id
                && a.await_points@[k].in_loop == b.await_points@[k].in_loop,
        views_of(a.frame_local_candidates@) == views_of(b.frame_local_candidates@),
{
    let st = body_analysis(f);
    assert forall|x: Seq<char>| views_of(a.frame_local_candidates@).contains(x) <==> views_of(b.frame_local_candidates@).contains(x) by {
        assert(views_of(a.frame_local_candidates@).contains(x) <==> st.cands.contains(x));
        assert(views_of(b.frame_local_candidates@).contains(x) <==> st.cands.contains(x));
    }
    crate::order::lemma_sorted_unique(views_of(a.frame_local_candidates@), views_of(b.frame_local_candidates@));
}

/// The program's analysis of each async function is the function's own
/// analysis.
pub proof fn lemma_program_analysis_agrees(ast: CompUnit, r: AsyncProgramAnalysis, i: int, a: AsyncFunctionAnalysis)
    requires
        r.functions@.len() == async_funcs(ast.global_defs@).len(),
        forall|k: int| 0 <= k < r.functions@.len() ==>
            analysis_of(#[trigger] r.functions@[k], async_funcs(ast.global_defs@)[k]),
        0 <= i < r.functions@.len(),
        analysis_of(a, async_funcs(ast.global_defs@)[i]),
    ensures
        r.functions@[i].name == a.name,
        r.functions@[i].await_points@.len() == a.await_points@.len(),
        forall|k: int| 0 <= k < a.await_points@.len() ==>
            (#[trigger] r.functions@[i].await_points@[k]).continuation_id == a.await_points@[k].continuation_id
                && r.functions@[i].await_points@[k].in_loop == a.await_points@[k].in_loop,
        views_of(r.functions@[i].frame_local_candidates@) == views_of(a.frame_local_candidates@),
{
    lemma_analysis_unique(r.functions@[i], a, async_funcs(ast.global_defs@)[i]);
}

/// Walking on from `st` to `st2` loses nothing: await points, candidates and
/// declared locals only grow.
pub open spec fn a_grows(st: AState, st2: AState) -> bool {
    &&& st.points.len() <= st2.points.len()
    &&& st.cands.subset_of(st2.cands)
    &&& st.declared.subset_of(st2.declared)
}

/// `st2` grows from `st`, and when an await point was met on the way, the
/// locals declared at `st` that `used` reads are candidates at `st2`.
pub open spec fn a_keeps(st: AState, st2: AState, used: Set<Seq<char>>) -> bool {
    &&& a_grows(st, st2)
    &&& st.points.len() < st2.points.len() ==> st.declared.intersect(used).subset_of(st2.cands)
}

proof fn lemma_keeps_trans(a: AState, b: AState, c: AState, used: Set<Seq<char>>)
    requires
        a_keeps(a, b, used),
        a_keeps(b, c, used),
    ensures
        a_keeps(a, c, used),
{
    if a.points.len() < c.points.len() {
        if a.points.len() < b.points.len() {
            assert(a.declared.intersect(used).subset_of(c.cands));
        } else {
            assert(a.declared.intersect(used).subset_of(b.declared.intersect(used)));
        }
    }
}

proof fn lemma_exp_keeps(e: SExp, in_loop: bool, used: Set<Seq<char>>, st: AState)
    ensures
        a_keeps(st, a_exp(e, in_loop, used, st), used),
    decreases e, 1nat,
{
    match e {
        SExp::Spanned(inner, _) => lemma_exp_keeps(*inner, in_loop, used, st),
        SExp::Await(inner) => {
            let st1 = at_await(st, in_loop, used);
            lemma_exp_keeps(*inner, in_loop, used, st1);
            assert(a_keeps(st, st1, used));
            lemma_keeps_trans(st, st1, a_exp(*inner, in_loop, used, st1), used);
        },
        SExp::Sleep(inner) => lemma_exp_keeps(*inner, in_loop, used, st),
        SExp::PromiseWait(inner) => lemma_exp_keeps(*inner, in_loop, used, st),
        SExp::UnaryExp(_, inner) => lemma_exp_keeps(*inner, in_loop, used, st),
        SExp::BinaryExp(_, l, r) => {
            let st1 = a_exp(*l, in_loop, used, st);
            lemma_exp_keeps(*l, in_loop, used, st);
            lemma_exp_keeps(*r, in_loop, used, st1);
            lemma_keeps_trans(st, st1, a_exp(*r, in_loop, used, st1), used);
        },
        SExp::ArrGet(l, r) => {
            let st1 = a_exp(*l, in_loop, used, st);
            lemma_exp_keeps(*l, in_loop, used, st);
            lemma_exp_keeps(*r, in_loop, used, st1);
            lemma_keeps_trans(st, st1, a_exp(*r, in_loop, used, st1), used);
        },
        SExp::FuncCall(_, args) => lemma_args_keeps(args, args.len() as int, in_loop, used, st),
        SExp::Field(b, _) => lemma_exp_keeps(*b, in_loop, used, st),
        SExp::PtrField(b, _) => lemma_exp_keeps(*b, in_loop, used, st),
        _ => {},
    }
}

proof fn lemma_args_keeps(args: Seq<SExp>, n: int, in_loop: bool, used: Set<Seq<char>>, st: AState)
    ensures
        a_keeps(st, a_args(args, n, in_loop, used, st), used),
    decreases args, n,
{
    if 0 < n <= args.len() {
        let st1 = a_args(args, n - 1, in_loop, used, st);
        lemma_args_keeps(args, n - 1, in_loop, used, st);
        lemma_exp_keeps(args[n - 1], in_loop, used, st1);
        lemma_keeps_trans(st, st1, a_exp(args[n - 1], in_loop, used, st1), used);
    }
}

proof fn lemma_init_keeps(i: SInit, in_loop: bool, used: Set<Seq<char>>, st: AState)
    ensures
        a_keeps(st, a_init(i, in_loop, used, st), used),
    decreases i, 1nat,
{
    match i {
        SInit::Spanned(inner, _) => lemma_init_keeps(*inner, in_loop, used, st),
        SInit::Exp(e) => lemma_exp_keeps(e, in_loop, used, st),
        SInit::Arr(items) => lemma_items_keeps(items, items.len() as int, in_loop, used, st),
    }
}

proof fn lemma_items_keeps(items: Seq<SInit>, n: int, in_loop: bool, used: Set<Seq<char>>, st: AState)
    ensures
        a_keeps(st, a_items(items, n, in_loop, used, st), used),
    decreases items, n,
{
    if 0 < n <= items.len() {
        let st1 = a_items(items, n - 1, in_loop, used, st);
        lemma_items_keeps(items, n - 1, in_loop, used, st);
        lemma_init_keeps(items[n - 1], in_loop, used, st1);
        lemma_keeps_trans(st, st1, a_init(items[n - 1], in_loop, used, st1), used);
    }
}

proof fn lemma_decls_keeps(ds: Seq<SDecl>, n: int, in_loop: bool, used: Set<Seq<char>>, st: AState)
    ensures
        a_keeps(st, a_decls(ds, n, in_loop, used, st), used),
    decreases n,
{
    if 0 < n <= ds.len() {
        let st0 = a_decls(ds, n - 1, in_loop, used, st);
        lemma_decls_keeps(ds, n - 1, in_loop, used, st);
        let d = ds[n - 1];
        let name = spec_var_decl_name(d.var);
        let st1 = match d.init {
            Some(i) => if spec_init_contains_await(i) {
                AState { points: st0.points, cands: st0.cands, declared: st0.declared.insert(name) }
            } else {
                st0
            },
            None => st0,
        };
        assert(a_keeps(st0, st1, used));
        let st2 = match d.init {
            Some(i) => a_init(i, in_loop, used, st1),
            None => st1,
        };
        match d.init {
            Some(i) => lemma_init_keeps(i, in_loop, used, st1),
            None => {},
        }
        lemma_keeps_trans(st0, st1, st2, used);
        let st3 = AState { points: st2.points, cands: st2.cands, declared: st2.declared.insert(name) };
        assert(a_keeps(st2, st3, used));
        lemma_keeps_trans(st0, st2, st3, used);
        assert(a_decl(d, in_loop, used, st0) == st3);
        lemma_keeps_trans(st, st0, st3, used);
    }
}

proof fn lemma_stmt_grows(s: SStmt, in_loop: bool, used: Set<Seq<char>>, st: AState)
    ensures
        a_grows(st, a_stmt(s, in_loop, used, st)),
        sub_stmts(s).len() == 0 ==> a_keeps(st, a_stmt(s, in_loop, used, st), used),
    decreases s, 0nat,
{
    match s {
        SStmt::Spanned(inner, _) => lemma_stmt_grows(*inner, in_loop, used, st),
        SStmt::Block(ss) => lemma_stmts_grow(ss, ss.len() as int, in_loop, st),
        SStmt::Assign(l, r) => {
            let st1 = a_exp(l, in_loop, used, st);
            lemma_exp_keeps(l, in_loop, used, st);
            lemma_exp_keeps(r, in_loop, used, st1);
            lemma_keeps_trans(st, st1, a_exp(r, in_loop, used, st1), used);
        },
        SStmt::Decl(_, ds) => lemma_decls_keeps(ds, ds.len() as int, in_loop, used, st),
        SStmt::Exp(e) => lemma_exp_keeps(e, in_loop, used, st),
        SStmt::Return(Some(e)) => lemma_exp_keeps(e, in_loop, used, st),
        SStmt::PromiseWait(e) => lemma_exp_keeps(e, in_loop, used, st),
        SStmt::If(c, t) => {
            let st1 = a_exp(c, in_loop, used, st);
            lemma_exp_keeps(c, in_loop, used, st);
            lemma_stmt_grows(*t, in_loop, used, st1);
        },
        SStmt::IfElse(c, t, e) => {
            let st1 = a_exp(c, in_loop, used, st);
            lemma_exp_keeps(c, in_loop, used, st);
            let st2 = a_stmt(*t, in_loop, used, st1);
            lemma_stmt_grows(*t, in_loop, used, st1);
            lemma_stmt_grows(*e, in_loop, used, st2);
        },
        SStmt::While(c, b) => {
            let st1 = a_exp(c, true, used, st);
            lemma_exp_keeps(c, true, used, st);
            lemma_stmt_grows(*b, true, used, st1);
        },
        _ => {},
    }
}

proof fn lemma_stmts_grow(ss: Seq<SStmt>, n: int, in_loop: bool, st: AState)
    ensures
        a_grows(st, a_stmts(ss, n, in_loop, st)),
    decreases ss, n,
{
    if 0 < n <= ss.len() {
        lemma_stmts_grow(ss, n - 1, in_loop, st);
        lemma_stmt_grows(ss[n - 1], in_loop, used_after(ss, n), a_stmts(ss, n - 1, in_loop, st));
    }
}

proof fn lemma_stmts_grow_from(ss: Seq<SStmt>, m: int, n: int, in_loop: bool, st: AState)
    requires
        0 <= m <= n <= ss.len(),
    ensures
        a_grows(a_stmts(ss, m, in_loop, st), a_stmts(ss, n, in_loop, st)),
    decreases n,
{
    if m < n {
        lemma_stmts_grow_from(ss, m, n - 1, in_loop, st);
        lemma_stmt_grows(ss[n - 1], in_loop, used_after(ss, n), a_stmts(ss, n - 1, in_loop, st));
    }
}

/// A local declared before a statement of the function body that awaits
/// (one with no statements inside it, such as `int b = await f();`), and read
/// by a later statement of the body, in either branch of an `if`-`else` (the
/// `else` branch included) or anywhere else in it, is a frame-local candidate.
pub proof fn lemma_read_after_await_is_candidate(a: AsyncFunctionAnalysis, f: FuncDef, i: int, j: int, x: Seq<char>)
    requires
        analysis_of(a, f),
        0 <= i < j < f.block@.len(),
        sub_stmts(stmts_view(f.block@)[i]).len() == 0,
        a_stmts(stmts_view(f.block@), i, false, a_start()).points.len()
            < a_stmts(stmts_view(f.block@), i + 1, false, a_start()).points.len(),
        a_stmts(stmts_view(f.block@), i, false, a_start()).declared.contains(x),
        stmt_used(stmts_view(f.block@)[j]).contains(x),
    ensures
        views_of(a.frame_local_candidates@).contains(x),
{
    let ss = stmts_view(f.block@);
    let n = f.block@.len() as int;
    assert(ss.len() == n);
    let st_i = a_stmts(ss, i, false, a_start());
    let used = used_after(ss, i + 1);
    let rest = ss.subrange(i + 1, n);
    lemma_stmts_used(rest, rest.len() as int, x);
    assert(rest[j - i - 1] == ss[j]);
    assert(used.contains(x));
    lemma_stmt_grows(ss[i], false, used, st_i);
    assert(a_stmts(ss, i + 1, false, a_start()).cands.contains(x));
    lemma_stmts_grow_from(ss, i + 1, n, false, a_start());
    assert(body_analysis(f).cands.contains(x));
}

/// The async functions of a program, in order.
pub open spec fn async_funcs(gs: Seq<GlobalDef>) -> Seq<FuncDef>
    decreases gs.len(),
{
    if gs.len() == 0 {
        Seq::empty()
    } else {
        let r = async_funcs(gs.drop_last());
        match gs.last() {
            GlobalDef::FuncDef(f) => if f.is_async { r.push(f) } else { r },
            _ => r,
        }
    }
}

impl FuncDef {
    /// The await points of the function and the locals that live across them.
    pub fn analyze_async(&self) -> (a: AsyncFunctionAnalysis)
        ensures
            analysis_of(a, *self),
    {
        let mut analyzer = AsyncFunctionAnalyzer::new();
        analyzer.visit_stmts(&self.block, false);
        let ghost st = analyzer@;
        let mut sorted: Vec<String> = Vec::new();
        let ghost cn = analyzer.frame_local_candidates.names@;
        let mut i: usize = 0;
        while i < analyzer.frame_local_candidates.names.len()
            invariant
                i <= cn.len(),
                cn == analyzer.frame_local_candidates.names@,
                strictly_sorted(views_of(sorted@)),
                forall|x: Seq<char>| #[trigger] views_of(sorted@).contains(x) <==> exists|j: int| 0 <= j < i && cn[j]@ == x,
            decreases cn.len() - i,
        {
            let ghost before = views_of(sorted@);
            insert_sorted(&mut sorted, analyzer.frame_local_candidates.names[i].clone());
            proof {
                assert forall|x: Seq<char>| #[trigger] views_of(sorted@).contains(x) <==> exists|j: int| 0 <= j < i + 1 && cn[j]@ == x by {
                    if exists|j: int| 0 <= j < i + 1 && cn[j]@ == x {
                        let j = choose|j: int| 0 <= j < i + 1 && cn[j]@ == x;
                        if j < i {
                            assert(before.contains(x));
                        }
                    }
                }
            }
            i = i + 1;
        }
        let a = AsyncFunctionAnalysis {
            name: self.ident.clone(),
            await_points: analyzer.await_points,
            frame_local_candidates: sorted,
        };
        proof {
            assert forall|k: int| 0 <= k < st.points.len() implies
                (#[trigger] a.await_points@[k]).continuation_id == cont_id(k) && a.await_points@[k].in_loop == st.points[k] by {
                assert(st.points[k] == a.await_points@[k].in_loop);
            }
        }
        a
    }
}

impl CompUnit {
    /// The analysis of every async function, in the order of the program.
    pub fn analyze_async(&self) -> (r: AsyncProgramAnalysis)
        ensures
            r.functions@.len() == async_funcs(self.global_defs@).len(),
            forall|i: int| 0 <= i < r.functions@.len() ==>
                analysis_of(#[trigger] r.functions@[i], async_funcs(self.global_defs@)[i]),
    {
        let ghost gs = self.global_defs@;
        let mut functions: Vec<AsyncFunctionAnalysis> = Vec::new();
        let mut g: usize = 0;
        proof {
            assert(gs.take(0) =~= Seq::<GlobalDef>::empty());
        }
        while g < self.global_defs.len()
            invariant
                g <= gs.len(),
                gs == self.global_defs@,
                functions@.len() == async_funcs(gs.take(g as int)).len(),
                forall|i: int| 0 <= i < functions@.len() ==>
                    analysis_of(#[trigger] functions@[i], async_funcs(gs.take(g as int))[i]),
            decreases gs.len() - g,
        {
            proof {
                assert(gs.take(g + 1).drop_last() =~= gs.take(g as int));
                assert(gs.take(g + 1).last() == gs[g as int]);
            }
            match &self.global_defs[g] {
                GlobalDef::FuncDef(func) => {
                    if func.is_async {
                        let a = func.analyze_async();
                        functions.push(a);
                        proof {
                            assert forall|i: int| 0 <= i < functions@.len() implies
                                analysis_of(#[trigger] functions@[i], async_funcs(gs.take(g + 1))[i]) by {
                                if i < functions@.len() - 1 {
                                    assert(async_funcs(gs.take(g + 1))[i] == async_funcs(gs.take(g as int))[i]);
                                }
                            }
                        }
                    }
                }
                _ => {}
            }
            g = g + 1;
        }
        proof {
            assert(gs.take(g as int) =~= gs);
        }
        AsyncProgramAnalysis { functions }
    }
}

} // verus!
