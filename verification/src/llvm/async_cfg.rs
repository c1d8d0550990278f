use vstd::prelude::*;
use crate::lalr::{
    lemma_arr_view, lemma_block_view, lemma_call_view, BinaryOp, Exp, FuncDef, InitVal, SDecl,
    SExp, SInit, SStmt, SType, SingleDecl, Stmt, Type, VarDecl,
};
use crate::syntax::{spec_exp_contains_await, spec_var_decl_name, var_decl_name};
use crate::table::{has_name, NameSet};
use crate::order::{insert_sorted, lemma_sorted_distinct, strictly_sorted, views_of};
use crate::text::{cat, usize_text, nat_text};

verus! {

broadcast use vstd::std_specs::vec::group_vec_axioms;

// ---------------------------------------------------------------------------
// The control-flow graph of an async function.

/// A function split into basic blocks at every suspension point.
#[derive(Debug)]
pub struct AsyncCfgFunction {
    pub entry: usize,
    pub blocks: Vec<AsyncBlock>,
}

#[derive(Debug)]
pub struct AsyncBlock {
    pub id: usize,
    pub ops: Vec<AsyncOp>,
    pub terminator: AsyncTerminator,
}

#[derive(Debug)]
pub enum AsyncOp {
    Decl(Type, Vec<SingleDecl>),
    Assign(Exp, Exp),
    Eval(Exp),
    PromiseWait(Exp),
}

#[derive(Debug)]
pub enum AsyncTerminator {
    Return(Option<Exp>),
    Jump(usize),
    Branch { cond: Exp, then_block: usize, else_block: usize },
    Await(AwaitTerminator),
    Unreachable,
}

/// A suspension: the block waits for `child`, stores its result in
/// `result_target` and continues in `resume_block`.
#[derive(Debug)]
pub struct AwaitTerminator {
    pub state: i32,
    pub child: Exp,
    pub result_target: Option<String>,
    pub resume_block: usize,
    pub resume_stmt_index: usize,
}

/// The variables whose values must survive the suspension with number `state`.
#[derive(Debug, PartialEq, Eq)]
pub struct LiveAcrossAwait {
    pub state: i32,
    pub vars: Vec<String>,
}

/// The blocks control can pass to after a block with terminator `t`.
pub open spec fn spec_successors(t: AsyncTerminator) -> Seq<usize> {
    match t {
        AsyncTerminator::Jump(target) => seq![target],
        AsyncTerminator::Branch { then_block, else_block, .. } => seq![then_block, else_block],
        AsyncTerminator::Await(a) => seq![a.resume_block],
        _ => Seq::empty(),
    }
}

pub open spec fn targets_below(t: AsyncTerminator, n: nat) -> bool {
    forall|k: int| 0 <= k < spec_successors(t).len() ==> (#[trigger] spec_successors(t)[k]) < n
}

/// Every block knows its own position and jumps only to blocks that exist.
pub open spec fn blocks_wf(blocks: Seq<AsyncBlock>) -> bool {
    forall|i: int| 0 <= i < blocks.len() ==> {
        &&& (#[trigger] blocks[i]).id == i
        &&& targets_below(blocks[i].terminator, blocks.len())
    }
}

/// No two suspensions share a state number, and every state number is positive.
pub open spec fn await_states_distinct(blocks: Seq<AsyncBlock>, below: int) -> bool {
    &&& forall|i: int| 0 <= i < blocks.len() && (#[trigger] blocks[i]).terminator is Await ==>
        1 <= blocks[i].terminator->Await_0.state < below
    &&& forall|i: int, j: int|
        0 <= i < blocks.len() && 0 <= j < blocks.len() && i != j
            && (#[trigger] blocks[i]).terminator is Await && (#[trigger] blocks[j]).terminator is Await
            ==> blocks[i].terminator->Await_0.state != blocks[j].terminator->Await_0.state
}

impl AsyncCfgFunction {
    pub open spec fn wf(&self) -> bool {
        &&& self.entry < self.blocks@.len()
        &&& blocks_wf(self.blocks@)
    }
}

// ---------------------------------------------------------------------------
// The size of a syntax tree: it bounds how many blocks, suspensions and
// temporaries lowering creates.

pub open spec fn exp_cost(e: SExp) -> nat
    decreases e, 1nat,
{
    match e {
        SExp::Spanned(i, _) => 1 + exp_cost(*i),
        SExp::UnaryExp(_, i) => 1 + exp_cost(*i),
        SExp::Await(i) => 1 + exp_cost(*i),
        SExp::Sleep(i) => 1 + exp_cost(*i),
        SExp::PromiseWait(i) => 1 + exp_cost(*i),
        SExp::Field(i, _) => 1 + exp_cost(*i),
        SExp::PtrField(i, _) => 1 + exp_cost(*i),
        SExp::BinaryExp(_, l, r) => 1 + exp_cost(*l) + exp_cost(*r),
        SExp::ArrGet(l, r) => 1 + exp_cost(*l) + exp_cost(*r),
        SExp::FuncCall(_, args) => 1 + args_cost(args, args.len() as int),
        _ => 1,
    }
}

/// The cost of the first `n` arguments.
pub open spec fn args_cost(args: Seq<SExp>, n: int) -> nat
    decreases args, n,
{
    if 0 < n <= args.len() {
        args_cost(args, n - 1) + exp_cost(args[n - 1])
    } else {
        0
    }
}

pub open spec fn init_cost(i: SInit) -> nat
    decreases i, 1nat,
{
    match i {
        SInit::Spanned(inner, _) => 1 + init_cost(*inner),
        SInit::Exp(e) => 1 + exp_cost(e),
        SInit::Arr(items) => 1 + items_cost(items, items.len() as int),
    }
}

pub open spec fn items_cost(items: Seq<SInit>, n: int) -> nat
    decreases items, n,
{
    if 0 < n <= items.len() {
        items_cost(items, n - 1) + init_cost(items[n - 1])
    } else {
        0
    }
}

pub open spec fn decl_cost(d: SDecl) -> nat {
    match d.init {
        Some(i) => init_cost(i),
        None => 0,
    }
}

pub open spec fn decls_cost(ds: Seq<SDecl>, n: int) -> nat
    decreases n,
{
    if 0 < n <= ds.len() {
        decls_cost(ds, n - 1) + decl_cost(ds[n - 1])
    } else {
        0
    }
}

pub open spec fn opt_exp_cost(e: Option<SExp>) -> nat {
    match e {
        Some(e) => exp_cost(e),
        None => 0,
    }
}

pub open spec fn stmt_cost(s: SStmt) -> nat
    decreases s, 1nat,
{
    match s {
        SStmt::Spanned(inner, _) => 1 + stmt_cost(*inner),
        SStmt::Block(ss) => 1 + stmts_cost(ss, ss.len() as int),
        SStmt::Assign(l, r) => 1 + exp_cost(l) + exp_cost(r),
        SStmt::Decl(_, ds) => 1 + decls_cost(ds, ds.len() as int),
        SStmt::Exp(e) => 1 + exp_cost(e),
        SStmt::If(c, t) => 1 + exp_cost(c) + stmt_cost(*t),
        SStmt::IfElse(c, t, e) => 1 + exp_cost(c) + stmt_cost(*t) + stmt_cost(*e),
        SStmt::While(c, b) => 1 + exp_cost(c) + stmt_cost(*b),
        SStmt::PromiseWait(e) => 1 + exp_cost(e),
        SStmt::Return(e) => 1 + opt_exp_cost(e),
        _ => 1,
    }
}

pub open spec fn stmts_cost(ss: Seq<SStmt>, n: int) -> nat
    decreases ss, n,
{
    if 0 < n <= ss.len() {
        stmts_cost(ss, n - 1) + stmt_cost(ss[n - 1])
    } else {
        0
    }
}

/// The cost of a function body.
pub open spec fn body_cost(f: FuncDef) -> nat {
    stmts_cost(crate::lalr::stmts_view(f.block@), f.block@.len() as int)
}

/// An expression with every await replaced, in evaluation order, by a fresh
/// temporary numbered from `t` on; the second part is the next free number.
pub open spec fn lowered_exp(e: SExp, t: nat) -> (SExp, nat)
    decreases e, 1nat,
{
    match e {
        SExp::Spanned(i, s) => (SExp::Spanned(Box::new(lowered_exp(*i, t).0), s), lowered_exp(*i, t).1),
        SExp::Await(i) => (SExp::Ident(await_temp_prefix() + nat_text(lowered_exp(*i, t).1)), lowered_exp(*i, t).1 + 1),
        SExp::UnaryExp(op, i) => (SExp::UnaryExp(op, Box::new(lowered_exp(*i, t).0)), lowered_exp(*i, t).1),
        SExp::Sleep(i) => (SExp::Sleep(Box::new(lowered_exp(*i, t).0)), lowered_exp(*i, t).1),
        SExp::PromiseWait(i) => (SExp::PromiseWait(Box::new(lowered_exp(*i, t).0)), lowered_exp(*i, t).1),
        SExp::Field(i, f) => (SExp::Field(Box::new(lowered_exp(*i, t).0), f), lowered_exp(*i, t).1),
        SExp::PtrField(i, f) => (SExp::PtrField(Box::new(lowered_exp(*i, t).0), f), lowered_exp(*i, t).1),
        SExp::BinaryExp(op, l, r) => (
            SExp::BinaryExp(op, Box::new(lowered_exp(*l, t).0), Box::new(lowered_exp(*r, lowered_exp(*l, t).1).0)),
            lowered_exp(*r, lowered_exp(*l, t).1).1,
        ),
        SExp::ArrGet(l, r) => (
            SExp::ArrGet(Box::new(lowered_exp(*l, t).0), Box::new(lowered_exp(*r, lowered_exp(*l, t).1).0)),
            lowered_exp(*r, lowered_exp(*l, t).1).1,
        ),
        SExp::FuncCall(n, args) => (SExp::FuncCall(n, lowered_args(args, args.len() as int, t).0), lowered_args(args, args.len() as int, t).1),
        _ => (e, t),
    }
}

/// The first `n` arguments lowered one after another.
pub open spec fn lowered_args(args: Seq<SExp>, n: int, t: nat) -> (Seq<SExp>, nat)
    decreases args, n,
{
    if 0 < n <= args.len() {
        (
            lowered_args(args, n - 1, t).0.push(lowered_exp(args[n - 1], lowered_args(args, n - 1, t).1).0),
            lowered_exp(args[n - 1], lowered_args(args, n - 1, t).1).1,
        )
    } else {
        (Seq::empty(), t)
    }
}

/// An initializer with its expressions lowered one after another.
pub open spec fn lowered_init(i: SInit, t: nat) -> (SInit, nat)
    decreases i, 1nat,
{
    match i {
        SInit::Spanned(inner, s) => (SInit::Spanned(Box::new(lowered_init(*inner, t).0), s), lowered_init(*inner, t).1),
        SInit::Exp(e) => (SInit::Exp(lowered_exp(e, t).0), lowered_exp(e, t).1),
        SInit::Arr(items) => (SInit::Arr(lowered_items(items, items.len() as int, t).0), lowered_items(items, items.len() as int, t).1),
    }
}

pub open spec fn lowered_items(items: Seq<SInit>, n: int, t: nat) -> (Seq<SInit>, nat)
    decreases items, n,
{
    if 0 < n <= items.len() {
        (
            lowered_items(items, n - 1, t).0.push(lowered_init(items[n - 1], lowered_items(items, n - 1, t).1).0),
            lowered_init(items[n - 1], lowered_items(items, n - 1, t).1).1,
        )
    } else {
        (Seq::empty(), t)
    }
}

/// Whether control surely goes on after `s`, when it starts in an open block.
pub open spec fn stmt_continues(s: SStmt) -> bool
    decreases s, 1nat,
{
    match s {
        SStmt::Spanned(i, _) => stmt_continues(*i),
        SStmt::Block(ss) => stmts_continue(ss, ss.len() as int),
        SStmt::Return(_) => false,
        SStmt::Break => false,
        SStmt::Continue => false,
        _ => true,
    }
}

pub open spec fn stmts_continue(ss: Seq<SStmt>, n: int) -> bool
    decreases ss, n,
{
    if 0 < n <= ss.len() {
        stmts_continue(ss, n - 1) && stmt_continues(ss[n - 1])
    } else {
        true
    }
}

/// Whether `s` is a `return`.
pub open spec fn stmt_returns(s: SStmt) -> bool
    decreases s,
{
    match s {
        SStmt::Spanned(i, _) => stmt_returns(*i),
        SStmt::Return(_) => true,
        _ => false,
    }
}

// ---------------------------------------------------------------------------
// Building the graph.

#[derive(Debug, Clone, Copy)]
struct LoopTargets {
    break_block: usize,
    continue_block: usize,
}

struct CfgBuilder {
    blocks: Vec<AsyncBlock>,
    state: i32,
    temp_id: usize,
    loop_stack: Vec<LoopTargets>,
}

/// The largest value a suspension number may take.
pub open spec fn state_limit() -> int {
    i32::MAX as int
}

/// The prefix of every temporary that receives the value of an await.
pub open spec fn await_temp_prefix() -> Seq<char> {
    "__sysy_cfg_await_tmp_"@
}


// ---------------------------------------------------------------------------
// The graph as plain values, and how lowering builds it.

pub enum SOp {
    Decl(SType, Seq<SDecl>),
    Assign(SExp, SExp),
    Eval(SExp),
    PromiseWait(SExp),
}

pub enum STerm {
    Return(Option<SExp>),
    Jump(usize),
    Branch(SExp, usize, usize),
    /// State number, awaited expression, result variable, resume block and
    /// resume position.
    Await(int, SExp, Option<Seq<char>>, usize, usize),
    Unreachable,
}

pub struct SBlock {
    pub id: usize,
    pub ops: Seq<SOp>,
    pub term: STerm,
}

impl View for AsyncOp {
    type V = SOp;

    open spec fn view(&self) -> SOp {
        match self {
            AsyncOp::Decl(t, ds) => SOp::Decl(t@, crate::lalr::decls_view(ds@)),
            AsyncOp::Assign(l, r) => SOp::Assign(l@, r@),
            AsyncOp::Eval(e) => SOp::Eval(e@),
            AsyncOp::PromiseWait(e) => SOp::PromiseWait(e@),
        }
    }
}

impl View for AsyncTerminator {
    type V = STerm;

    open spec fn view(&self) -> STerm {
        match self {
            AsyncTerminator::Return(e) => STerm::Return(match e {
                Some(x) => Some(x@),
                None => None,
            }),
            AsyncTerminator::Jump(t) => STerm::Jump(*t),
            AsyncTerminator::Branch { cond, then_block, else_block } => STerm::Branch(cond@, *then_block, *else_block),
            AsyncTerminator::Await(a) => STerm::Await(a.state as int, a.child@, match a.result_target {
                Some(x) => Some(x@),
                None => None,
            }, a.resume_block, a.resume_stmt_index),
            AsyncTerminator::Unreachable => STerm::Unreachable,
        }
    }
}

impl View for AsyncBlock {
    type V = SBlock;

    open spec fn view(&self) -> SBlock {
        SBlock { id: self.id, ops: Seq::new(self.ops@.len(), |i: int| self.ops@[i]@), term: self.terminator@ }
    }
}

/// An optional name as plain text.
pub open spec fn opt_str_view(o: Option<String>) -> Option<Seq<char>> {
    match o {
        Some(x) => Some(x@),
        None => None,
    }
}

/// The blocks of a graph as plain values.
pub open spec fn blocks_view(bs: Seq<AsyncBlock>) -> Seq<SBlock> {
    Seq::new(bs.len(), |i: int| bs[i]@)
}

/// A graph under construction: its blocks, the next state number, the next
/// temporary number, and the enclosing loops as (break, continue) blocks.
pub struct SCfg {
    pub blocks: Seq<SBlock>,
    pub state: int,
    pub temp: nat,
    pub loops: Seq<(usize, usize)>,
}

pub open spec fn sc_new_block(g: SCfg) -> (SCfg, usize) {
    (SCfg { blocks: g.blocks.push(SBlock { id: g.blocks.len() as usize, ops: Seq::empty(), term: STerm::Unreachable }), ..g },
     g.blocks.len() as usize)
}

pub open spec fn sc_open(g: SCfg, b: usize) -> bool {
    g.blocks[b as int].term is Unreachable
}

pub open spec fn sc_terminate(g: SCfg, b: usize, t: STerm) -> SCfg {
    if sc_open(g, b) {
        SCfg { blocks: g.blocks.update(b as int, SBlock { term: t, ..g.blocks[b as int] }), ..g }
    } else {
        g
    }
}

pub open spec fn sc_push_op(g: SCfg, b: usize, op: SOp) -> SCfg {
    if sc_open(g, b) {
        SCfg { blocks: g.blocks.update(b as int, SBlock { ops: g.blocks[b as int].ops.push(op), ..g.blocks[b as int] }), ..g }
    } else {
        g
    }
}

/// Ends block `cur` in a suspension on `child` and opens the resume block.
pub open spec fn sc_suspend(g: SCfg, cur: usize, child: SExp, target: Option<Seq<char>>, idx: usize) -> (SCfg, usize) {
    let g1 = sc_new_block(g).0;
    let resume = sc_new_block(g).1;
    let g2 = SCfg { state: g1.state + 1, ..g1 };
    (sc_terminate(g2, cur, STerm::Await(g.state, child, target, resume, idx)), resume)
}

/// Lowering an expression in block `cur`: the graph after it, the block in
/// which control continues, and the expression with its awaits replaced.
pub open spec fn sc_exp(g: SCfg, cur: usize, e: SExp) -> (SCfg, usize, SExp)
    decreases e, 1nat,
{
    match e {
        SExp::Spanned(i, s) => {
            let r = sc_exp(g, cur, *i);
            (r.0, r.1, SExp::Spanned(Box::new(r.2), s))
        },
        SExp::Await(i) => {
            let r = sc_exp(g, cur, *i);
            let name = await_temp_prefix() + nat_text(r.0.temp);
            let g1 = SCfg { temp: r.0.temp + 1, ..r.0 };
            let s = sc_suspend(g1, r.1, r.2, Some(name), 0);
            (s.0, s.1, SExp::Ident(name))
        },
        SExp::UnaryExp(op, i) => {
            let r = sc_exp(g, cur, *i);
            (r.0, r.1, SExp::UnaryExp(op, Box::new(r.2)))
        },
        SExp::Sleep(i) => {
            let r = sc_exp(g, cur, *i);
            (r.0, r.1, SExp::Sleep(Box::new(r.2)))
        },
        SExp::PromiseWait(i) => {
            let r = sc_exp(g, cur, *i);
            (r.0, r.1, SExp::PromiseWait(Box::new(r.2)))
        },
        SExp::Field(i, f) => {
            let r = sc_exp(g, cur, *i);
            (r.0, r.1, SExp::Field(Box::new(r.2), f))
        },
        SExp::PtrField(i, f) => {
            let r = sc_exp(g, cur, *i);
            (r.0, r.1, SExp::PtrField(Box::new(r.2), f))
        },
        SExp::BinaryExp(op, l, rr) => {
            let a = sc_exp(g, cur, *l);
            let b = sc_exp(a.0, a.1, *rr);
            (b.0, b.1, SExp::BinaryExp(op, Box::new(a.2), Box::new(b.2)))
        },
        SExp::ArrGet(l, rr) => {
            let a = sc_exp(g, cur, *l);
            let b = sc_exp(a.0, a.1, *rr);
            (b.0, b.1, SExp::ArrGet(Box::new(a.2), Box::new(b.2)))
        },
        SExp::FuncCall(n, args) => {
            let r = sc_args(g, cur, args, args.len() as int);
            (r.0, r.1, SExp::FuncCall(n, r.2))
        },
        _ => (g, cur, e),
    }
}

pub open spec fn sc_args(g: SCfg, cur: usize, args: Seq<SExp>, n: int) -> (SCfg, usize, Seq<SExp>)
    decreases args, n,
{
    if 0 < n <= args.len() {
        let a = sc_args(g, cur, args, n - 1);
        let b = sc_exp(a.0, a.1, args[n - 1]);
        (b.0, b.1, a.2.push(b.2))
    } else {
        (g, cur, Seq::empty())
    }
}

pub open spec fn sc_init(g: SCfg, cur: usize, i: SInit) -> (SCfg, usize, SInit)
    decreases i, 1nat,
{
    match i {
        SInit::Spanned(inner, s) => {
            let r = sc_init(g, cur, *inner);
            (r.0, r.1, SInit::Spanned(Box::new(r.2), s))
        },
        SInit::Exp(e) => {
            let r = sc_exp(g, cur, e);
            (r.0, r.1, SInit::Exp(r.2))
        },
        SInit::Arr(items) => {
            let r = sc_items(g, cur, items, items.len() as int);
            (r.0, r.1, SInit::Arr(r.2))
        },
    }
}

pub open spec fn sc_items(g: SCfg, cur: usize, items: Seq<SInit>, n: int) -> (SCfg, usize, Seq<SInit>)
    decreases items, n,
{
    if 0 < n <= items.len() {
        let a = sc_items(g, cur, items, n - 1);
        let b = sc_init(a.0, a.1, items[n - 1]);
        (b.0, b.1, a.2.push(b.2))
    } else {
        (g, cur, Seq::empty())
    }
}

/// Lowering the initializers of the first `n` declarations.
pub open spec fn sc_decls(g: SCfg, cur: usize, ds: Seq<SDecl>, n: int) -> (SCfg, usize, Seq<SDecl>)
    decreases n,
{
    if 0 < n <= ds.len() {
        let a = sc_decls(g, cur, ds, n - 1);
        let d = ds[n - 1];
        match d.init {
            Some(i) => {
                let b = sc_init(a.0, a.1, i);
                (b.0, b.1, a.2.push(SDecl { span: d.span, var: d.var, init: Some(b.2) }))
            },
            None => (a.0, a.1, a.2.push(d)),
        }
    } else {
        (g, cur, Seq::empty())
    }
}

/// Lowering a condition into branches to `t` and `e`; the block that holds
/// the last branch.
pub open spec fn sc_cond(g: SCfg, cur: usize, c: SExp, t: usize, e: usize) -> (SCfg, usize)
    decreases c,
{
    match c {
        SExp::BinaryExp(BinaryOp::And, l, r) => {
            let (g1, rb) = sc_new_block(g);
            let (g2, c1) = sc_cond(g1, cur, *l, rb, e);
            sc_cond(sc_terminate(g2, c1, STerm::Jump(e)), rb, *r, t, e)
        },
        SExp::BinaryExp(BinaryOp::Or, l, r) => {
            let (g1, rb) = sc_new_block(g);
            let (g2, c1) = sc_cond(g1, cur, *l, t, rb);
            sc_cond(sc_terminate(g2, c1, STerm::Jump(t)), rb, *r, t, e)
        },
        _ => {
            let x = sc_exp(g, cur, c);
            (sc_terminate(x.0, x.1, STerm::Branch(x.2, t, e)), x.1)
        },
    }
}

/// Lowering a statement starting in block `cur`; the block in which control
/// continues.
pub open spec fn sc_stmt(g: SCfg, cur: usize, s: SStmt) -> (SCfg, usize)
    decreases s, 1nat,
{
    match s {
        SStmt::Spanned(i, _) => sc_stmt(g, cur, *i),
        SStmt::Block(ss) => sc_stmts(g, cur, ss, ss.len() as int),
        SStmt::Decl(ty, ds) => {
            let a = sc_decls(g, cur, ds, ds.len() as int);
            (sc_push_op(a.0, a.1, SOp::Decl(ty, a.2)), a.1)
        },
        SStmt::Assign(l, r) => {
            let a = sc_exp(g, cur, l);
            let b = sc_exp(a.0, a.1, r);
            (sc_push_op(b.0, b.1, SOp::Assign(a.2, b.2)), b.1)
        },
        SStmt::Exp(e) => match e {
            SExp::Await(inner) => sc_suspend(g, cur, *inner, None, 0),
            _ => {
                let a = sc_exp(g, cur, e);
                (sc_push_op(a.0, a.1, SOp::Eval(a.2)), a.1)
            },
        },
        SStmt::PromiseWait(e) => {
            let a = sc_exp(g, cur, e);
            (sc_push_op(a.0, a.1, SOp::PromiseWait(a.2)), a.1)
        },
        SStmt::Return(e) => match e {
            Some(x) => {
                let a = sc_exp(g, cur, x);
                (sc_terminate(a.0, a.1, STerm::Return(Some(a.2))), a.1)
            },
            None => (sc_terminate(g, cur, STerm::Return(None)), cur),
        },
        SStmt::If(c, t) => {
            let (g1, tb) = sc_new_block(g);
            let (g2, eb) = sc_new_block(g1);
            let (g3, c1) = sc_cond(g2, cur, c, tb, eb);
            let g4 = sc_terminate(g3, c1, STerm::Jump(eb));
            let (g5, te) = sc_stmt(g4, tb, *t);
            (sc_terminate(g5, te, STerm::Jump(eb)), eb)
        },
        SStmt::IfElse(c, t, e) => {
            let (g1, tb) = sc_new_block(g);
            let (g2, elb) = sc_new_block(g1);
            let (g3, eb) = sc_new_block(g2);
            let (g4, c1) = sc_cond(g3, cur, c, tb, elb);
            let g5 = sc_terminate(g4, c1, STerm::Jump(eb));
            let (g6, te) = sc_stmt(g5, tb, *t);
            let g7 = sc_terminate(g6, te, STerm::Jump(eb));
            let (g8, ee) = sc_stmt(g7, elb, *e);
            (sc_terminate(g8, ee, STerm::Jump(eb)), eb)
        },
        SStmt::While(c, body) => {
            let (g1, cb) = sc_new_block(g);
            let (g2, bb) = sc_new_block(g1);
            let (g3, eb) = sc_new_block(g2);
            let g4 = sc_terminate(g3, cur, STerm::Jump(cb));
            let g5 = SCfg { loops: g4.loops.push((eb, cb)), ..g4 };
            let (g6, c1) = sc_cond(g5, cb, c, bb, eb);
            let g7 = sc_terminate(g6, c1, STerm::Jump(eb));
            let (g8, be) = sc_stmt(g7, bb, *body);
            let g9 = sc_terminate(g8, be, STerm::Jump(cb));
            (SCfg { loops: g9.loops.drop_last(), ..g9 }, eb)
        },
        SStmt::Break => if g.loops.len() > 0 {
            (sc_terminate(g, cur, STerm::Jump(g.loops.last().0)), cur)
        } else {
            (g, cur)
        },
        SStmt::Continue => if g.loops.len() > 0 {
            (sc_terminate(g, cur, STerm::Jump(g.loops.last().1)), cur)
        } else {
            (g, cur)
        },
        SStmt::Empty => (g, cur),
    }
}

/// Lowering the first `n` statements of a sequence; once control cannot
/// reach a statement, the rest is skipped.
pub open spec fn sc_stmts(g: SCfg, cur: usize, ss: Seq<SStmt>, n: int) -> (SCfg, usize)
    decreases ss, n,
{
    if 0 < n <= ss.len() {
        let a = sc_stmts(g, cur, ss, n - 1);
        if sc_open(a.0, a.1) {
            sc_stmt(a.0, a.1, ss[n - 1])
        } else {
            a
        }
    } else {
        (g, cur)
    }
}

/// The graph of a function body: an entry block, the statements lowered in
/// turn, and a `return` closing the block control falls out of.
pub open spec fn sc_build(body: Seq<SStmt>) -> SCfg {
    let g0 = SCfg { blocks: Seq::empty(), state: 1, temp: 0, loops: Seq::empty() };
    let (g1, entry) = sc_new_block(g0);
    let (g2, cur) = sc_stmts(g1, entry, body, body.len() as int);
    sc_terminate(g2, cur, STerm::Return(None))
}

impl CfgBuilder {
    /// The builder as plain values.
    spec fn sv(&self) -> SCfg {
        SCfg {
            blocks: blocks_view(self.blocks@),
            state: self.state as int,
            temp: self.temp_id as nat,
            loops: Seq::new(self.loop_stack@.len(), |i: int| (self.loop_stack@[i].break_block, self.loop_stack@[i].continue_block)),
        }
    }

    spec fn wf(&self) -> bool {
        &&& blocks_wf(self.blocks@)
        &&& await_states_distinct(self.blocks@, self.state as int)
        &&& 1 <= self.state
        &&& forall|k: int| 0 <= k < self.loop_stack@.len() ==> {
            &&& (#[trigger] self.loop_stack@[k]).break_block < self.blocks@.len()
            &&& self.loop_stack@[k].continue_block < self.blocks@.len()
        }
    }

    /// Blocks, suspensions and temporaries made so far, all counted together.
    spec fn used(&self) -> int {
        self.blocks@.len() + self.state + self.temp_id
    }

    /// What every lowering step keeps: well-formedness, growth only, and a
    /// bound of three units per node of the tree it lowered.
    spec fn grows(&self, old: CfgBuilder, cost: nat) -> bool {
        &&& self.wf()
        &&& self.blocks@.len() >= old.blocks@.len()
        &&& self.state >= old.state
        &&& self.temp_id >= old.temp_id
        &&& self.used() <= old.used() + 3 * cost
        &&& self.loop_stack@ == old.loop_stack@
    }

    /// How lowering an expression or initializer that started in block `c0`
    /// and ended in block `c1` changed the graph: blocks other than `c0` are
    /// left alone, each suspension added one block, one state number and one
    /// temporary, control ends in the newest block if any was added, and that
    /// block is open.
    spec fn exp_step(&self, old: CfgBuilder, c0: usize, c1: usize) -> bool {
        &&& forall|i: int| 0 <= i < old.blocks@.len() && i != c0 ==> #[trigger] self.blocks@[i] == old.blocks@[i]
        &&& self.blocks@.len() >= old.blocks@.len()
        &&& c1 == if self.blocks@.len() == old.blocks@.len() { c0 as int } else { self.blocks@.len() - 1 }
        &&& self.blocks@.len() == old.blocks@.len() ==> self.blocks@ == old.blocks@
        &&& (old.blocks@[c0 as int].terminator is Unreachable || c1 != c0) ==> self.blocks@[c1 as int].terminator is Unreachable
        &&& self.state - old.state == self.temp_id - old.temp_id
        &&& self.blocks@.len() - old.blocks@.len() == self.temp_id - old.temp_id
    }

    proof fn lemma_exp_step_trans(a: CfgBuilder, b: CfgBuilder, c: CfgBuilder, c0: usize, c1: usize, c2: usize)
        requires
            c0 < a.blocks@.len(),
            b.exp_step(a, c0, c1),
            c.exp_step(b, c1, c2),
        ensures
            c.exp_step(a, c0, c2),
    {
        assert forall|i: int| 0 <= i < a.blocks@.len() && i != c0 implies #[trigger] c.blocks@[i] == a.blocks@[i] by {
            assert(b.blocks@[i] == a.blocks@[i]);
        }
    }

    fn new() -> (b: Self)
        ensures
            b.wf(),
            b.blocks@.len() == 0,
            b.state == 1,
            b.temp_id == 0,
            b.loop_stack@.len() == 0,
    {
        CfgBuilder { blocks: Vec::new(), state: 1, temp_id: 0, loop_stack: Vec::new() }
    }

    fn new_block(&mut self) -> (id: usize)
        requires
            old(self).wf(),
        ensures
            final(self).wf(),
            id == old(self).blocks@.len(),
            final(self).blocks@.len() == old(self).blocks@.len() + 1,
            final(self).blocks@[id as int].terminator is Unreachable,
            forall|i: int| 0 <= i < old(self).blocks@.len() ==> final(self).blocks@[i] == old(self).blocks@[i],
            final(self).state == old(self).state,
            final(self).temp_id == old(self).temp_id,
            final(self).loop_stack@ == old(self).loop_stack@,
            (final(self).sv(), id) == sc_new_block(old(self).sv()),
    {
        let id = self.blocks.len();
        self.blocks.push(AsyncBlock { id, ops: Vec::new(), terminator: AsyncTerminator::Unreachable });
        proof {
            assert forall|i: int| 0 <= i < self.blocks@.len() implies
                targets_below((#[trigger] self.blocks@[i]).terminator, self.blocks@.len()) by {
                if i < id {
                    assert(targets_below(old(self).blocks@[i].terminator, old(self).blocks@.len()));
                }
            }
            let nb = self.blocks@[id as int];
            assert(nb@.ops =~= Seq::<SOp>::empty());
            assert(blocks_view(self.blocks@) =~= blocks_view(old(self).blocks@).push(
                SBlock { id: old(self).blocks@.len() as usize, ops: Seq::empty(), term: STerm::Unreachable }));
            assert(self.sv().loops =~= old(self).sv().loops);
        }
        id
    }

    fn is_open(&self, block: usize) -> (b: bool)
        requires
            block < self.blocks@.len(),
        ensures
            b == self.blocks@[block as int].terminator is Unreachable,
    {
        match self.blocks[block].terminator {
            AsyncTerminator::Unreachable => true,
            _ => false,
        }
    }

    fn terminate_if_open(&mut self, block: usize, term: AsyncTerminator)
        requires
            old(self).wf(),
            block < old(self).blocks@.len(),
            targets_below(term, old(self).blocks@.len()),
            term matches AsyncTerminator::Await(a) ==> {
                &&& 1 <= a.state < old(self).state
                &&& forall|i: int| 0 <= i < old(self).blocks@.len() && (#[trigger] old(self).blocks@[i]).terminator is Await
                    ==> old(self).blocks@[i].terminator->Await_0.state != a.state
            },
        ensures
            final(self).wf(),
            final(self).blocks@.len() == old(self).blocks@.len(),
            final(self).state == old(self).state,
            final(self).temp_id == old(self).temp_id,
            final(self).loop_stack@ == old(self).loop_stack@,
            old(self).blocks@[block as int].terminator is Unreachable ==> final(self).blocks@ == old(self).blocks@.update(
                block as int,
                AsyncBlock { id: old(self).blocks@[block as int].id, ops: old(self).blocks@[block as int].ops, terminator: term },
            ),
            !(old(self).blocks@[block as int].terminator is Unreachable) ==> final(self).blocks@ == old(self).blocks@,
            final(self).sv() == sc_terminate(old(self).sv(), block, term@),
    {
        proof {
            assert(old(self).sv().blocks[block as int] == old(self).blocks@[block as int]@);
        }
        if self.is_open(block) {
            let ghost pre = self.blocks@;
            let mut b = self.blocks.remove(block);
            b.terminator = term;
            self.blocks.insert(block, b);
            proof {
                assert forall|i: int| 0 <= i < self.blocks@.len() implies
                    #[trigger] self.blocks@[i] == (if i == block { self.blocks@[i] } else { pre[i] }) by {}
                assert forall|i: int| 0 <= i < self.blocks@.len() implies
                    (#[trigger] self.blocks@[i]).id == i && targets_below(self.blocks@[i].terminator, self.blocks@.len()) by {
                    if i != block {
                        assert(self.blocks@[i] == pre[i]);
                    }
                }
                assert forall|i: int, j: int|
                    0 <= i < self.blocks@.len() && 0 <= j < self.blocks@.len() && i != j
                        && (#[trigger] self.blocks@[i]).terminator is Await && (#[trigger] self.blocks@[j]).terminator is Await
                        implies self.blocks@[i].terminator->Await_0.state != self.blocks@[j].terminator->Await_0.state by {
                    if i != block && j != block {
                        assert(self.blocks@[i] == pre[i]);
                        assert(self.blocks@[j] == pre[j]);
                    } else if i == block {
                        assert(self.blocks@[j] == pre[j]);
                    } else {
                        assert(self.blocks@[i] == pre[i]);
                    }
                }
                assert forall|i: int| 0 <= i < self.blocks@.len() && (#[trigger] self.blocks@[i]).terminator is Await implies
                    1 <= self.blocks@[i].terminator->Await_0.state < self.state by {
                    if i != block {
                        assert(self.blocks@[i] == pre[i]);
                    }
                }
                assert(self.blocks@ =~= pre.update(block as int, AsyncBlock { id: pre[block as int].id, ops: pre[block as int].ops, terminator: term }));
                let ob = old(self).sv().blocks[block as int];
                assert(blocks_view(self.blocks@) =~= old(self).sv().blocks.update(block as int, SBlock { term: term@, ..ob }));
                assert(self.sv().loops =~= old(self).sv().loops);
            }
        }
    }

    fn push_op(&mut self, block: usize, op: AsyncOp)
        requires
            old(self).wf(),
            block < old(self).blocks@.len(),
        ensures
            final(self).wf(),
            final(self).blocks@.len() == old(self).blocks@.len(),
            final(self).state == old(self).state,
            final(self).temp_id == old(self).temp_id,
            final(self).loop_stack@ == old(self).loop_stack@,
            forall|i: int| 0 <= i < old(self).blocks@.len() && i != block ==> #[trigger] final(self).blocks@[i] == old(self).blocks@[i],
            final(self).blocks@[block as int].id == old(self).blocks@[block as int].id,
            final(self).blocks@[block as int].terminator == old(self).blocks@[block as int].terminator,
            final(self).blocks@[block as int].ops@ == if old(self).blocks@[block as int].terminator is Unreachable {
                old(self).blocks@[block as int].ops@.push(op)
            } else {
                old(self).blocks@[block as int].ops@
            },
            final(self).sv() == sc_push_op(old(self).sv(), block, op@),
    {
        if self.is_open(block) {
            let ghost pre = self.blocks@;
            let mut b = self.blocks.remove(block);
            b.ops.push(op);
            self.blocks.insert(block, b);
            proof {
                assert forall|i: int| 0 <= i < self.blocks@.len() implies
                    (#[trigger] self.blocks@[i]).id == i && targets_below(self.blocks@[i].terminator, self.blocks@.len()) by {
                    if i != block {
                        assert(self.blocks@[i] == pre[i]);
                    }
                }
                assert forall|i: int, j: int|
                    0 <= i < self.blocks@.len() && 0 <= j < self.blocks@.len() && i != j
                        && (#[trigger] self.blocks@[i]).terminator is Await && (#[trigger] self.blocks@[j]).terminator is Await
                        implies self.blocks@[i].terminator->Await_0.state != self.blocks@[j].terminator->Await_0.state by {
                    assert(self.blocks@[i].terminator == pre[i].terminator);
                    assert(self.blocks@[j].terminator == pre[j].terminator);
                }
                assert forall|i: int| 0 <= i < self.blocks@.len() && (#[trigger] self.blocks@[i]).terminator is Await implies
                    1 <= self.blocks@[i].terminator->Await_0.state < self.state by {
                    assert(self.blocks@[i].terminator == pre[i].terminator);
                }
                let ob = old(self).sv().blocks[block as int];
                assert(ob == pre[block as int]@);
                assert(self.blocks@[block as int]@.ops =~= ob.ops.push(op@));
                assert(blocks_view(self.blocks@) =~= old(self).sv().blocks.update(block as int, SBlock { ops: ob.ops.push(op@), ..ob }));
                assert(self.sv().loops =~= old(self).sv().loops);
            }
        } else {
            proof {
                assert(old(self).sv().blocks[block as int] == old(self).blocks@[block as int]@);
            }
        }
    }

    /// A fresh name for the value of an await.
    fn next_await_temp(&mut self) -> (name: String)
        requires
            old(self).temp_id < usize::MAX,
        ensures
            name@ == await_temp_prefix() + nat_text(old(self).temp_id as nat),
            final(self).temp_id == old(self).temp_id + 1,
            final(self).blocks == old(self).blocks,
            final(self).state == old(self).state,
            final(self).loop_stack == old(self).loop_stack,
            final(self).sv() == (SCfg { temp: old(self).sv().temp + 1, ..old(self).sv() }),
    {
        let digits = usize_text(self.temp_id);
        let name = cat("__sysy_cfg_await_tmp_", digits.as_str());
        self.temp_id = self.temp_id + 1;
        name
    }

    /// Ends `current` in a suspension on `child` and opens the block that
    /// resumes after it.
    fn suspend_for_await(
        &mut self,
        current: usize,
        child: Exp,
        result_target: Option<String>,
        resume_stmt_index: usize,
    ) -> (resume: usize)
        requires
            old(self).wf(),
            current < old(self).blocks@.len(),
            old(self).used() + 2 < state_limit(),
        ensures
            final(self).wf(),
            resume == old(self).blocks@.len(),
            final(self).blocks@.len() == old(self).blocks@.len() + 1,
            final(self).state == old(self).state + 1,
            final(self).temp_id == old(self).temp_id,
            final(self).loop_stack@ == old(self).loop_stack@,
            forall|i: int| 0 <= i < old(self).blocks@.len() && i != current ==> #[trigger] final(self).blocks@[i] == old(self).blocks@[i],
            final(self).blocks@[resume as int].terminator is Unreachable,
            (final(self).sv(), resume) == sc_suspend(old(self).sv(), current, child@, opt_str_view(result_target), resume_stmt_index),
    {
        let ghost g0 = self.sv();
        let ghost cv = child@;
        let ghost tv = opt_str_view(result_target);
        let resume_block = self.new_block();
        let ghost g1 = self.sv();
        let state = self.state;
        self.state = self.state + 1;
        proof {
            assert(self.sv() == SCfg { state: g1.state + 1, ..g1 });
        }
        proof {
            assert forall|i: int| 0 <= i < self.blocks@.len() && (#[trigger] self.blocks@[i]).terminator is Await implies
                1 <= self.blocks@[i].terminator->Await_0.state < self.state by {}
        }
        let term = AsyncTerminator::Await(AwaitTerminator {
            state,
            child,
            result_target,
            resume_block,
            resume_stmt_index,
        });
        proof {
            assert(spec_successors(term) == seq![resume_block]);
            assert(term@ == STerm::Await(g0.state, cv, tv, resume_block, resume_stmt_index));
            assert(g1 == sc_new_block(g0).0);
        }
        self.terminate_if_open(current, term);
        resume_block
    }

    /// Lowers an expression; every await inside it becomes a suspension whose
    /// value is read back from a fresh temporary.
    fn lower_exp(&mut self, current: &mut usize, exp: &Exp) -> (r: Exp)
        requires
            old(self).wf(),
            *old(current) < old(self).blocks@.len(),
            old(self).used() + 3 * exp_cost(exp@) < state_limit(),
        ensures
            final(self).grows(*old(self), exp_cost(exp@)),
            *final(current) < final(self).blocks@.len(),
            !spec_exp_contains_await(r@),
            final(self).exp_step(*old(self), *old(current), *final(current)),
            r@ == lowered_exp(exp@, old(self).temp_id as nat).0,
            final(self).temp_id == lowered_exp(exp@, old(self).temp_id as nat).1,
            (final(self).sv(), *final(current), r@) == sc_exp(old(self).sv(), *old(current), exp@),
        decreases exp,
    {
        let ghost s0 = *self;
        let ghost c0 = *current;
        match exp {
            Exp::Spanned(inner, span) => Exp::Spanned(Box::new(self.lower_exp(current, inner)), *span),
            Exp::Await(inner) => {
                let child = self.lower_exp(current, inner);
                let ghost s1 = *self;
                let ghost c1 = *current;
                let temp = self.next_await_temp();
                let resume = self.suspend_for_await(*current, child, Some(temp.clone()), 0);
                *current = resume;
                proof {
                    assert(self.exp_step(s1, c1, resume));
                    Self::lemma_exp_step_trans(s0, s1, *self, c0, c1, resume);
                }
                Exp::Ident(temp)
            }
            Exp::UnaryExp(op, inner) => Exp::UnaryExp(*op, Box::new(self.lower_exp(current, inner))),
            Exp::BinaryExp(op, lhs, rhs) => {
                let l = self.lower_exp(current, lhs);
                let ghost s1 = *self;
                let ghost c1 = *current;
                let r = self.lower_exp(current, rhs);
                proof {
                    Self::lemma_exp_step_trans(s0, s1, *self, c0, c1, *current);
                }
                Exp::BinaryExp(*op, Box::new(l), Box::new(r))
            }
            Exp::Sleep(inner) => Exp::Sleep(Box::new(self.lower_exp(current, inner))),
            Exp::PromiseWait(inner) => Exp::PromiseWait(Box::new(self.lower_exp(current, inner))),
            Exp::FuncCall(name, args) => {
                let ghost start = *self;
                let ghost views = exp@->FuncCall_1;
                proof {
                    lemma_call_view(exp);
                }
                let mut lowered: Vec<Exp> = Vec::new();
                let mut i: usize = 0;
                while i < args.len()
                    invariant
                        i <= args@.len(),
                        views.len() == args@.len(),
                        forall|j: int| 0 <= j < args@.len() ==> #[trigger] views[j] == args@[j]@,
                        self.grows(start, args_cost(views, i as int)),
                        *current < self.blocks@.len(),
                        start.used() + 3 * args_cost(views, args@.len() as int) + 3 < state_limit(),
                        lowered@.len() == i,
                        forall|j: int| 0 <= j < i ==> !spec_exp_contains_await(#[trigger] lowered@[j]@),
                        self.exp_step(s0, c0, *current),
                        c0 < s0.blocks@.len(),
                        forall|j: int| 0 <= j < i ==> (#[trigger] lowered@[j])@ == lowered_args(views, i as int, s0.temp_id as nat).0[j],
                        lowered_args(views, i as int, s0.temp_id as nat).0.len() == i,
                        self.temp_id == lowered_args(views, i as int, s0.temp_id as nat).1,
                        sc_args(s0.sv(), c0, views, i as int).0 == self.sv(),
                        sc_args(s0.sv(), c0, views, i as int).1 == *current,
                        sc_args(s0.sv(), c0, views, i as int).2.len() == i,
                        forall|j: int| 0 <= j < i ==> (#[trigger] lowered@[j])@ == sc_args(s0.sv(), c0, views, i as int).2[j],
                    decreases args.len() - i,
                {
                    proof {
                        lemma_args_cost_prefix(views, i as int + 1, args@.len() as int);
                    }
                    let ghost s1 = *self;
                    let ghost c1 = *current;
                    let a = self.lower_exp(current, &args[i]);
                    proof {
                        Self::lemma_exp_step_trans(s0, s1, *self, c0, c1, *current);
                    }
                    lowered.push(a);
                    i = i + 1;
                }
                let r = Exp::FuncCall(name.clone(), lowered);
                proof {
                    lemma_call_view(&r);
                    assert forall|j: int| 0 <= j < r@->FuncCall_1.len() implies !spec_exp_contains_await(r@->FuncCall_1[j]) by {
                        assert(r@->FuncCall_1[j] == lowered@[j]@);
                    }
                    assert(r@->FuncCall_1 =~= lowered_args(views, views.len() as int, s0.temp_id as nat).0);
                    assert(r@->FuncCall_1 =~= sc_args(s0.sv(), c0, views, views.len() as int).2);
                }
                r
            }
            Exp::ArrGet(base, index) => {
                let b = self.lower_exp(current, base);
                let ghost s1 = *self;
                let ghost c1 = *current;
                let i = self.lower_exp(current, index);
                proof {
                    Self::lemma_exp_step_trans(s0, s1, *self, c0, c1, *current);
                }
                Exp::ArrGet(Box::new(b), Box::new(i))
            }
            Exp::Field(base, field) => Exp::Field(Box::new(self.lower_exp(current, base)), field.clone()),
            Exp::PtrField(base, field) => Exp::PtrField(Box::new(self.lower_exp(current, base)), field.clone()),
            Exp::Number(n) => Exp::Number(*n),
            Exp::New(t) => Exp::New(t.copy()),
            Exp::Ident(n) => Exp::Ident(n.clone()),
        }
    }
}

impl CfgBuilder {
    fn lower_init(&mut self, current: &mut usize, init: &InitVal) -> (r: InitVal)
        requires
            old(self).wf(),
            *old(current) < old(self).blocks@.len(),
            old(self).used() + 3 * init_cost(init@) < state_limit(),
        ensures
            final(self).grows(*old(self), init_cost(init@)),
            *final(current) < final(self).blocks@.len(),
            final(self).exp_step(*old(self), *old(current), *final(current)),
            r@ == lowered_init(init@, old(self).temp_id as nat).0,
            final(self).temp_id == lowered_init(init@, old(self).temp_id as nat).1,
            (final(self).sv(), *final(current), r@) == sc_init(old(self).sv(), *old(current), init@),
        decreases init,
    {
        let ghost s0 = *self;
        let ghost c0 = *current;
        match init {
            InitVal::Spanned(inner, span) => InitVal::Spanned(Box::new(self.lower_init(current, inner)), *span),
            InitVal::Exp(e) => InitVal::Exp(self.lower_exp(current, e)),
            InitVal::Arr(items) => {
                let ghost start = *self;
                let ghost views = init@->Arr_0;
                proof {
                    lemma_arr_view(init);
                }
                let mut lowered: Vec<InitVal> = Vec::new();
                let mut i: usize = 0;
                while i < items.len()
                    invariant
                        i <= items@.len(),
                        views.len() == items@.len(),
                        forall|j: int| 0 <= j < items@.len() ==> #[trigger] views[j] == items@[j]@,
                        self.grows(start, items_cost(views, i as int)),
                        *current < self.blocks@.len(),
                        start.used() + 3 * items_cost(views, items@.len() as int) + 3 < state_limit(),
                        start == s0,
                        self.exp_step(s0, c0, *current),
                        c0 < s0.blocks@.len(),
                        lowered@.len() == i,
                        forall|j: int| 0 <= j < i ==> (#[trigger] lowered@[j])@ == lowered_items(views, i as int, s0.temp_id as nat).0[j],
                        lowered_items(views, i as int, s0.temp_id as nat).0.len() == i,
                        self.temp_id == lowered_items(views, i as int, s0.temp_id as nat).1,
                        sc_items(s0.sv(), c0, views, i as int).0 == self.sv(),
                        sc_items(s0.sv(), c0, views, i as int).1 == *current,
                        sc_items(s0.sv(), c0, views, i as int).2.len() == i,
                        forall|j: int| 0 <= j < i ==> (#[trigger] lowered@[j])@ == sc_items(s0.sv(), c0, views, i as int).2[j],
                    decreases items.len() - i,
                {
                    proof {
                        lemma_items_cost_prefix(views, i as int + 1, items@.len() as int);
                    }
                    let ghost s1 = *self;
                    let ghost c1 = *current;
                    let a = self.lower_init(current, &items[i]);
                    proof {
                        Self::lemma_exp_step_trans(s0, s1, *self, c0, c1, *current);
                    }
                    lowered.push(a);
                    i = i + 1;
                }
                let r = InitVal::Arr(lowered);
                proof {
                    lemma_arr_view(&r);
                    assert(r@->Arr_0 =~= lowered_items(views, views.len() as int, s0.temp_id as nat).0);
                    assert(r@->Arr_0 =~= sc_items(s0.sv(), c0, views, views.len() as int).2);
                }
                r
            }
        }
    }

    /// Lowers a condition into branches; `&&` and `||` short-circuit through
    /// blocks of their own.
    fn lower_cond(&mut self, current: usize, cond: &Exp, then_block: usize, else_block: usize) -> (r: usize)
        requires
            old(self).wf(),
            current < old(self).blocks@.len(),
            then_block < old(self).blocks@.len(),
            else_block < old(self).blocks@.len(),
            old(self).used() + 3 * exp_cost(cond@) < state_limit(),
        ensures
            final(self).grows(*old(self), exp_cost(cond@)),
            r < final(self).blocks@.len(),
            forall|i: int| 0 <= i < old(self).blocks@.len() && i != current ==> #[trigger] final(self).blocks@[i] == old(self).blocks@[i],
            r == current || r >= old(self).blocks@.len(),
            (old(self).blocks@[current as int].terminator is Unreachable || r != current) ==> (
                final(self).blocks@[r as int].terminator matches AsyncTerminator::Branch { then_block: t, else_block: e, .. }
                    && t == then_block && e == else_block),
            (final(self).sv(), r) == sc_cond(old(self).sv(), current, cond@, then_block, else_block),
        decreases cond,
    {
        let ghost s0 = *self;
        match cond {
            Exp::BinaryExp(BinaryOp::And, lhs, rhs) => {
                let rhs_block = self.new_block();
                let ghost s1 = *self;
                let cur = self.lower_cond(current, lhs, rhs_block, else_block);
                let ghost s2 = *self;
                self.terminate_if_open(cur, AsyncTerminator::Jump(else_block));
                let ghost s3 = *self;
                proof {
                    assert(s2.blocks@[rhs_block as int] == s1.blocks@[rhs_block as int]);
                    assert(s3.blocks@[rhs_block as int] == s2.blocks@[rhs_block as int]);
                    assert forall|i: int| 0 <= i < s0.blocks@.len() && i != current implies #[trigger] s3.blocks@[i] == s0.blocks@[i] by {
                        assert(s1.blocks@[i] == s0.blocks@[i]);
                        assert(s2.blocks@[i] == s1.blocks@[i]);
                    }
                }
                let r = self.lower_cond(rhs_block, rhs, then_block, else_block);
                proof {
                    assert forall|i: int| 0 <= i < s0.blocks@.len() && i != current implies #[trigger] self.blocks@[i] == s0.blocks@[i] by {
                        assert(s3.blocks@[i] == s0.blocks@[i]);
                    }
                }
                r
            }
            Exp::BinaryExp(BinaryOp::Or, lhs, rhs) => {
                let rhs_block = self.new_block();
                let ghost s1 = *self;
                let cur = self.lower_cond(current, lhs, then_block, rhs_block);
                let ghost s2 = *self;
                self.terminate_if_open(cur, AsyncTerminator::Jump(then_block));
                let ghost s3 = *self;
                proof {
                    assert(s2.blocks@[rhs_block as int] == s1.blocks@[rhs_block as int]);
                    assert(s3.blocks@[rhs_block as int] == s2.blocks@[rhs_block as int]);
                    assert forall|i: int| 0 <= i < s0.blocks@.len() && i != current implies #[trigger] s3.blocks@[i] == s0.blocks@[i] by {
                        assert(s1.blocks@[i] == s0.blocks@[i]);
                        assert(s2.blocks@[i] == s1.blocks@[i]);
                    }
                }
                let r = self.lower_cond(rhs_block, rhs, then_block, else_block);
                proof {
                    assert forall|i: int| 0 <= i < s0.blocks@.len() && i != current implies #[trigger] self.blocks@[i] == s0.blocks@[i] by {
                        assert(s3.blocks@[i] == s0.blocks@[i]);
                    }
                }
                r
            }
            other => {
                let mut cur = current;
                let c = self.lower_exp(&mut cur, other);
                let ghost s1 = *self;
                self.terminate_if_open(cur, AsyncTerminator::Branch { cond: c, then_block, else_block });
                proof {
                    assert forall|i: int| 0 <= i < s0.blocks@.len() && i != current implies #[trigger] self.blocks@[i] == s0.blocks@[i] by {
                        assert(s1.blocks@[i] == s0.blocks@[i]);
                    }
                }
                cur
            }
        }
    }
}

impl CfgBuilder {
    /// Lowers one statement starting in block `current`; answers the block in
    /// which control continues.
    #[verifier::spinoff_prover]
    #[verifier::rlimit(100)]
    fn lower_stmt(&mut self, current: usize, stmt: &Stmt) -> (r: usize)
        requires
            old(self).wf(),
            current < old(self).blocks@.len(),
            old(self).used() + 3 * stmt_cost(stmt@) < state_limit(),
        ensures
            final(self).grows(*old(self), stmt_cost(stmt@)),
            r < final(self).blocks@.len(),
            forall|i: int| 0 <= i < old(self).blocks@.len() && i != current ==> #[trigger] final(self).blocks@[i] == old(self).blocks@[i],
            r == current || r >= old(self).blocks@.len(),
            old(self).blocks@[current as int].terminator is Unreachable && stmt_continues(stmt@)
                ==> final(self).blocks@[r as int].terminator is Unreachable,
            old(self).blocks@[current as int].terminator is Unreachable && stmt_returns(stmt@)
                ==> final(self).blocks@[r as int].terminator is Return,
            (final(self).sv(), r) == sc_stmt(old(self).sv(), current, stmt@),
        decreases stmt,
    {
        let ghost s0 = *self;
        match stmt {
            Stmt::Spanned(inner, _) => {
                let r = self.lower_stmt(current, inner);
                proof {
                    assert(sc_stmt(s0.sv(), current, stmt@) == sc_stmt(s0.sv(), current, (**inner)@));
                }
                r
            },
            Stmt::Block(stmts) => {
                let ghost start = *self;
                let ghost views = stmt@->Block_0;
                proof {
                    lemma_block_view(stmt);
                }
                let mut cur = current;
                let mut i: usize = 0;
                while i < stmts.len()
                    invariant
                        i <= stmts@.len(),
                        views.len() == stmts@.len(),
                        forall|j: int| 0 <= j < stmts@.len() ==> #[trigger] views[j] == stmts@[j]@,
                        self.grows(start, stmts_cost(views, i as int)),
                        cur < self.blocks@.len(),
                        start.used() + 3 * stmts_cost(views, stmts@.len() as int) + 3 < state_limit(),
                        start == s0,
                        current < s0.blocks@.len(),
                        forall|k: int| 0 <= k < s0.blocks@.len() && k != current ==> #[trigger] self.blocks@[k] == s0.blocks@[k],
                        cur == current || cur >= s0.blocks@.len(),
                        s0.blocks@[current as int].terminator is Unreachable && stmts_continue(views, i as int)
                            ==> self.blocks@[cur as int].terminator is Unreachable,
                        sc_stmts(s0.sv(), current, views, i as int) == (self.sv(), cur),
                    decreases stmts.len() - i,
                {
                    if !self.is_open(cur) {
                        proof {
                            lemma_stmts_cost_prefix(views, i as int, stmts@.len() as int);
                            if stmts_continue(views, stmts@.len() as int) {
                                lemma_stmts_continue_prefix(views, i as int, stmts@.len() as int);
                            }
                            assert(!sc_open(self.sv(), cur));
                            lemma_sc_stmts_closed(s0.sv(), current, views, i as int, stmts@.len() as int);
                        }
                        return cur;
                    }
                    proof {
                        lemma_stmts_cost_prefix(views, i as int + 1, stmts@.len() as int);
                    }
                    let ghost s1 = *self;
                    let ghost c1 = cur;
                    cur = self.lower_stmt(cur, &stmts[i]);
                    proof {
                        assert forall|k: int| 0 <= k < s0.blocks@.len() && k != current implies #[trigger] self.blocks@[k] == s0.blocks@[k] by {
                            assert(s1.blocks@[k] == s0.blocks@[k]);
                        }
                        assert(views[i as int] == stmts@[i as int]@);
                    }
                    i = i + 1;
                }
                cur
            }
            Stmt::Decl(ty, decls) => {
                let ghost start = *self;
                let ghost views = stmt@->Decl_1;
                assert(views == crate::lalr::decls_view(decls@));
                let mut cur = current;
                let mut lowered: Vec<SingleDecl> = Vec::new();
                let mut i: usize = 0;
                while i < decls.len()
                    invariant
                        i <= decls@.len(),
                        views.len() == decls@.len(),
                        forall|j: int| 0 <= j < decls@.len() ==> #[trigger] views[j] == decls@[j]@,
                        self.grows(start, decls_cost(views, i as int)),
                        cur < self.blocks@.len(),
                        start.used() + 3 * decls_cost(views, decls@.len() as int) + 3 < state_limit(),
                        start == s0,
                        current < s0.blocks@.len(),
                        self.exp_step(s0, current, cur),
                        sc_decls(s0.sv(), current, views, i as int).0 == self.sv(),
                        sc_decls(s0.sv(), current, views, i as int).1 == cur,
                        sc_decls(s0.sv(), current, views, i as int).2 == crate::lalr::decls_view(lowered@),
                        lowered@.len() == i,
                    decreases decls.len() - i,
                {
                    proof {
                        lemma_decls_cost_prefix(views, i as int + 1, decls@.len() as int);
                    }
                    let decl = &decls[i];
                    let ghost s1 = *self;
                    let ghost c1 = cur;
                    let init = match &decl.init {
                        Some(init) => Some(self.lower_init(&mut cur, init)),
                        None => None,
                    };
                    proof {
                        if decl.init is Some {
                            Self::lemma_exp_step_trans(s0, s1, *self, current, c1, cur);
                        }
                    }
                    let ghost lw0 = lowered@;
                    lowered.push(SingleDecl { span: decl.span, var: decl.var.copy(), init });
                    proof {
                        assert(views[i as int] == decl@);
                        assert(crate::lalr::decls_view(lowered@) =~= crate::lalr::decls_view(lw0).push(lowered@[i as int]@));
                    }
                    i = i + 1;
                }
                let ghost s2 = *self;
                self.push_op(cur, AsyncOp::Decl(ty.copy(), lowered));
                proof {
                    assert forall|k: int| 0 <= k < s0.blocks@.len() && k != current implies #[trigger] self.blocks@[k] == s0.blocks@[k] by {
                        assert(s2.blocks@[k] == s0.blocks@[k]);
                    }
                }
                cur
            }
            Stmt::Assign(lhs, rhs) => {
                let mut cur = current;
                let l = self.lower_exp(&mut cur, lhs);
                let ghost s1 = *self;
                let ghost c1 = cur;
                let r = self.lower_exp(&mut cur, rhs);
                let ghost s2 = *self;
                proof {
                    Self::lemma_exp_step_trans(s0, s1, s2, current, c1, cur);
                }
                self.push_op(cur, AsyncOp::Assign(l, r));
                proof {
                    assert forall|k: int| 0 <= k < s0.blocks@.len() && k != current implies #[trigger] self.blocks@[k] == s0.blocks@[k] by {
                        assert(s2.blocks@[k] == s0.blocks@[k]);
                    }
                }
                cur
            }
            Stmt::Exp(exp) => {
                let mut cur = current;
                match exp {
                    Exp::Await(inner) => {
                        cur = self.suspend_for_await(cur, inner.copy(), None, 0);
                    }
                    _ => {
                        let e = self.lower_exp(&mut cur, exp);
                        let ghost s2 = *self;
                        self.push_op(cur, AsyncOp::Eval(e));
                        proof {
                            assert forall|k: int| 0 <= k < s0.blocks@.len() && k != current implies #[trigger] self.blocks@[k] == s0.blocks@[k] by {
                                assert(s2.blocks@[k] == s0.blocks@[k]);
                            }
                        }
                    }
                }
                cur
            }
            Stmt::PromiseWait(exp) => {
                let mut cur = current;
                let e = self.lower_exp(&mut cur, exp);
                let ghost s2 = *self;
                self.push_op(cur, AsyncOp::PromiseWait(e));
                proof {
                    assert forall|k: int| 0 <= k < s0.blocks@.len() && k != current implies #[trigger] self.blocks@[k] == s0.blocks@[k] by {
                        assert(s2.blocks@[k] == s0.blocks@[k]);
                    }
                }
                cur
            }
            Stmt::Return(exp) => {
                let mut cur = current;
                let e = match exp {
                    Some(exp) => Some(self.lower_exp(&mut cur, exp)),
                    None => None,
                };
                let ghost s2 = *self;
                self.terminate_if_open(cur, AsyncTerminator::Return(e));
                proof {
                    assert forall|k: int| 0 <= k < s0.blocks@.len() && k != current implies #[trigger] self.blocks@[k] == s0.blocks@[k] by {
                        assert(s2.blocks@[k] == s0.blocks@[k]);
                    }
                }
                cur
            }
            Stmt::If(cond, then_stmt) => {
                let then_block = self.new_block();
                let end_block = self.new_block();
                let ghost s1 = *self;
                let cur = self.lower_cond(current, cond, then_block, end_block);
                let ghost s2 = *self;
                self.terminate_if_open(cur, AsyncTerminator::Jump(end_block));
                let ghost s3 = *self;
                let then_end = self.lower_stmt(then_block, then_stmt);
                let ghost s4 = *self;
                self.terminate_if_open(then_end, AsyncTerminator::Jump(end_block));
                proof {
                    assert(s2.blocks@[end_block as int] == s1.blocks@[end_block as int]);
                    assert(s3.blocks@[end_block as int] == s2.blocks@[end_block as int]);
                    assert(s4.blocks@[end_block as int] == s3.blocks@[end_block as int]);
                    assert forall|k: int| 0 <= k < s0.blocks@.len() && k != current implies #[trigger] self.blocks@[k] == s0.blocks@[k] by {
                        assert(s1.blocks@[k] == s0.blocks@[k]);
                        assert(s2.blocks@[k] == s1.blocks@[k]);
                        assert(s3.blocks@[k] == s2.blocks@[k]);
                        assert(s4.blocks@[k] == s3.blocks@[k]);
                    }
                }
                end_block
            }
            Stmt::IfElse(cond, then_stmt, else_stmt) => {
                let then_block = self.new_block();
                let else_block = self.new_block();
                let end_block = self.new_block();
                let ghost s1 = *self;
                let cur = self.lower_cond(current, cond, then_block, else_block);
                let ghost s2 = *self;
                self.terminate_if_open(cur, AsyncTerminator::Jump(end_block));
                let ghost s3 = *self;
                let then_end = self.lower_stmt(then_block, then_stmt);
                let ghost s4 = *self;
                self.terminate_if_open(then_end, AsyncTerminator::Jump(end_block));
                let ghost s5 = *self;
                let else_end = self.lower_stmt(else_block, else_stmt);
                let ghost s6 = *self;
                self.terminate_if_open(else_end, AsyncTerminator::Jump(end_block));
                proof {
                    assert(s2.blocks@[end_block as int] == s1.blocks@[end_block as int]);
                    assert(s3.blocks@[end_block as int] == s2.blocks@[end_block as int]);
                    assert(s4.blocks@[end_block as int] == s3.blocks@[end_block as int]);
                    assert(s5.blocks@[end_block as int] == s4.blocks@[end_block as int]);
                    assert(s6.blocks@[end_block as int] == s5.blocks@[end_block as int]);
                    assert forall|k: int| 0 <= k < s0.blocks@.len() && k != current implies #[trigger] self.blocks@[k] == s0.blocks@[k] by {
                        assert(s1.blocks@[k] == s0.blocks@[k]);
                        assert(s2.blocks@[k] == s1.blocks@[k]);
                        assert(s3.blocks@[k] == s2.blocks@[k]);
                        assert(s4.blocks@[k] == s3.blocks@[k]);
                        assert(s5.blocks@[k] == s4.blocks@[k]);
                        assert(s6.blocks@[k] == s5.blocks@[k]);
                    }
                }
                end_block
            }
            Stmt::While(cond, body) => {
                let cond_block = self.new_block();
                let body_block = self.new_block();
                let end_block = self.new_block();
                let ghost s1 = *self;
                self.terminate_if_open(current, AsyncTerminator::Jump(cond_block));
                let ghost outer = self.loop_stack@;
                let ghost sa = self.sv();
                self.loop_stack.push(LoopTargets { break_block: end_block, continue_block: cond_block });
                let ghost s2 = *self;
                proof {
                    assert(self.sv().loops =~= sa.loops.push((end_block, cond_block)));
                    assert(self.sv() == (SCfg { loops: sa.loops.push((end_block, cond_block)), ..sa }));
                }
                let cond_end = self.lower_cond(cond_block, cond, body_block, end_block);
                let ghost s3 = *self;
                self.terminate_if_open(cond_end, AsyncTerminator::Jump(end_block));
                let ghost s4 = *self;
                let body_end = self.lower_stmt(body_block, body);
                let ghost s5 = *self;
                self.terminate_if_open(body_end, AsyncTerminator::Jump(cond_block));
                let ghost s6 = *self;
                self.loop_stack.pop();
                proof {
                    assert(self.sv().loops =~= s6.sv().loops.drop_last());
                    assert(self.sv() == (SCfg { loops: s6.sv().loops.drop_last(), ..s6.sv() }));
                    assert(self.loop_stack@ =~= outer);
                    assert(self.blocks == s6.blocks);
                    assert(s2.blocks@[end_block as int] == s1.blocks@[end_block as int]);
                    assert(s3.blocks@[end_block as int] == s2.blocks@[end_block as int]);
                    assert(s4.blocks@[end_block as int] == s3.blocks@[end_block as int]);
                    assert(s5.blocks@[end_block as int] == s4.blocks@[end_block as int]);
                    assert(s6.blocks@[end_block as int] == s5.blocks@[end_block as int]);
                    assert forall|k: int| 0 <= k < s0.blocks@.len() && k != current implies #[trigger] self.blocks@[k] == s0.blocks@[k] by {
                        assert(s1.blocks@[k] == s0.blocks@[k]);
                        assert(s2.blocks@[k] == s1.blocks@[k]);
                        assert(s3.blocks@[k] == s2.blocks@[k]);
                        assert(s4.blocks@[k] == s3.blocks@[k]);
                        assert(s5.blocks@[k] == s4.blocks@[k]);
                        assert(s6.blocks@[k] == s5.blocks@[k]);
                    }
                }
                end_block
            }
            Stmt::Break => {
                let n = self.loop_stack.len();
                if n > 0 {
                    let targets = self.loop_stack[n - 1];
                    self.terminate_if_open(current, AsyncTerminator::Jump(targets.break_block));
                }
                current
            }
            Stmt::Continue => {
                let n = self.loop_stack.len();
                if n > 0 {
                    let targets = self.loop_stack[n - 1];
                    self.terminate_if_open(current, AsyncTerminator::Jump(targets.continue_block));
                }
                current
            }
            Stmt::Empty => current,
        }
    }
}

proof fn lemma_sc_stmts_closed(g: SCfg, cur: usize, ss: Seq<SStmt>, i: int, n: int)
    requires
        0 <= i <= n <= ss.len(),
        !sc_open(sc_stmts(g, cur, ss, i).0, sc_stmts(g, cur, ss, i).1),
    ensures
        sc_stmts(g, cur, ss, n) == sc_stmts(g, cur, ss, i),
    decreases n - i,
{
    if i < n {
        lemma_sc_stmts_closed(g, cur, ss, i, n - 1);
    }
}

proof fn lemma_stmts_continue_prefix(ss: Seq<SStmt>, i: int, n: int)
    requires
        0 <= i <= n <= ss.len(),
        stmts_continue(ss, n),
    ensures
        stmts_continue(ss, i),
    decreases n - i,
{
    if i < n {
        lemma_stmts_continue_prefix(ss, i, n - 1);
    }
}

/// Builds the control-flow graph of an async function body.
pub fn build_async_cfg(func: &FuncDef) -> (cfg: AsyncCfgFunction)
    requires
        3 * body_cost(*func) + 2 < state_limit(),
    ensures
        cfg.wf(),
        cfg.entry == 0,
        await_states_distinct(cfg.blocks@, state_limit()),
        blocks_view(cfg.blocks@) == sc_build(crate::lalr::stmts_view(func.block@)).blocks,
{
    let mut b = CfgBuilder::new();
    let ghost g0 = SCfg { blocks: Seq::empty(), state: 1, temp: 0, loops: Seq::empty() };
    proof {
        assert(b.sv().blocks =~= g0.blocks);
        assert(b.sv().loops =~= g0.loops);
    }
    let entry = b.new_block();
    let ghost start = b;
    let ghost views = crate::lalr::stmts_view(func.block@);
    let mut cur = entry;
    let mut i: usize = 0;
    while i < func.block.len()
        invariant
            i <= func.block@.len(),
            views.len() == func.block@.len(),
            forall|j: int| 0 <= j < func.block@.len() ==> #[trigger] views[j] == func.block@[j]@,
            b.grows(start, stmts_cost(views, i as int)),
            cur < b.blocks@.len(),
            start.used() == 2,
            start.used() + 3 * stmts_cost(views, func.block@.len() as int) < state_limit(),
            sc_stmts(start.sv(), entry, views, i as int) == (b.sv(), cur),
            sc_new_block(g0) == (start.sv(), entry),
        decreases func.block.len() - i,
    {
        if !b.is_open(cur) {
            proof {
                lemma_stmts_cost_prefix(views, i as int, func.block@.len() as int);
                assert(!sc_open(b.sv(), cur));
                lemma_sc_stmts_closed(start.sv(), entry, views, i as int, views.len() as int);
            }
            break;
        }
        proof {
            lemma_stmts_cost_prefix(views, i as int + 1, func.block@.len() as int);
        }
        cur = b.lower_stmt(cur, &func.block[i]);
        i = i + 1;
    }
    b.terminate_if_open(cur, AsyncTerminator::Return(None));
    proof {
        assert(b.blocks@.len() > 0);
    }
    AsyncCfgFunction { entry, blocks: b.blocks }
}

/// The positions of the blocks among the first `n` that end in a suspension.
pub open spec fn await_indices(blocks: Seq<AsyncBlock>, n: int) -> Seq<int>
    decreases n,
{
    if 0 < n <= blocks.len() {
        let prev = await_indices(blocks, n - 1);
        if blocks[n - 1].terminator is Await {
            prev.push(n - 1)
        } else {
            prev
        }
    } else {
        Seq::empty()
    }
}

/// The suspensions of `blocks`, in block order.
pub open spec fn spec_await_points(blocks: Seq<AsyncBlock>) -> Seq<AwaitTerminator> {
    let idx = await_indices(blocks, blocks.len() as int);
    Seq::new(idx.len(), |k: int| blocks[idx[k]].terminator->Await_0)
}

proof fn lemma_await_indices_bounds(blocks: Seq<AsyncBlock>, n: int)
    requires
        0 <= n <= blocks.len(),
    ensures
        forall|k: int| 0 <= k < await_indices(blocks, n).len() ==> {
            &&& 0 <= #[trigger] await_indices(blocks, n)[k] < n
            &&& blocks[await_indices(blocks, n)[k]].terminator is Await
        },
        forall|k: int, l: int| 0 <= k < l < await_indices(blocks, n).len() ==>
            #[trigger] await_indices(blocks, n)[k] < #[trigger] await_indices(blocks, n)[l],
    decreases n,
{
    if n > 0 {
        lemma_await_indices_bounds(blocks, n - 1);
    }
}

impl AsyncCfgFunction {
    /// The suspensions of the function, in block order.
    pub fn await_points(&self) -> (r: Vec<&AwaitTerminator>)
        ensures
            r@.len() == spec_await_points(self.blocks@).len(),
            forall|k: int| 0 <= k < r@.len() ==> *r@[k] == #[trigger] spec_await_points(self.blocks@)[k],
    {
        let mut r: Vec<&AwaitTerminator> = Vec::new();
        let mut i: usize = 0;
        while i < self.blocks.len()
            invariant
                i <= self.blocks@.len(),
                r@.len() == await_indices(self.blocks@, i as int).len(),
                forall|k: int| 0 <= k < r@.len() ==>
                    *r@[k] == #[trigger] self.blocks@[await_indices(self.blocks@, i as int)[k]].terminator->Await_0,
            decreases self.blocks.len() - i,
        {
            match &self.blocks[i].terminator {
                AsyncTerminator::Await(a) => {
                    r.push(a);
                }
                _ => {}
            }
            i = i + 1;
        }
        r
    }
}

proof fn lemma_stmts_cost_prefix(ss: Seq<SStmt>, i: int, n: int)
    requires
        0 <= i <= n <= ss.len(),
    ensures
        stmts_cost(ss, i) <= stmts_cost(ss, n),
    decreases n - i,
{
    if i < n {
        lemma_stmts_cost_prefix(ss, i, n - 1);
    }
}

proof fn lemma_decls_cost_prefix(ds: Seq<SDecl>, i: int, n: int)
    requires
        0 <= i <= n <= ds.len(),
    ensures
        decls_cost(ds, i) <= decls_cost(ds, n),
    decreases n - i,
{
    if i < n {
        lemma_decls_cost_prefix(ds, i, n - 1);
    }
}

/// A prefix of the items costs no more than all of them.
proof fn lemma_items_cost_prefix(items: Seq<SInit>, i: int, n: int)
    requires
        0 <= i <= n <= items.len(),
    ensures
        items_cost(items, i) <= items_cost(items, n),
    decreases n - i,
{
    if i < n {
        lemma_items_cost_prefix(items, i, n - 1);
    }
}

/// A prefix of the arguments costs no more than all of them.
proof fn lemma_args_cost_prefix(args: Seq<SExp>, i: int, n: int)
    requires
        0 <= i <= n <= args.len(),
    ensures
        args_cost(args, i) <= args_cost(args, n),
    decreases n - i,
{
    if i < n {
        lemma_args_cost_prefix(args, i, n - 1);
    }
}

// ---------------------------------------------------------------------------
// Uses and definitions of a block.

/// The variables an expression reads.
pub open spec fn exp_idents(e: SExp) -> Set<Seq<char>>
    decreases e, 1nat,
{
    match e {
        SExp::Ident(n) => set![n],
        SExp::Spanned(i, _) => exp_idents(*i),
        SExp::UnaryExp(_, i) => exp_idents(*i),
        SExp::Await(i) => exp_idents(*i),
        SExp::Sleep(i) => exp_idents(*i),
        SExp::PromiseWait(i) => exp_idents(*i),
        SExp::Field(i, _) => exp_idents(*i),
        SExp::PtrField(i, _) => exp_idents(*i),
        SExp::BinaryExp(_, l, r) => exp_idents(*l).union(exp_idents(*r)),
        SExp::ArrGet(l, r) => exp_idents(*l).union(exp_idents(*r)),
        SExp::FuncCall(_, args) => args_idents(args, args.len() as int),
        _ => Set::empty(),
    }
}

pub open spec fn args_idents(args: Seq<SExp>, n: int) -> Set<Seq<char>>
    decreases args, n,
{
    if 0 < n <= args.len() {
        args_idents(args, n - 1).union(exp_idents(args[n - 1]))
    } else {
        Set::empty()
    }
}

/// The expressions an expression applies its operator to: the operand of a
/// unary operator, an await, a sleep, a wait or a field access; both sides of a
/// binary operator; the array and the index of an element access; the
/// arguments of a call. Numbers, names and allocations have none.
pub open spec fn operands(e: SExp) -> Seq<SExp> {
    match e {
        SExp::Spanned(i, _) => seq![*i],
        SExp::UnaryExp(_, i) => seq![*i],
        SExp::Await(i) => seq![*i],
        SExp::Sleep(i) => seq![*i],
        SExp::PromiseWait(i) => seq![*i],
        SExp::Field(i, _) => seq![*i],
        SExp::PtrField(i, _) => seq![*i],
        SExp::BinaryExp(_, l, r) => seq![*l, *r],
        SExp::ArrGet(l, r) => seq![*l, *r],
        SExp::FuncCall(_, args) => args,
        _ => Seq::empty(),
    }
}

/// The names the first `n` arguments read are those that one of them reads.
proof fn lemma_args_idents(args: Seq<SExp>, n: int, x: Seq<char>)
    requires
        0 <= n <= args.len(),
    ensures
        args_idents(args, n).contains(x) <==> exists|k: int| 0 <= k < n && #[trigger] exp_idents(args[k]).contains(x),
    decreases n,
{
    if n > 0 {
        lemma_args_idents(args, n - 1, x);
        if exp_idents(args[n - 1]).contains(x) {
            assert(exists|k: int| 0 <= k < n && #[trigger] exp_idents(args[k]).contains(x));
        }
        if exists|k: int| 0 <= k < n && #[trigger] exp_idents(args[k]).contains(x) {
            let k = choose|k: int| 0 <= k < n && #[trigger] exp_idents(args[k]).contains(x);
            if k < n - 1 {
                assert(exists|k2: int| 0 <= k2 < n - 1 && #[trigger] exp_idents(args[k2]).contains(x));
            }
        }
    }
}

/// The names an expression reads are the name it consists of, if it is one,
/// and the names its operands read: both the array and the index of an element
/// access, both sides of a binary operator, every argument of a call.
pub proof fn lemma_reads_operands(e: SExp, x: Seq<char>)
    ensures
        exp_idents(e).contains(x) <==> (e == SExp::Ident(x)
            || exists|k: int| 0 <= k < operands(e).len() && #[trigger] exp_idents(operands(e)[k]).contains(x)),
{
    let ops = operands(e);
    match e {
        SExp::FuncCall(_, args) => {
            lemma_args_idents(args, args.len() as int, x);
        },
        SExp::BinaryExp(_, l, r) => {
            assert(ops[0] == *l && ops[1] == *r);
            if exp_idents(*l).contains(x) {
                assert(exp_idents(ops[0]).contains(x));
            }
            if exp_idents(*r).contains(x) {
                assert(exp_idents(ops[1]).contains(x));
            }
        },
        SExp::ArrGet(l, r) => {
            assert(ops[0] == *l && ops[1] == *r);
            if exp_idents(*l).contains(x) {
                assert(exp_idents(ops[0]).contains(x));
            }
            if exp_idents(*r).contains(x) {
                assert(exp_idents(ops[1]).contains(x));
            }
        },
        SExp::Ident(n) => {},
        SExp::Number(_) => {},
        SExp::New(_) => {},
        _ => {
            assert(ops.len() == 1);
            if exp_idents(ops[0]).contains(x) {
                assert(exists|k: int| 0 <= k < ops.len() && #[trigger] exp_idents(ops[k]).contains(x));
            }
        },
    }
}

pub open spec fn init_idents(i: SInit) -> Set<Seq<char>>
    decreases i, 1nat,
{
    match i {
        SInit::Spanned(inner, _) => init_idents(*inner),
        SInit::Exp(e) => exp_idents(e),
        SInit::Arr(items) => items_idents(items, items.len() as int),
    }
}

pub open spec fn items_idents(items: Seq<SInit>, n: int) -> Set<Seq<char>>
    decreases items, n,
{
    if 0 < n <= items.len() {
        items_idents(items, n - 1).union(init_idents(items[n - 1]))
    } else {
        Set::empty()
    }
}

/// The variables read by the array dimensions of a declarator.
pub open spec fn dims_idents(v: crate::lalr::SVarDecl) -> Set<Seq<char>>
    decreases v,
{
    match v {
        crate::lalr::SVarDecl::Ident(_) => Set::empty(),
        crate::lalr::SVarDecl::Array(inner, dim) => dims_idents(*inner).union(exp_idents(dim)),
    }
}

/// The variables an assignment target reads: all of them but a plain name.
pub open spec fn lvalue_idents(e: SExp) -> Set<Seq<char>> {
    match e {
        SExp::Ident(_) => Set::empty(),
        _ => exp_idents(e),
    }
}

/// Uses and definitions seen so far, each use counted only when no earlier
/// definition in the block hides it.
pub type UseDef = (Set<Seq<char>>, Set<Seq<char>>);

pub open spec fn read(ud: UseDef, names: Set<Seq<char>>) -> UseDef {
    (ud.0.union(names.difference(ud.1)), ud.1)
}

pub open spec fn decl_step(ud: UseDef, d: SDecl) -> UseDef {
    let ud1 = match d.init {
        Some(i) => read(ud, init_idents(i)),
        None => ud,
    };
    let ud2 = (ud1.0, ud1.1.insert(spec_var_decl_name(d.var)));
    read(ud2, dims_idents(d.var))
}

pub open spec fn decls_step(ud: UseDef, ds: Seq<SDecl>, n: int) -> UseDef
    decreases n,
{
    if 0 < n <= ds.len() {
        decl_step(decls_step(ud, ds, n - 1), ds[n - 1])
    } else {
        ud
    }
}

pub open spec fn op_step(ud: UseDef, op: AsyncOp) -> UseDef {
    match op {
        AsyncOp::Decl(_, ds) => decls_step(ud, crate::lalr::decls_view(ds@), ds@.len() as int),
        AsyncOp::Assign(lhs, rhs) => {
            let ud1 = read(read(ud, exp_idents(rhs@)), lvalue_idents(lhs@));
            match lhs {
                Exp::Ident(name) => (ud1.0, ud1.1.insert(name@)),
                _ => ud1,
            }
        }
        AsyncOp::Eval(e) => read(ud, exp_idents(e@)),
        AsyncOp::PromiseWait(e) => read(ud, exp_idents(e@)),
    }
}

pub open spec fn ops_step(ops: Seq<AsyncOp>, n: int) -> UseDef
    decreases n,
{
    if 0 < n <= ops.len() {
        op_step(ops_step(ops, n - 1), ops[n - 1])
    } else {
        (Set::empty(), Set::empty())
    }
}

pub open spec fn term_step(ud: UseDef, t: AsyncTerminator) -> UseDef {
    match t {
        AsyncTerminator::Return(Some(e)) => read(ud, exp_idents(e@)),
        AsyncTerminator::Branch { cond, .. } => read(ud, exp_idents(cond@)),
        AsyncTerminator::Await(a) => {
            let ud1 = read(ud, exp_idents(a.child@));
            match a.result_target {
                Some(t) => (ud1.0, ud1.1.insert(t@)),
                None => ud1,
            }
        }
        _ => ud,
    }
}

/// The variables a block reads before writing them, and those it writes.
pub open spec fn spec_block_use_def(b: AsyncBlock) -> UseDef {
    term_step(ops_step(b.ops@, b.ops@.len() as int), b.terminator)
}

pub(crate) fn collect_uses_exp(exp: &Exp, uses: &mut NameSet, defs: &NameSet)
    requires
        old(uses).wf(),
    ensures
        final(uses).wf(),
        final(uses).view_set() == old(uses).view_set().union(exp_idents(exp@).difference(defs.view_set())),
    decreases exp,
{
    let ghost u0 = uses.view_set();
    match exp {
        Exp::Ident(name) => {
            if !defs.contains(name.as_str()) {
                uses.insert(name.clone());
            }
            proof {
                assert(uses.view_set() =~= u0.union(exp_idents(exp@).difference(defs.view_set())));
            }
        }
        Exp::Spanned(inner, _) => collect_uses_exp(inner, uses, defs),
        Exp::UnaryExp(_, inner) => collect_uses_exp(inner, uses, defs),
        Exp::Await(inner) => collect_uses_exp(inner, uses, defs),
        Exp::Sleep(inner) => collect_uses_exp(inner, uses, defs),
        Exp::PromiseWait(inner) => collect_uses_exp(inner, uses, defs),
        Exp::Field(inner, _) => collect_uses_exp(inner, uses, defs),
        Exp::PtrField(inner, _) => collect_uses_exp(inner, uses, defs),
        Exp::BinaryExp(_, l, r) => {
            collect_uses_exp(l, uses, defs);
            collect_uses_exp(r, uses, defs);
            proof {
                assert(uses.view_set() =~= u0.union(exp_idents(exp@).difference(defs.view_set())));
            }
        }
        Exp::ArrGet(l, r) => {
            collect_uses_exp(l, uses, defs);
            collect_uses_exp(r, uses, defs);
            proof {
                assert(uses.view_set() =~= u0.union(exp_idents(exp@).difference(defs.view_set())));
            }
        }
        Exp::FuncCall(_, args) => {
            let ghost views = exp@->FuncCall_1;
            proof {
                lemma_call_view(exp);
                assert(uses.view_set() =~= u0.union(args_idents(views, 0).difference(defs.view_set())));
            }
            let mut i: usize = 0;
            while i < args.len()
                invariant
                    i <= args@.len(),
                    views.len() == args@.len(),
                    forall|j: int| 0 <= j < args@.len() ==> #[trigger] views[j] == args@[j]@,
                    uses.wf(),
                    uses.view_set() == u0.union(args_idents(views, i as int).difference(defs.view_set())),
                decreases args.len() - i,
            {
                collect_uses_exp(&args[i], uses, defs);
                proof {
                    assert(uses.view_set() =~= u0.union(args_idents(views, i + 1).difference(defs.view_set())));
                }
                i = i + 1;
            }
        }
        Exp::Number(_) | Exp::New(_) => {
            proof {
                assert(uses.view_set() =~= u0.union(exp_idents(exp@).difference(defs.view_set())));
            }
        }
    }
}

pub(crate) fn collect_uses_init(init: &InitVal, uses: &mut NameSet, defs: &NameSet)
    requires
        old(uses).wf(),
    ensures
        final(uses).wf(),
        final(uses).view_set() == old(uses).view_set().union(init_idents(init@).difference(defs.view_set())),
    decreases init,
{
    let ghost u0 = uses.view_set();
    match init {
        InitVal::Spanned(inner, _) => collect_uses_init(inner, uses, defs),
        InitVal::Exp(e) => collect_uses_exp(e, uses, defs),
        InitVal::Arr(items) => {
            let ghost views = init@->Arr_0;
            proof {
                lemma_arr_view(init);
                assert(uses.view_set() =~= u0.union(items_idents(views, 0).difference(defs.view_set())));
            }
            let mut i: usize = 0;
            while i < items.len()
                invariant
                    i <= items@.len(),
                    views.len() == items@.len(),
                    forall|j: int| 0 <= j < items@.len() ==> #[trigger] views[j] == items@[j]@,
                    uses.wf(),
                    uses.view_set() == u0.union(items_idents(views, i as int).difference(defs.view_set())),
                decreases items.len() - i,
            {
                collect_uses_init(&items[i], uses, defs);
                proof {
                    assert(uses.view_set() =~= u0.union(items_idents(views, i + 1).difference(defs.view_set())));
                }
                i = i + 1;
            }
        }
    }
}

fn collect_lvalue_uses(exp: &Exp, uses: &mut NameSet, defs: &NameSet)
    requires
        old(uses).wf(),
    ensures
        final(uses).wf(),
        final(uses).view_set() == old(uses).view_set().union(lvalue_idents(exp@).difference(defs.view_set())),
{
    match exp {
        Exp::Ident(_) => {
            proof {
                assert(uses.view_set() =~= old(uses).view_set().union(lvalue_idents(exp@).difference(defs.view_set())));
            }
        }
        other => collect_uses_exp(other, uses, defs),
    }
}

fn collect_uses_var_decl_dims(var: &VarDecl, uses: &mut NameSet, defs: &NameSet)
    requires
        old(uses).wf(),
    ensures
        final(uses).wf(),
        final(uses).view_set() == old(uses).view_set().union(dims_idents(var@).difference(defs.view_set())),
    decreases var,
{
    match var {
        VarDecl::Ident(_) => {
            proof {
                assert(uses.view_set() =~= old(uses).view_set().union(dims_idents(var@).difference(defs.view_set())));
            }
        }
        VarDecl::Array(inner, dim) => {
            collect_uses_var_decl_dims(inner, uses, defs);
            collect_uses_exp(dim, uses, defs);
            proof {
                assert(uses.view_set() =~= old(uses).view_set().union(dims_idents(var@).difference(defs.view_set())));
            }
        }
    }
}

/// The variables `block` reads before it writes them, and those it writes.
pub fn block_use_def(block: &AsyncBlock) -> (r: (NameSet, NameSet))
    ensures
        r.0.wf(),
        r.1.wf(),
        (r.0.view_set(), r.1.view_set()) == spec_block_use_def(*block),
{
    let mut uses = NameSet::new();
    let mut defs = NameSet::new();
    let ghost ops = block.ops@;
    let mut k: usize = 0;
    while k < block.ops.len()
        invariant
            k <= ops.len(),
            ops == block.ops@,
            uses.wf(),
            defs.wf(),
            (uses.view_set(), defs.view_set()) == ops_step(ops, k as int),
        decreases block.ops.len() - k,
    {
        match &block.ops[k] {
            AsyncOp::Decl(_, decls) => {
                let ghost dv = crate::lalr::decls_view(decls@);
                let ghost ud0 = ops_step(ops, k as int);
                let mut i: usize = 0;
                while i < decls.len()
                    invariant
                        i <= decls@.len(),
                        dv.len() == decls@.len(),
                        forall|j: int| 0 <= j < decls@.len() ==> #[trigger] dv[j] == decls@[j]@,
                        uses.wf(),
                        defs.wf(),
                        (uses.view_set(), defs.view_set()) == decls_step(ud0, dv, i as int),
                    decreases decls.len() - i,
                {
                    let decl = &decls[i];
                    match &decl.init {
                        Some(init) => collect_uses_init(init, &mut uses, &defs),
                        None => {}
                    }
                    defs.insert(var_decl_name(&decl.var));
                    collect_uses_var_decl_dims(&decl.var, &mut uses, &defs);
                    i = i + 1;
                }
            }
            AsyncOp::Assign(lhs, rhs) => {
                collect_uses_exp(rhs, &mut uses, &defs);
                collect_lvalue_uses(lhs, &mut uses, &defs);
                match lhs {
                    Exp::Ident(name) => {
                        defs.insert(name.clone());
                    }
                    _ => {}
                }
            }
            AsyncOp::Eval(e) => collect_uses_exp(e, &mut uses, &defs),
            AsyncOp::PromiseWait(e) => collect_uses_exp(e, &mut uses, &defs),
        }
        k = k + 1;
    }
    match &block.terminator {
        AsyncTerminator::Return(Some(e)) => collect_uses_exp(e, &mut uses, &defs),
        AsyncTerminator::Branch { cond, .. } => collect_uses_exp(cond, &mut uses, &defs),
        AsyncTerminator::Await(a) => {
            collect_uses_exp(&a.child, &mut uses, &defs);
            match &a.result_target {
                Some(t) => {
                    defs.insert(t.clone());
                }
                None => {}
            }
        }
        _ => {}
    }
    (uses, defs)
}

// ---------------------------------------------------------------------------
// Liveness as a least fixpoint over bit vectors: position `i` of a vector
// stands for the `i`-th name of a fixed universe.

/// Whether some successor of block `b` has bit `i` set on entry.
pub open spec fn out_f(succ: Seq<Seq<usize>>, ins: Seq<Seq<bool>>, b: int, i: int) -> bool {
    exists|k: int| 0 <= k < succ[b].len() && #[trigger] ins[succ[b][k] as int][i]
}

/// Bit `i` on entry of block `b`, given bit vector `o` on its exit.
pub open spec fn in_f(ub: Seq<Seq<bool>>, db: Seq<Seq<bool>>, o: Seq<bool>, b: int, i: int) -> bool {
    ub[b][i] || (o[i] && !db[b][i])
}

pub open spec fn shaped(vs: Seq<Seq<bool>>, n: int, m: int) -> bool {
    &&& vs.len() == n
    &&& forall|b: int| 0 <= b < n ==> (#[trigger] vs[b]).len() == m
}

/// The dataflow problem is well posed: one successor list, use vector and
/// definition vector per block, all successors in range.
pub open spec fn problem_wf(succ: Seq<Seq<usize>>, ub: Seq<Seq<bool>>, db: Seq<Seq<bool>>, m: int) -> bool {
    &&& shaped(ub, succ.len() as int, m)
    &&& shaped(db, succ.len() as int, m)
    &&& forall|b: int, k: int| 0 <= b < succ.len() && 0 <= k < succ[b].len() ==> #[trigger] succ[b][k] < succ.len()
}

/// `ins`/`outs` satisfy the dataflow equations exactly.
pub open spec fn bit_solution(
    succ: Seq<Seq<usize>>,
    ub: Seq<Seq<bool>>,
    db: Seq<Seq<bool>>,
    m: int,
    ins: Seq<Seq<bool>>,
    outs: Seq<Seq<bool>>,
) -> bool {
    &&& shaped(ins, succ.len() as int, m)
    &&& shaped(outs, succ.len() as int, m)
    &&& forall|b: int, i: int| 0 <= b < succ.len() && 0 <= i < m ==> #[trigger] outs[b][i] == out_f(succ, ins, b, i)
    &&& forall|b: int, i: int| 0 <= b < succ.len() && 0 <= i < m ==> #[trigger] ins[b][i] == in_f(ub, db, outs[b], b, i)
}

/// Every bit set in `a` is set in `c`.
pub open spec fn leq(a: Seq<Seq<bool>>, c: Seq<Seq<bool>>) -> bool {
    forall|x: int, i: int| 0 <= x < a.len() && 0 <= i < a[x].len() && #[trigger] a[x][i] ==> c[x][i]
}

/// `ins`/`outs` lie below every solution.
pub open spec fn below_all(
    succ: Seq<Seq<usize>>,
    ub: Seq<Seq<bool>>,
    db: Seq<Seq<bool>>,
    m: int,
    ins: Seq<Seq<bool>>,
    outs: Seq<Seq<bool>>,
) -> bool {
    forall|ins2: Seq<Seq<bool>>, outs2: Seq<Seq<bool>>| #[trigger] bit_solution(succ, ub, db, m, ins2, outs2)
        ==> leq(ins, ins2) && leq(outs, outs2)
}

/// Every set bit is justified by the equations.
pub open spec fn post_fixpoint(
    succ: Seq<Seq<usize>>,
    ub: Seq<Seq<bool>>,
    db: Seq<Seq<bool>>,
    m: int,
    ins: Seq<Seq<bool>>,
    outs: Seq<Seq<bool>>,
) -> bool {
    &&& forall|b: int, i: int| 0 <= b < succ.len() && 0 <= i < m && #[trigger] outs[b][i] ==> out_f(succ, ins, b, i)
    &&& forall|b: int, i: int| 0 <= b < succ.len() && 0 <= i < m && #[trigger] ins[b][i] ==> in_f(ub, db, outs[b], b, i)
}

pub open spec fn count(s: Seq<bool>) -> nat
    decreases s.len(),
{
    if s.len() == 0 {
        0
    } else {
        count(s.drop_last()) + if s.last() { 1nat } else { 0nat }
    }
}

pub open spec fn total(vs: Seq<Seq<bool>>) -> nat
    decreases vs.len(),
{
    if vs.len() == 0 {
        0
    } else {
        total(vs.drop_last()) + count(vs.last())
    }
}

proof fn lemma_count_mono(a: Seq<bool>, c: Seq<bool>)
    requires
        a.len() == c.len(),
        forall|i: int| 0 <= i < a.len() && #[trigger] a[i] ==> c[i],
    ensures
        count(a) <= count(c),
        count(c) <= c.len(),
        (exists|i: int| 0 <= i < a.len() && !a[i] && #[trigger] c[i]) ==> count(a) < count(c),
    decreases a.len(),
{
    if a.len() > 0 {
        lemma_count_mono(a.drop_last(), c.drop_last());
        if exists|i: int| 0 <= i < a.len() && !a[i] && #[trigger] c[i] {
            let i = choose|i: int| 0 <= i < a.len() && !a[i] && #[trigger] c[i];
            if i < a.len() - 1 {
                assert(!a.drop_last()[i] && c.drop_last()[i]);
            }
        }
    }
}

proof fn lemma_total_mono(a: Seq<Seq<bool>>, c: Seq<Seq<bool>>, m: int)
    requires
        shaped(a, a.len() as int, m),
        shaped(c, a.len() as int, m),
        leq(a, c),
    ensures
        total(a) <= total(c),
        total(c) <= c.len() * m,
        (exists|x: int, i: int| 0 <= x < a.len() && 0 <= i < m && !a[x][i] && #[trigger] c[x][i]) ==> total(a) < total(c),
    decreases a.len(),
{
    if a.len() > 0 {
        let n = a.len() - 1;
        assert(shaped(a.drop_last(), n, m));
        assert(shaped(c.drop_last(), n, m));
        lemma_total_mono(a.drop_last(), c.drop_last(), m);
        assert forall|i: int| 0 <= i < a[n].len() && #[trigger] a[n][i] implies c[n][i] by {}
        lemma_count_mono(a[n], c[n]);
        assert(c.len() * m == n * m + m) by (nonlinear_arith)
            requires c.len() == n + 1;
        if exists|x: int, i: int| 0 <= x < a.len() && 0 <= i < m && !a[x][i] && #[trigger] c[x][i] {
            let (x, i) = choose|x: int, i: int| 0 <= x < a.len() && 0 <= i < m && !a[x][i] && #[trigger] c[x][i];
            if x < n {
                assert(!a.drop_last()[x][i] && c.drop_last()[x][i]);
            } else {
                assert(!a[n][i] && c[n][i]);
            }
        }
    }
}

fn next_out_bits(succ: &Vec<usize>, ins: &Vec<Vec<bool>>, m: usize) -> (r: Vec<bool>)
    requires
        forall|k: int| 0 <= k < succ@.len() ==> #[trigger] succ@[k] < ins@.len(),
        forall|b: int| 0 <= b < ins@.len() ==> (#[trigger] ins@[b]).len() == m,
    ensures
        r@.len() == m,
        forall|i: int| 0 <= i < m ==> #[trigger] r@[i] == (exists|k: int| 0 <= k < succ@.len() && #[trigger] ins@[succ@[k] as int][i]),
{
    let mut r: Vec<bool> = Vec::new();
    let mut i: usize = 0;
    while i < m
        invariant
            i <= m,
            r@.len() == i,
            forall|j: int| 0 <= j < i ==> #[trigger] r@[j] == (exists|k: int| 0 <= k < succ@.len() && #[trigger] ins@[succ@[k] as int][j]),
        decreases m - i,
    {
        let mut any = false;
        let mut k: usize = 0;
        while k < succ.len()
            invariant
                k <= succ@.len(),
                i < m,
                any == (exists|l: int| 0 <= l < k && #[trigger] ins@[succ@[l] as int][i as int]),
            decreases succ.len() - k,
        {
            if ins[succ[k]][i] {
                any = true;
            }
            k = k + 1;
        }
        r.push(any);
        i = i + 1;
    }
    r
}

fn next_in_bits(ub: &Vec<bool>, db: &Vec<bool>, out: &Vec<bool>) -> (r: Vec<bool>)
    requires
        ub@.len() == out@.len(),
        db@.len() == out@.len(),
    ensures
        r@.len() == out@.len(),
        forall|i: int| 0 <= i < out@.len() ==> #[trigger] r@[i] == (ub@[i] || (out@[i] && !db@[i])),
{
    let mut r: Vec<bool> = Vec::new();
    let mut i: usize = 0;
    while i < out.len()
        invariant
            i <= out@.len(),
            r@.len() == i,
            forall|j: int| 0 <= j < i ==> #[trigger] r@[j] == (ub@[j] || (out@[j] && !db@[j])),
        decreases out.len() - i,
    {
        r.push(ub[i] || (out[i] && !db[i]));
        i = i + 1;
    }
    r
}

fn bits_equal(a: &Vec<bool>, c: &Vec<bool>) -> (r: bool)
    ensures
        r == (a@ == c@),
{
    if a.len() != c.len() {
        return false;
    }
    let mut i: usize = 0;
    while i < a.len()
        invariant
            i <= a@.len(),
            a@.len() == c@.len(),
            forall|j: int| 0 <= j < i ==> a@[j] == c@[j],
        decreases a.len() - i,
    {
        if a[i] != c[i] {
            return false;
        }
        i = i + 1;
    }
    proof {
        assert(a@ =~= c@);
    }
    true
}

/// The views of the rows of a table.
pub open spec fn rows<T>(v: Seq<Vec<T>>) -> Seq<Seq<T>> {
    Seq::new(v.len(), |i: int| v[i]@)
}

/// One update of block `b` keeps the bits justified and below every solution,
/// and only sets bits.
proof fn lemma_step(
    succ: Seq<Seq<usize>>,
    ub: Seq<Seq<bool>>,
    db: Seq<Seq<bool>>,
    m: int,
    ins: Seq<Seq<bool>>,
    outs: Seq<Seq<bool>>,
    b: int,
    no: Seq<bool>,
    ni: Seq<bool>,
)
    requires
        problem_wf(succ, ub, db, m),
        shaped(ins, succ.len() as int, m),
        shaped(outs, succ.len() as int, m),
        post_fixpoint(succ, ub, db, m, ins, outs),
        below_all(succ, ub, db, m, ins, outs),
        0 <= b < succ.len(),
        no.len() == m,
        ni.len() == m,
        forall|i: int| 0 <= i < m ==> #[trigger] no[i] == out_f(succ, ins, b, i),
        forall|i: int| 0 <= i < m ==> #[trigger] ni[i] == in_f(ub, db, no, b, i),
    ensures
        leq(ins, ins.update(b, ni)),
        leq(outs, outs.update(b, no)),
        shaped(ins.update(b, ni), succ.len() as int, m),
        shaped(outs.update(b, no), succ.len() as int, m),
        post_fixpoint(succ, ub, db, m, ins.update(b, ni), outs.update(b, no)),
        below_all(succ, ub, db, m, ins.update(b, ni), outs.update(b, no)),
{
    let n = succ.len() as int;
    let i2 = ins.update(b, ni);
    let o2 = outs.update(b, no);
    assert forall|i: int| 0 <= i < m && #[trigger] outs[b][i] implies no[i] by {
        assert(out_f(succ, ins, b, i));
    }
    assert forall|x: int, i: int| 0 <= x < outs.len() && 0 <= i < outs[x].len() && #[trigger] outs[x][i] implies o2[x][i] by {
        if x == b {
            assert(no[i]);
        }
    }
    assert forall|x: int, i: int| 0 <= x < ins.len() && 0 <= i < ins[x].len() && #[trigger] ins[x][i] implies i2[x][i] by {
        if x == b {
            assert(in_f(ub, db, outs[b], b, i));
            assert(ni[i] == in_f(ub, db, no, b, i));
        }
    }
    assert(shaped(i2, n, m));
    assert(shaped(o2, n, m));
    assert forall|x: int, i: int| 0 <= x < n && 0 <= i < m && #[trigger] o2[x][i] implies out_f(succ, i2, x, i) by {
        let base = if x == b { no[i] } else { outs[x][i] };
        assert(out_f(succ, ins, x, i));
        let k = choose|k: int| 0 <= k < succ[x].len() && #[trigger] ins[succ[x][k] as int][i];
        assert(succ[x][k] < n);
        assert(i2[succ[x][k] as int][i]);
    }
    assert forall|x: int, i: int| 0 <= x < n && 0 <= i < m && #[trigger] i2[x][i] implies in_f(ub, db, o2[x], x, i) by {
        if x != b {
            assert(in_f(ub, db, outs[x], x, i));
        }
    }
    assert forall|ins2: Seq<Seq<bool>>, outs2: Seq<Seq<bool>>| #[trigger] bit_solution(succ, ub, db, m, ins2, outs2)
        implies leq(i2, ins2) && leq(o2, outs2) by {
        assert(leq(ins, ins2) && leq(outs, outs2));
        assert forall|x: int, i: int| 0 <= x < o2.len() && 0 <= i < o2[x].len() && #[trigger] o2[x][i] implies outs2[x][i] by {
            if x == b {
                let k = choose|k: int| 0 <= k < succ[b].len() && #[trigger] ins[succ[b][k] as int][i];
                assert(succ[b][k] < n);
                assert(ins2[succ[b][k] as int][i]);
                assert(out_f(succ, ins2, b, i));
            }
        }
        assert forall|x: int, i: int| 0 <= x < i2.len() && 0 <= i < i2[x].len() && #[trigger] i2[x][i] implies ins2[x][i] by {
            if x == b {
                if no[i] {
                    assert(o2[b][i]);
                    assert(outs2[b][i]);
                }
                assert(in_f(ub, db, outs2[b], b, i));
            }
        }
    }
}

/// Solves the liveness equations: the least bit vectors on entry and exit of
/// every block that satisfy them, found by rounds over the blocks in reverse
/// order until a round changes nothing.
#[verifier::spinoff_prover]
#[verifier::rlimit(50)]
fn solve_liveness(succ: &Vec<Vec<usize>>, ub: &Vec<Vec<bool>>, db: &Vec<Vec<bool>>, m: usize)
    -> (r: (Vec<Vec<bool>>, Vec<Vec<bool>>))
    requires
        problem_wf(rows(succ@), rows(ub@), rows(db@), m as int),
    ensures
        bit_solution(rows(succ@), rows(ub@), rows(db@), m as int, rows(r.0@), rows(r.1@)),
        below_all(rows(succ@), rows(ub@), rows(db@), m as int, rows(r.0@), rows(r.1@)),
{
    let ghost sv = rows(succ@);
    let ghost uv = rows(ub@);
    let ghost dv = rows(db@);
    let n = succ.len();
    let mut ins: Vec<Vec<bool>> = Vec::new();
    let mut outs: Vec<Vec<bool>> = Vec::new();
    let mut b0: usize = 0;
    while b0 < n
        invariant
            b0 <= n,
            n == sv.len(),
            ins@.len() == b0,
            outs@.len() == b0,
            forall|x: int, i: int| 0 <= x < b0 && 0 <= i < m ==> !(#[trigger] ins@[x]@[i]) && !outs@[x]@[i],
            forall|x: int| 0 <= x < b0 ==> (#[trigger] ins@[x])@.len() == m && outs@[x]@.len() == m,
        decreases n - b0,
    {
        let mut row: Vec<bool> = Vec::new();
        let mut i: usize = 0;
        while i < m
            invariant
                i <= m,
                row@.len() == i,
                forall|j: int| 0 <= j < i ==> !row@[j],
            decreases m - i,
        {
            row.push(false);
            i = i + 1;
        }
        let mut row2: Vec<bool> = Vec::new();
        let mut i: usize = 0;
        while i < m
            invariant
                i <= m,
                row2@.len() == i,
                forall|j: int| 0 <= j < i ==> !row2@[j],
            decreases m - i,
        {
            row2.push(false);
            i = i + 1;
        }
        ins.push(row);
        outs.push(row2);
        b0 = b0 + 1;
    }
    proof {
        assert forall|x: int| 0 <= x < n implies (#[trigger] rows(outs@)[x]).len() == m && rows(ins@)[x].len() == m by {
            assert(ins@[x]@.len() == m);
        }
        assert(shaped(rows(ins@), n as int, m as int));
        assert(shaped(rows(outs@), n as int, m as int));
        assert forall|x: int, i: int| 0 <= x < n && 0 <= i < m implies !(#[trigger] rows(outs@)[x][i]) && !rows(ins@)[x][i] by {
            assert(!ins@[x]@[i]);
        }
        assert forall|ins2: Seq<Seq<bool>>, outs2: Seq<Seq<bool>>| #[trigger] bit_solution(sv, uv, dv, m as int, ins2, outs2)
            implies leq(rows(ins@), ins2) && leq(rows(outs@), outs2) by {}
        lemma_total_mono(rows(ins@), rows(ins@), m as int);
        lemma_total_mono(rows(outs@), rows(outs@), m as int);
    }
    let mut changed = true;
    while changed
        invariant
            n == sv.len(),
            sv == rows(succ@),
            uv == rows(ub@),
            dv == rows(db@),
            problem_wf(sv, uv, dv, m as int),
            shaped(rows(ins@), n as int, m as int),
            shaped(rows(outs@), n as int, m as int),
            post_fixpoint(sv, uv, dv, m as int, rows(ins@), rows(outs@)),
            below_all(sv, uv, dv, m as int, rows(ins@), rows(outs@)),
            total(rows(ins@)) <= n * m,
            total(rows(outs@)) <= n * m,
            !changed ==> bit_solution(sv, uv, dv, m as int, rows(ins@), rows(outs@)),
        decreases (n * m - total(rows(ins@))) + (n * m - total(rows(outs@))), if changed { 1int } else { 0int },
    {
        changed = false;
        let ghost ins0 = rows(ins@);
        let ghost outs0 = rows(outs@);
        let mut j = n;
        while j > 0
            invariant
                j <= n,
                n == sv.len(),
                sv == rows(succ@),
                uv == rows(ub@),
                dv == rows(db@),
                problem_wf(sv, uv, dv, m as int),
                shaped(rows(ins@), n as int, m as int),
                shaped(rows(outs@), n as int, m as int),
                post_fixpoint(sv, uv, dv, m as int, rows(ins@), rows(outs@)),
                below_all(sv, uv, dv, m as int, rows(ins@), rows(outs@)),
                leq(ins0, rows(ins@)),
                leq(outs0, rows(outs@)),
                shaped(ins0, n as int, m as int),
                shaped(outs0, n as int, m as int),
                changed ==> total(ins0) + total(outs0) < total(rows(ins@)) + total(rows(outs@)),
                !changed ==> rows(ins@) == ins0 && rows(outs@) == outs0,
                !changed ==> forall|x: int, i: int| j <= x < n && 0 <= i < m ==>
                    (#[trigger] rows(outs@)[x][i] == out_f(sv, rows(ins@), x, i)
                        && rows(ins@)[x][i] == in_f(uv, dv, rows(outs@)[x], x, i)),
            decreases j,
        {
            let b = j - 1;
            let ghost i_before = rows(ins@);
            let ghost o_before = rows(outs@);
            proof {
                assert(sv[b as int] == succ@[b as int]@);
                assert forall|k: int| 0 <= k < succ@[b as int]@.len() implies #[trigger] succ@[b as int]@[k] < ins@.len() by {
                    assert(sv[b as int][k] < sv.len());
                }
                assert forall|x: int| 0 <= x < ins@.len() implies (#[trigger] ins@[x])@.len() == m by {
                    assert(rows(ins@)[x].len() == m);
                }
                assert(uv[b as int] == ub@[b as int]@);
                assert(dv[b as int] == db@[b as int]@);
            }
            let next_out = next_out_bits(&succ[b], &ins, m);
            let next_in = next_in_bits(&ub[b], &db[b], &next_out);
            proof {
                assert forall|i: int| 0 <= i < m implies #[trigger] next_out@[i] == out_f(sv, i_before, b as int, i) by {
                    if next_out@[i] {
                        let k = choose|k: int| 0 <= k < succ@[b as int]@.len() && #[trigger] ins@[succ@[b as int]@[k] as int]@[i];
                        assert(i_before[sv[b as int][k] as int][i]);
                    }
                    if out_f(sv, i_before, b as int, i) {
                        let k = choose|k: int| 0 <= k < sv[b as int].len() && #[trigger] i_before[sv[b as int][k] as int][i];
                        assert(ins@[succ@[b as int]@[k] as int]@[i]);
                    }
                }
                assert forall|i: int| 0 <= i < m implies #[trigger] next_in@[i] == in_f(uv, dv, next_out@, b as int, i) by {}
                lemma_step(sv, uv, dv, m as int, i_before, o_before, b as int, next_out@, next_in@);
                lemma_total_mono(i_before, i_before.update(b as int, next_in@), m as int);
                lemma_total_mono(o_before, o_before.update(b as int, next_out@), m as int);
            }
            let ghost no = next_out@;
            let ghost ni = next_in@;
            if !bits_equal(&outs[b], &next_out) {
                outs.set(b, next_out);
                changed = true;
                proof {
                    assert(!(o_before[b as int] =~= no));
                    let i = choose|i: int| 0 <= i < m && o_before[b as int][i] != no[i];
                    assert(leq(o_before, o_before.update(b as int, no)));
                    assert(o_before[b as int][i] ==> o_before.update(b as int, no)[b as int][i]);
                    assert(!o_before[b as int][i] && o_before.update(b as int, no)[b as int][i]);
                    lemma_total_mono(o_before, o_before.update(b as int, no), m as int);
                }
            } else {
                proof {
                    assert(o_before.update(b as int, no) =~= o_before);
                }
            }
            if !bits_equal(&ins[b], &next_in) {
                ins.set(b, next_in);
                changed = true;
                proof {
                    assert(!(i_before[b as int] =~= ni));
                    let i = choose|i: int| 0 <= i < m && i_before[b as int][i] != ni[i];
                    assert(leq(i_before, i_before.update(b as int, ni)));
                    assert(i_before[b as int][i] ==> i_before.update(b as int, ni)[b as int][i]);
                    assert(!i_before[b as int][i] && i_before.update(b as int, ni)[b as int][i]);
                    lemma_total_mono(i_before, i_before.update(b as int, ni), m as int);
                }
            } else {
                proof {
                    assert(i_before.update(b as int, ni) =~= i_before);
                }
            }
            proof {
                assert(rows(outs@) =~= o_before.update(b as int, no));
                assert(rows(ins@) =~= i_before.update(b as int, ni));
                assert forall|x: int, i: int| 0 <= x < ins0.len() && 0 <= i < ins0[x].len() && #[trigger] ins0[x][i] implies rows(ins@)[x][i] by {
                    assert(i_before[x][i]);
                }
                assert forall|x: int, i: int| 0 <= x < outs0.len() && 0 <= i < outs0[x].len() && #[trigger] outs0[x][i] implies rows(outs@)[x][i] by {
                    assert(o_before[x][i]);
                }
                lemma_total_mono(ins0, rows(ins@), m as int);
                lemma_total_mono(outs0, rows(outs@), m as int);
            }
            j = j - 1;
        }
        proof {
            lemma_total_mono(rows(ins@), rows(ins@), m as int);
            lemma_total_mono(rows(outs@), rows(outs@), m as int);
            if !changed {
                assert forall|x: int, i: int| 0 <= x < n && 0 <= i < m implies
                    #[trigger] rows(outs@)[x][i] == out_f(sv, rows(ins@), x, i) by {
                    assert(rows(outs@)[x][i] == out_f(sv, rows(ins@), x, i)
                        && rows(ins@)[x][i] == in_f(uv, dv, rows(outs@)[x], x, i));
                }
                assert forall|x: int, i: int| 0 <= x < n && 0 <= i < m implies
                    #[trigger] rows(ins@)[x][i] == in_f(uv, dv, rows(outs@)[x], x, i) by {
                    assert(rows(outs@)[x][i] == out_f(sv, rows(ins@), x, i)
                        && rows(ins@)[x][i] == in_f(uv, dv, rows(outs@)[x], x, i));
                }
            } else {
                assert(total(ins0) + total(outs0) < total(rows(ins@)) + total(rows(outs@)));
            }
        }
    }
    (ins, outs)
}

// ---------------------------------------------------------------------------
// Liveness in terms of sets of names.

pub open spec fn uses_of(b: AsyncBlock) -> Set<Seq<char>> {
    spec_block_use_def(b).0
}

pub open spec fn defs_of(b: AsyncBlock) -> Set<Seq<char>> {
    spec_block_use_def(b).1
}

/// The names live on entry of some successor of block `b`.
pub open spec fn succ_union(blocks: Seq<AsyncBlock>, ins: Seq<Set<Seq<char>>>, b: int) -> Set<Seq<char>> {
    Set::new(|x: Seq<char>| exists|k: int| 0 <= k < spec_successors(blocks[b].terminator).len()
        && #[trigger] ins[spec_successors(blocks[b].terminator)[k] as int].contains(x))
}

/// `ins`/`outs` satisfy the liveness equations: a name is live on exit of a
/// block when it is live on entry of a successor, and live on entry when the
/// block reads it before writing it or it is live on exit and not written.
pub open spec fn is_liveness_solution(
    blocks: Seq<AsyncBlock>,
    ins: Seq<Set<Seq<char>>>,
    outs: Seq<Set<Seq<char>>>,
) -> bool {
    &&& ins.len() == blocks.len()
    &&& outs.len() == blocks.len()
    &&& forall|b: int| 0 <= b < blocks.len() ==> #[trigger] outs[b] == succ_union(blocks, ins, b)
    &&& forall|b: int| 0 <= b < blocks.len() ==>
        #[trigger] ins[b] == uses_of(blocks[b]).union(outs[b].difference(defs_of(blocks[b])))
}

/// The least solution: contained in every solution.
pub open spec fn is_least_liveness(
    blocks: Seq<AsyncBlock>,
    ins: Seq<Set<Seq<char>>>,
    outs: Seq<Set<Seq<char>>>,
) -> bool {
    &&& is_liveness_solution(blocks, ins, outs)
    &&& forall|ins2: Seq<Set<Seq<char>>>, outs2: Seq<Set<Seq<char>>>|
        #[trigger] is_liveness_solution(blocks, ins2, outs2) ==>
            forall|b: int| 0 <= b < blocks.len() ==>
                (#[trigger] ins[b]).subset_of(ins2[b]) && outs[b].subset_of(outs2[b])
}

/// A name that the block an await resumes in reads before writing it is live
/// on exit of the awaiting block, so it is kept across the suspension: for
/// instance a local read after the await only as the index of an array element.
pub proof fn lemma_resume_reads_live(
    blocks: Seq<AsyncBlock>,
    ins: Seq<Set<Seq<char>>>,
    outs: Seq<Set<Seq<char>>>,
    b: int,
    x: Seq<char>,
)
    requires
        is_liveness_solution(blocks, ins, outs),
        0 <= b < blocks.len(),
        blocks[b].terminator is Await,
        (blocks[b].terminator->Await_0.resume_block as int) < blocks.len(),
        uses_of(blocks[blocks[b].terminator->Await_0.resume_block as int]).contains(x),
    ensures
        outs[b].contains(x),
{
    let s = blocks[b].terminator->Await_0.resume_block;
    assert(spec_successors(blocks[b].terminator)[0] == s);
    assert(ins[s as int].contains(x));
    assert(succ_union(blocks, ins, b).contains(x));
}

/// `r` lists, for every suspension in block order, its state and the names
/// live on exit of its block in ascending order.
pub open spec fn reports(blocks: Seq<AsyncBlock>, outs: Seq<Set<Seq<char>>>, r: Seq<LiveAcrossAwait>) -> bool {
    let idx = await_indices(blocks, blocks.len() as int);
    &&& r.len() == idx.len()
    &&& forall|k: int| 0 <= k < r.len() ==> {
        &&& (#[trigger] r[k]).state == blocks[idx[k]].terminator->Await_0.state
        &&& strictly_sorted(views_of(r[k].vars@))
        &&& forall|x: Seq<char>| views_of(r[k].vars@).contains(x) <==> outs[idx[k]].contains(x)
    }
}

pub open spec fn live_result(blocks: Seq<AsyncBlock>, r: Seq<LiveAcrossAwait>) -> bool {
    exists|ins: Seq<Set<Seq<char>>>, outs: Seq<Set<Seq<char>>>|
        #[trigger] is_least_liveness(blocks, ins, outs) && reports(blocks, outs, r)
}

/// The names whose bits are set.
pub open spec fn set_of(names: Seq<Seq<char>>, bits: Seq<bool>) -> Set<Seq<char>> {
    Set::new(|x: Seq<char>| exists|i: int| 0 <= i < names.len() && bits[i] && #[trigger] names[i] == x)
}

pub open spec fn sets_of(names: Seq<Seq<char>>, vs: Seq<Seq<bool>>) -> Seq<Set<Seq<char>>> {
    Seq::new(vs.len(), |b: int| set_of(names, vs[b]))
}

/// Some block before `n` reads `x` before writing it.
pub open spec fn used_before(blocks: Seq<AsyncBlock>, n: int, x: Seq<char>) -> bool {
    exists|b: int| 0 <= b < n && #[trigger] uses_of(blocks[b]).contains(x)
}

/// The dataflow problem of `blocks` over the names `names`.
pub open spec fn encodes(
    blocks: Seq<AsyncBlock>,
    names: Seq<Seq<char>>,
    succ: Seq<Seq<usize>>,
    ub: Seq<Seq<bool>>,
    db: Seq<Seq<bool>>,
) -> bool {
    &&& succ.len() == blocks.len()
    &&& forall|b: int| 0 <= b < blocks.len() ==> #[trigger] succ[b] == spec_successors(blocks[b].terminator)
    &&& forall|b: int, i: int| 0 <= b < blocks.len() && 0 <= i < names.len() ==>
        #[trigger] ub[b][i] == uses_of(blocks[b]).contains(names[i])
    &&& forall|b: int, i: int| 0 <= b < blocks.len() && 0 <= i < names.len() ==>
        #[trigger] db[b][i] == defs_of(blocks[b]).contains(names[i])
    &&& forall|x: Seq<char>| used_before(blocks, blocks.len() as int, x) ==> names.contains(x)
}

/// The least bit solution, read as sets, is the least liveness solution.
proof fn lemma_bits_to_sets(
    blocks: Seq<AsyncBlock>,
    names: Seq<Seq<char>>,
    succ: Seq<Seq<usize>>,
    ub: Seq<Seq<bool>>,
    db: Seq<Seq<bool>>,
    ins: Seq<Seq<bool>>,
    outs: Seq<Seq<bool>>,
)
    requires
        encodes(blocks, names, succ, ub, db),
        problem_wf(succ, ub, db, names.len() as int),
        bit_solution(succ, ub, db, names.len() as int, ins, outs),
        below_all(succ, ub, db, names.len() as int, ins, outs),
    ensures
        is_least_liveness(blocks, sets_of(names, ins), sets_of(names, outs)),
{
    let n = blocks.len() as int;
    let m = names.len() as int;
    let si = sets_of(names, ins);
    let so = sets_of(names, outs);
    assert forall|b: int| 0 <= b < n implies #[trigger] so[b] == succ_union(blocks, si, b) by {
        assert forall|x: Seq<char>| so[b].contains(x) <==> succ_union(blocks, si, b).contains(x) by {
            if so[b].contains(x) {
                let i = choose|i: int| 0 <= i < m && outs[b][i] && #[trigger] names[i] == x;
                assert(out_f(succ, ins, b, i));
                let k = choose|k: int| 0 <= k < succ[b].len() && #[trigger] ins[succ[b][k] as int][i];
                assert(succ[b][k] < n);
                assert(si[succ[b][k] as int].contains(x));
                assert(spec_successors(blocks[b].terminator)[k] == succ[b][k]);
            }
            if succ_union(blocks, si, b).contains(x) {
                let k = choose|k: int| 0 <= k < spec_successors(blocks[b].terminator).len()
                    && #[trigger] si[spec_successors(blocks[b].terminator)[k] as int].contains(x);
                let t = succ[b][k] as int;
                assert(t < n);
                let i = choose|i: int| 0 <= i < m && ins[t][i] && #[trigger] names[i] == x;
                assert(ins[succ[b][k] as int][i]);
                assert(out_f(succ, ins, b, i));
                assert(outs[b][i]);
            }
        }
        assert(so[b] =~= succ_union(blocks, si, b));
    }
    assert forall|b: int| 0 <= b < n implies
        #[trigger] si[b] == uses_of(blocks[b]).union(so[b].difference(defs_of(blocks[b]))) by {
        let rhs = uses_of(blocks[b]).union(so[b].difference(defs_of(blocks[b])));
        assert forall|x: Seq<char>| si[b].contains(x) <==> rhs.contains(x) by {
            if si[b].contains(x) {
                let i = choose|i: int| 0 <= i < m && ins[b][i] && #[trigger] names[i] == x;
                assert(in_f(ub, db, outs[b], b, i));
                if !ub[b][i] {
                    assert(so[b].contains(x));
                }
            }
            if uses_of(blocks[b]).contains(x) {
                assert(used_before(blocks, n, x));
                assert(names.contains(x));
                let i = choose|i: int| 0 <= i < m && names[i] == x;
                assert(ub[b][i]);
                assert(ins[b][i]);
            }
            if so[b].contains(x) && !defs_of(blocks[b]).contains(x) {
                let i = choose|i: int| 0 <= i < m && outs[b][i] && #[trigger] names[i] == x;
                assert(!db[b][i]);
                assert(ins[b][i]);
            }
        }
        assert(si[b] =~= rhs);
    }
    assert(is_liveness_solution(blocks, si, so));
    assert forall|ins2: Seq<Set<Seq<char>>>, outs2: Seq<Set<Seq<char>>>|
        #[trigger] is_liveness_solution(blocks, ins2, outs2) implies
            forall|b: int| 0 <= b < n ==> (#[trigger] si[b]).subset_of(ins2[b]) && so[b].subset_of(outs2[b]) by {
        let i2 = Seq::new(n as nat, |b: int| Seq::new(m as nat, |i: int| ins2[b].contains(names[i])));
        let o2 = Seq::new(n as nat, |b: int| Seq::new(m as nat, |i: int| outs2[b].contains(names[i])));
        assert forall|b: int, i: int| 0 <= b < n && 0 <= i < m implies #[trigger] o2[b][i] == out_f(succ, i2, b, i) by {
            assert(outs2[b] == succ_union(blocks, ins2, b));
            if o2[b][i] {
                assert(succ_union(blocks, ins2, b).contains(names[i]));
                let k = choose|k: int| 0 <= k < spec_successors(blocks[b].terminator).len()
                    && #[trigger] ins2[spec_successors(blocks[b].terminator)[k] as int].contains(names[i]);
                assert(succ[b][k] < n);
                assert(i2[succ[b][k] as int][i]);
            }
            if out_f(succ, i2, b, i) {
                let k = choose|k: int| 0 <= k < succ[b].len() && #[trigger] i2[succ[b][k] as int][i];
                assert(succ[b][k] < n);
                assert(ins2[spec_successors(blocks[b].terminator)[k] as int].contains(names[i]));
                assert(succ_union(blocks, ins2, b).contains(names[i]));
            }
        }
        assert forall|b: int, i: int| 0 <= b < n && 0 <= i < m implies #[trigger] i2[b][i] == in_f(ub, db, o2[b], b, i) by {
            assert(ins2[b] == uses_of(blocks[b]).union(outs2[b].difference(defs_of(blocks[b]))));
        }
        assert(bit_solution(succ, ub, db, m, i2, o2));
        assert(leq(ins, i2) && leq(outs, o2));
        assert forall|b: int| 0 <= b < n implies (#[trigger] si[b]).subset_of(ins2[b]) && so[b].subset_of(outs2[b]) by {
            assert forall|x: Seq<char>| si[b].contains(x) implies ins2[b].contains(x) by {
                let i = choose|i: int| 0 <= i < m && ins[b][i] && #[trigger] names[i] == x;
                assert(i2[b][i]);
            }
            assert forall|x: Seq<char>| so[b].contains(x) implies outs2[b].contains(x) by {
                let i = choose|i: int| 0 <= i < m && outs[b][i] && #[trigger] names[i] == x;
                assert(o2[b][i]);
            }
        }
    }
}

fn membership_bits(names: &Vec<String>, s: &NameSet) -> (r: Vec<bool>)
    ensures
        r@.len() == names@.len(),
        forall|i: int| 0 <= i < names@.len() ==> #[trigger] r@[i] == s.view_set().contains(names@[i]@),
{
    let mut r: Vec<bool> = Vec::new();
    let mut i: usize = 0;
    while i < names.len()
        invariant
            i <= names@.len(),
            r@.len() == i,
            forall|j: int| 0 <= j < i ==> #[trigger] r@[j] == s.view_set().contains(names@[j]@),
        decreases names.len() - i,
    {
        r.push(s.contains(names[i].as_str()));
        i = i + 1;
    }
    r
}

/// The names whose bits are set, in the order of `names`.
fn select_names(names: &Vec<String>, bits: &Vec<bool>) -> (r: Vec<String>)
    requires
        bits@.len() == names@.len(),
        strictly_sorted(views_of(names@)),
    ensures
        strictly_sorted(views_of(r@)),
        forall|x: Seq<char>| views_of(r@).contains(x) <==> set_of(views_of(names@), bits@).contains(x),
{
    let ghost nv = views_of(names@);
    let mut r: Vec<String> = Vec::new();
    let ghost mut idx: Seq<int> = Seq::empty();
    let mut i: usize = 0;
    while i < names.len()
        invariant
            i <= names@.len(),
            nv == views_of(names@),
            bits@.len() == names@.len(),
            strictly_sorted(nv),
            idx.len() == r@.len(),
            forall|k: int| 0 <= k < idx.len() ==> 0 <= #[trigger] idx[k] < i && bits@[idx[k]] && r@[k]@ == nv[idx[k]],
            forall|k: int, l: int| 0 <= k < l < idx.len() ==> #[trigger] idx[k] < #[trigger] idx[l],
            forall|j: int| 0 <= j < i && bits@[j] ==> exists|k: int| 0 <= k < idx.len() && #[trigger] idx[k] == j,
        decreases names.len() - i,
    {
        if bits[i] {
            r.push(names[i].clone());
            proof {
                let old_idx = idx;
                idx = idx.push(i as int);
                assert forall|j: int| 0 <= j < i + 1 && bits@[j] implies exists|k: int| 0 <= k < idx.len() && #[trigger] idx[k] == j by {
                    if j == i {
                        assert(idx[idx.len() - 1] == j);
                    } else {
                        let k = choose|k: int| 0 <= k < old_idx.len() && #[trigger] old_idx[k] == j;
                        assert(idx[k] == j);
                    }
                }
            }
        }
        i = i + 1;
    }
    proof {
        let rv = views_of(r@);
        assert forall|k: int, l: int| 0 <= k < l < rv.len() implies crate::order::seq_lt(#[trigger] rv[k], #[trigger] rv[l]) by {
            assert(idx[k] < idx[l]);
            assert(rv[k] == nv[idx[k]]);
            assert(rv[l] == nv[idx[l]]);
        }
        assert forall|x: Seq<char>| rv.contains(x) <==> set_of(nv, bits@).contains(x) by {
            if rv.contains(x) {
                let k = choose|k: int| 0 <= k < rv.len() && rv[k] == x;
                assert(nv[idx[k]] == x);
            }
            if set_of(nv, bits@).contains(x) {
                let j = choose|j: int| 0 <= j < nv.len() && bits@[j] && #[trigger] nv[j] == x;
                let k = choose|k: int| 0 <= k < idx.len() && #[trigger] idx[k] == j;
                assert(rv[k] == x);
            }
        }
    }
    r
}

impl AsyncCfgFunction {
    fn successors(&self, block: &AsyncBlock) -> (r: Vec<usize>)
        ensures
            r@ == spec_successors(block.terminator),
    {
        match &block.terminator {
            AsyncTerminator::Jump(target) => vec![*target],
            AsyncTerminator::Branch { then_block, else_block, .. } => vec![*then_block, *else_block],
            AsyncTerminator::Await(a) => vec![a.resume_block],
            _ => Vec::new(),
        }
    }

    /// For every suspension, the variables live across it: the names live on
    /// exit of its block in the least solution of the liveness equations,
    /// in ascending order.
    pub fn live_across_awaits(&self) -> (r: Vec<LiveAcrossAwait>)
        requires
            blocks_wf(self.blocks@),
        ensures
            live_result(self.blocks@, r@),
    {
        let ghost bl = self.blocks@;
        let n = self.blocks.len();
        let mut uses: Vec<NameSet> = Vec::new();
        let mut defs: Vec<NameSet> = Vec::new();
        let mut succ: Vec<Vec<usize>> = Vec::new();
        let mut b: usize = 0;
        while b < n
            invariant
                b <= n,
                n == bl.len(),
                bl == self.blocks@,
                uses@.len() == b,
                defs@.len() == b,
                succ@.len() == b,
                forall|x: int| 0 <= x < b ==> (#[trigger] uses@[x]).wf() && uses@[x].view_set() == uses_of(bl[x]),
                forall|x: int| 0 <= x < b ==> (#[trigger] defs@[x]).view_set() == defs_of(bl[x]),
                forall|x: int| 0 <= x < b ==> (#[trigger] succ@[x])@ == spec_successors(bl[x].terminator),
            decreases n - b,
        {
            let (u, d) = block_use_def(&self.blocks[b]);
            uses.push(u);
            defs.push(d);
            succ.push(self.successors(&self.blocks[b]));
            b = b + 1;
        }
        let mut names: Vec<String> = Vec::new();
        let mut b: usize = 0;
        while b < n
            invariant
                b <= n,
                n == bl.len(),
                uses@.len() == n,
                forall|x: int| 0 <= x < n ==> (#[trigger] uses@[x]).wf() && uses@[x].view_set() == uses_of(bl[x]),
                strictly_sorted(views_of(names@)),
                forall|x: Seq<char>| views_of(names@).contains(x) <==> used_before(bl, b as int, x),
            decreases n - b,
        {
            let ghost before = views_of(names@);
            let ghost un = uses@[b as int].names@;
            proof {
                assert(un.take(0) =~= Seq::<String>::empty());
            }
            let mut k: usize = 0;
            while k < uses[b].names.len()
                invariant
                    b < n,
                    un == uses@[b as int].names@,
                    k <= un.len(),
                    strictly_sorted(views_of(names@)),
                    forall|x: Seq<char>| #[trigger] views_of(names@).contains(x) <==>
                        (before.contains(x) || has_name(un.take(k as int), x)),
                decreases un.len() - k,
            {
                let ghost pre = views_of(names@);
                let nm = uses[b].names[k].clone();
                insert_sorted(&mut names, nm);
                proof {
                    assert forall|x: Seq<char>| #[trigger] views_of(names@).contains(x) <==>
                        (before.contains(x) || has_name(un.take(k + 1), x)) by {
                        assert(pre.contains(x) <==> (before.contains(x) || has_name(un.take(k as int), x)));
                        if has_name(un.take(k + 1), x) {
                            let j = choose|j: int| 0 <= j < un.take(k + 1).len() && (#[trigger] un.take(k + 1)[j])@ == x;
                            if j < k {
                                assert(un.take(k as int)[j]@ == x);
                            }
                        }
                        if has_name(un.take(k as int), x) {
                            let j = choose|j: int| 0 <= j < un.take(k as int).len() && (#[trigger] un.take(k as int)[j])@ == x;
                            assert(un.take(k + 1)[j]@ == x);
                        }
                        if x == un[k as int]@ {
                            assert(un.take(k + 1)[k as int]@ == x);
                        }
                    }
                }
                k = k + 1;
            }
            proof {
                assert(un.take(un.len() as int) =~= un);
                assert forall|x: Seq<char>| #[trigger] views_of(names@).contains(x) <==> used_before(bl, b + 1, x) by {
                    assert(views_of(names@).contains(x) <==> (before.contains(x) || has_name(un, x)));
                    assert(before.contains(x) <==> used_before(bl, b as int, x));
                    assert(has_name(un, x) <==> uses_of(bl[b as int]).contains(x));
                    if used_before(bl, b + 1, x) && !used_before(bl, b as int, x) {
                        let c = choose|c: int| 0 <= c < b + 1 && #[trigger] uses_of(bl[c]).contains(x);
                        assert(c == b);
                    }
                    if uses_of(bl[b as int]).contains(x) {
                        assert(used_before(bl, b + 1, x));
                    }
                    if used_before(bl, b as int, x) {
                        let c = choose|c: int| 0 <= c < b && #[trigger] uses_of(bl[c]).contains(x);
                        assert(used_before(bl, b + 1, x));
                    }
                }
            }
            b = b + 1;
        }
        let m = names.len();
        let ghost nv = views_of(names@);
        let mut ub: Vec<Vec<bool>> = Vec::new();
        let mut db: Vec<Vec<bool>> = Vec::new();
        let mut b: usize = 0;
        while b < n
            invariant
                b <= n,
                n == bl.len(),
                m == names@.len(),
                nv == views_of(names@),
                uses@.len() == n,
                defs@.len() == n,
                forall|x: int| 0 <= x < n ==> (#[trigger] uses@[x]).view_set() == uses_of(bl[x]),
                forall|x: int| 0 <= x < n ==> (#[trigger] defs@[x]).view_set() == defs_of(bl[x]),
                ub@.len() == b,
                db@.len() == b,
                forall|x: int| 0 <= x < b ==> (#[trigger] ub@[x])@.len() == m && db@[x]@.len() == m,
                forall|x: int, i: int| 0 <= x < b && 0 <= i < m ==> #[trigger] ub@[x]@[i] == uses_of(bl[x]).contains(nv[i]),
                forall|x: int, i: int| 0 <= x < b && 0 <= i < m ==> #[trigger] db@[x]@[i] == defs_of(bl[x]).contains(nv[i]),
            decreases n - b,
        {
            ub.push(membership_bits(&names, &uses[b]));
            db.push(membership_bits(&names, &defs[b]));
            b = b + 1;
        }
        proof {
            let sv = rows(succ@);
            assert forall|x: int, k: int| 0 <= x < sv.len() && 0 <= k < sv[x].len() implies #[trigger] sv[x][k] < sv.len() by {
                assert(sv[x] == spec_successors(bl[x].terminator));
                assert(targets_below(bl[x].terminator, bl.len()));
                assert(spec_successors(bl[x].terminator)[k] < bl.len());
            }
            assert(rows(ub@).len() == n && rows(db@).len() == n && sv.len() == n);
            assert forall|x: int| 0 <= x < n implies (#[trigger] rows(ub@)[x]).len() == m by {
                assert(ub@[x]@.len() == m);
            }
            assert forall|x: int| 0 <= x < n implies (#[trigger] rows(db@)[x]).len() == m by {
                assert(ub@[x]@.len() == m);
            }
            assert(problem_wf(sv, rows(ub@), rows(db@), m as int));
            assert forall|x: int, i: int| 0 <= x < n && 0 <= i < m implies #[trigger] rows(ub@)[x][i] == uses_of(bl[x]).contains(nv[i]) by {
                assert(ub@[x]@[i] == uses_of(bl[x]).contains(nv[i]));
            }
            assert forall|x: int, i: int| 0 <= x < n && 0 <= i < m implies #[trigger] rows(db@)[x][i] == defs_of(bl[x]).contains(nv[i]) by {
                assert(db@[x]@[i] == defs_of(bl[x]).contains(nv[i]));
            }
            assert(encodes(bl, nv, sv, rows(ub@), rows(db@)));
        }
        let (ins, outs) = solve_liveness(&succ, &ub, &db, m);
        let ghost si = sets_of(nv, rows(ins@));
        let ghost so = sets_of(nv, rows(outs@));
        proof {
            lemma_bits_to_sets(bl, nv, rows(succ@), rows(ub@), rows(db@), rows(ins@), rows(outs@));
            assert forall|x: int| 0 <= x < n implies (#[trigger] outs@[x])@.len() == m by {
                assert(rows(outs@)[x].len() == m);
            }
        }
        let mut r: Vec<LiveAcrossAwait> = Vec::new();
        let mut b: usize = 0;
        while b < n
            invariant
                b <= n,
                n == bl.len(),
                bl == self.blocks@,
                nv == views_of(names@),
                strictly_sorted(nv),
                outs@.len() == n,
                forall|x: int| 0 <= x < n ==> (#[trigger] outs@[x])@.len() == m,
                m == names@.len(),
                so == sets_of(nv, rows(outs@)),
                r@.len() == await_indices(bl, b as int).len(),
                forall|k: int| 0 <= k < r@.len() ==> {
                    &&& (#[trigger] r@[k]).state == bl[await_indices(bl, b as int)[k]].terminator->Await_0.state
                    &&& strictly_sorted(views_of(r@[k].vars@))
                    &&& forall|x: Seq<char>| views_of(r@[k].vars@).contains(x) <==> so[await_indices(bl, b as int)[k]].contains(x)
                },
            decreases n - b,
        {
            proof {
                lemma_await_indices_bounds(bl, b as int);
                assert(rows(outs@).len() == n);
                assert(outs@[b as int]@.len() == m);
            }
            match &self.blocks[b].terminator {
                AsyncTerminator::Await(a) => {
                    let vars = select_names(&names, &outs[b]);
                    proof {
                        assert(so[b as int] == set_of(nv, outs@[b as int]@));
                    }
                    r.push(LiveAcrossAwait { state: a.state, vars });
                }
                _ => {}
            }
            b = b + 1;
        }
        proof {
            assert(reports(bl, so, r@));
            assert(is_least_liveness(bl, si, so));
        }
        r
    }
}

// ---------------------------------------------------------------------------
// The graph of a body whose awaits all stand at statement level.

/// The await a statement performs at its top, with the variable that
/// receives its value.
pub open spec fn spec_top_level_await(s: SStmt) -> Option<(SExp, Option<Seq<char>>)> {
    match s {
        SStmt::Decl(_, ds) => first_decl_await(ds, 0),
        SStmt::Assign(SExp::Ident(name), SExp::Await(inner)) => Some((*inner, Some(name))),
        SStmt::Exp(SExp::Await(inner)) => Some((*inner, None)),
        SStmt::Return(Some(SExp::Await(inner))) => Some((*inner, Some("__return"@))),
        _ => None,
    }
}

/// The first declarator at or after `i` initialized directly by an await.
pub open spec fn first_decl_await(ds: Seq<SDecl>, i: int) -> Option<(SExp, Option<Seq<char>>)>
    decreases ds.len() - i,
{
    if 0 <= i < ds.len() {
        match ds[i].init {
            Some(SInit::Exp(SExp::Await(inner))) => Some((*inner, Some(spec_var_decl_name(ds[i].var)))),
            _ => first_decl_await(ds, i + 1),
        }
    } else {
        None
    }
}

fn top_level_await(stmt: &Stmt) -> (r: Option<(Exp, Option<String>)>)
    ensures
        match r {
            Some((e, t)) => spec_top_level_await(stmt@) == Some((e@, match t { Some(t) => Some(t@), None => None::<Seq<char>> })),
            None => spec_top_level_await(stmt@) is None,
        },
{
    match stmt {
        Stmt::Decl(_, decls) => {
            let ghost dv = stmt@->Decl_1;
            let mut i: usize = 0;
            while i < decls.len()
                invariant
                    i <= decls@.len(),
                    dv == crate::lalr::decls_view(decls@),
                    first_decl_await(dv, 0) == first_decl_await(dv, i as int),
                decreases decls.len() - i,
            {
                let decl = &decls[i];
                proof {
                    assert(dv[i as int] == decl@);
                }
                match &decl.init {
                    Some(InitVal::Exp(Exp::Await(inner))) => {
                        return Some((inner.copy(), Some(var_decl_name(&decl.var))));
                    }
                    _ => {}
                }
                i = i + 1;
            }
            None
        }
        Stmt::Assign(Exp::Ident(name), Exp::Await(inner)) => Some((inner.copy(), Some(name.clone()))),
        Stmt::Exp(Exp::Await(inner)) => Some((inner.copy(), None)),
        Stmt::Return(Some(Exp::Await(inner))) => Some((inner.copy(), Some(String::from_str("__return")))),
        _ => None,
    }
}

/// The number of statements among the first `n` that await at their top.
pub open spec fn top_await_count(ss: Seq<SStmt>, n: int) -> nat
    decreases n,
{
    if 0 < n <= ss.len() {
        top_await_count(ss, n - 1) + if spec_top_level_await(ss[n - 1]) is Some { 1nat } else { 0nat }
    } else {
        0
    }
}

/// One block per top-level await, each ending in its suspension and resuming
/// in the next block, and a last block that returns.
pub fn build_top_level_async_cfg(func: &FuncDef) -> (cfg: AsyncCfgFunction)
    requires
        func.block@.len() < i32::MAX,
    ensures
        cfg.wf(),
        cfg.entry == 0,
        cfg.blocks@.len() == top_await_count(crate::lalr::stmts_view(func.block@), func.block@.len() as int) + 1,
        cfg.blocks@[cfg.blocks@.len() - 1].terminator == AsyncTerminator::Return(None),
        forall|i: int| 0 <= i < cfg.blocks@.len() - 1 ==> {
            &&& (#[trigger] cfg.blocks@[i]).terminator is Await
            &&& cfg.blocks@[i].terminator->Await_0.state == i + 1
            &&& cfg.blocks@[i].terminator->Await_0.resume_block == i + 1
        },
{
    let ghost views = crate::lalr::stmts_view(func.block@);
    let mut blocks: Vec<AsyncBlock> = Vec::new();
    let mut current_ops: Vec<AsyncOp> = Vec::new();
    let mut state: i32 = 1;
    let mut stmt_index: usize = 0;
    while stmt_index < func.block.len()
        invariant
            stmt_index <= func.block@.len(),
            func.block@.len() < i32::MAX,
            views == crate::lalr::stmts_view(func.block@),
            blocks@.len() == top_await_count(views, stmt_index as int),
            blocks@.len() <= stmt_index,
            state == blocks@.len() + 1,
            forall|i: int| 0 <= i < blocks@.len() ==> {
                &&& (#[trigger] blocks@[i]).id == i
                &&& blocks@[i].terminator is Await
                &&& blocks@[i].terminator->Await_0.state == i + 1
                &&& blocks@[i].terminator->Await_0.resume_block == i + 1
            },
        decreases func.block.len() - stmt_index,
    {
        proof {
            assert(views[stmt_index as int] == func.block@[stmt_index as int]@);
        }
        match top_level_await(&func.block[stmt_index]) {
            Some((child, result_target)) => {
                let block_id = blocks.len();
                let resume_block = block_id + 1;
                let ops = current_ops;
                blocks.push(AsyncBlock {
                    id: block_id,
                    ops,
                    terminator: AsyncTerminator::Await(AwaitTerminator {
                        state,
                        child,
                        result_target,
                        resume_block,
                        resume_stmt_index: stmt_index + 1,
                    }),
                });
                state = state + 1;
                current_ops = Vec::new();
            }
            None => {
                current_ops.push(AsyncOp::Eval(Exp::Number(0)));
            }
        }
        stmt_index = stmt_index + 1;
    }
    let block_id = blocks.len();
    blocks.push(AsyncBlock { id: block_id, ops: current_ops, terminator: AsyncTerminator::Return(None) });
    proof {
        assert forall|i: int| 0 <= i < blocks@.len() implies
            (#[trigger] blocks@[i]).id == i && targets_below(blocks@[i].terminator, blocks@.len()) by {
            if i < blocks@.len() - 1 {
                assert(spec_successors(blocks@[i].terminator) == seq![(i + 1) as usize]);
            }
        }
    }
    AsyncCfgFunction { entry: 0, blocks }
}

} // verus!
