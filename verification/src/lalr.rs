use vstd::prelude::*;
use crate::table::Table;
use crate::table::assoc;
use crate::text::cat;

verus! {

broadcast use vstd::std_specs::vec::group_vec_axioms;

/// A byte range of the source text.
#[derive(Debug, Clone, Copy, PartialEq, Eq, Structural)]
pub struct Span {
    pub start: usize,
    pub end: usize,
}

/// A compile error, with the place it belongs to when that is known.
#[derive(Debug, Clone)]
pub struct Diagnostic {
    pub span: Option<Span>,
    pub message: String,
}

impl Diagnostic {
    pub fn new(message: String) -> (d: Self)
        ensures
            d.span is None,
            d.message == message,
    {
        Diagnostic { span: None, message }
    }

    pub fn at(span: Span, message: String) -> (d: Self)
        ensures
            d.span == Some(span),
            d.message == message,
    {
        Diagnostic { span: Some(span), message }
    }

    /// Attaches `span` unless the diagnostic already has a place.
    pub fn with_fallback_span(self, span: Span) -> (d: Self)
        ensures
            d.message == self.message,
            d.span == (if self.span is None { Some(span) } else { self.span }),
    {
        let mut d = self;
        if d.span.is_none() {
            d.span = Some(span);
        }
        d
    }
}

/// A diagnostic placed at `span` when there is one.
pub fn diagnostic_at(span: Option<Span>, message: String) -> (d: Diagnostic)
    ensures
        d.span == span,
        d.message == message,
{
    match span {
        Some(span) => Diagnostic::at(span, message),
        None => Diagnostic::new(message),
    }
}

#[derive(Debug)]
pub struct CompUnit {
    pub global_defs: Vec<GlobalDef>,
}

#[derive(Debug)]
pub struct AsyncProgramAnalysis {
    pub functions: Vec<AsyncFunctionAnalysis>,
}

#[derive(Debug)]
pub struct AsyncFunctionAnalysis {
    pub name: String,
    pub await_points: Vec<AwaitPoint>,
    pub frame_local_candidates: Vec<String>,
}

#[derive(Debug, Clone, Copy)]
pub struct AwaitPoint {
    pub continuation_id: usize,
    pub in_loop: bool,
}

#[derive(Debug)]
pub enum GlobalDef {
    FuncDef(FuncDef),
    GlobalDecl(Type, Vec<SingleDecl>),
    StructDef(StructDef),
}

#[derive(Debug)]
pub struct StructDef {
    pub span: Option<Span>,
    pub name: String,
    pub fields: Vec<StructField>,
}

#[derive(Debug)]
pub struct StructField {
    pub span: Option<Span>,
    pub ty: Type,
    pub decls: Vec<SingleDecl>,
}

#[derive(Debug)]
pub struct FuncDef {
    pub span: Option<Span>,
    pub is_async: bool,
    pub func_type: Type,
    pub ident: String,
    pub func_params: Vec<FuncParam>,
    pub block: Vec<Stmt>,
}

#[derive(Debug)]
pub struct FuncParam {
    pub btype: BType,
    pub name: String,
    pub array_dims: Option<Vec<Exp>>,
}

#[derive(Debug)]
pub enum Stmt {
    Spanned(Box<Stmt>, Span),
    Block(Vec<Stmt>),
    Assign(Exp, Exp),
    Decl(Type, Vec<SingleDecl>),
    Exp(Exp),
    If(Exp, Box<Stmt>),
    IfElse(Exp, Box<Stmt>, Box<Stmt>),
    While(Exp, Box<Stmt>),
    PromiseWait(Exp),
    Continue,
    Break,
    Return(Option<Exp>),
    Empty,
}

#[derive(Debug)]
pub enum VarDecl {
    Ident(String),
    Array(Box<VarDecl>, Exp),
}

#[derive(Debug)]
pub struct SingleDecl {
    pub span: Option<Span>,
    pub var: VarDecl,
    pub init: Option<InitVal>,
}

#[derive(Debug)]
pub enum InitVal {
    Spanned(Box<InitVal>, Span),
    Exp(Exp),
    Arr(Vec<InitVal>),
}

#[derive(Debug)]
pub enum BType {
    I32,
    Void,
    Struct(String),
    Promise(Box<BType>),
    Ptr(Box<BType>),
    Array(usize, Box<BType>),
}

#[derive(Debug)]
pub enum Type {
    BType(BType),
    Const(BType),
}

#[derive(Debug)]
pub enum Exp {
    Spanned(Box<Exp>, Span),
    Number(i32),
    UnaryExp(UnaryOp, Box<Exp>),
    BinaryExp(BinaryOp, Box<Exp>, Box<Exp>),
    New(BType),
    Await(Box<Exp>),
    Sleep(Box<Exp>),
    PromiseWait(Box<Exp>),
    FuncCall(String, Vec<Exp>),
    ArrGet(Box<Exp>, Box<Exp>),
    Field(Box<Exp>, String),
    PtrField(Box<Exp>, String),
    Ident(String),
}

#[derive(Debug, Clone, Copy, PartialEq, Eq, Structural)]
pub enum UnaryOp {
    Pos,
    Neg,
    Not,
    Addr,
    Deref,
}

#[derive(Debug, Clone, Copy, PartialEq, Eq, Structural)]
pub enum BinaryOp {
    Add,
    Sub,
    Mul,
    Div,
    Mod,
    Lt,
    Gt,
    Le,
    Ge,
    Eq,
    Ne,
    And,
    Or,
}


// ---------------------------------------------------------------------------
// Mathematical views of the syntax tree: names become character sequences and
// vectors become sequences, so that two trees are equal exactly when they
// print the same.

pub enum SBType {
    I32,
    Void,
    Struct(Seq<char>),
    Promise(Box<SBType>),
    Ptr(Box<SBType>),
    Array(usize, Box<SBType>),
}

pub enum SType {
    BType(SBType),
    Const(SBType),
}

pub enum SExp {
    Spanned(Box<SExp>, Span),
    Number(i32),
    UnaryExp(UnaryOp, Box<SExp>),
    BinaryExp(BinaryOp, Box<SExp>, Box<SExp>),
    New(SBType),
    Await(Box<SExp>),
    Sleep(Box<SExp>),
    PromiseWait(Box<SExp>),
    FuncCall(Seq<char>, Seq<SExp>),
    ArrGet(Box<SExp>, Box<SExp>),
    Field(Box<SExp>, Seq<char>),
    PtrField(Box<SExp>, Seq<char>),
    Ident(Seq<char>),
}

pub enum SVarDecl {
    Ident(Seq<char>),
    Array(Box<SVarDecl>, SExp),
}

pub enum SInit {
    Spanned(Box<SInit>, Span),
    Exp(SExp),
    Arr(Seq<SInit>),
}

pub struct SDecl {
    pub span: Option<Span>,
    pub var: SVarDecl,
    pub init: Option<SInit>,
}

pub enum SStmt {
    Spanned(Box<SStmt>, Span),
    Block(Seq<SStmt>),
    Assign(SExp, SExp),
    Decl(SType, Seq<SDecl>),
    Exp(SExp),
    If(SExp, Box<SStmt>),
    IfElse(SExp, Box<SStmt>, Box<SStmt>),
    While(SExp, Box<SStmt>),
    PromiseWait(SExp),
    Continue,
    Break,
    Return(Option<SExp>),
    Empty,
}

pub struct SParam {
    pub btype: SBType,
    pub name: Seq<char>,
    pub array_dims: Option<Seq<SExp>>,
}

pub struct SFunc {
    pub span: Option<Span>,
    pub is_async: bool,
    pub func_type: SType,
    pub ident: Seq<char>,
    pub func_params: Seq<SParam>,
    pub block: Seq<SStmt>,
}

pub struct SField {
    pub span: Option<Span>,
    pub ty: SType,
    pub decls: Seq<SDecl>,
}

pub struct SStruct {
    pub span: Option<Span>,
    pub name: Seq<char>,
    pub fields: Seq<SField>,
}

pub enum SGlobal {
    FuncDef(SFunc),
    GlobalDecl(SType, Seq<SDecl>),
    StructDef(SStruct),
}

impl View for BType {
    type V = SBType;

    open spec fn view(&self) -> SBType
        decreases self,
    {
        match self {
            BType::I32 => SBType::I32,
            BType::Void => SBType::Void,
            BType::Struct(n) => SBType::Struct(n@),
            BType::Promise(b) => SBType::Promise(Box::new((**b).view())),
            BType::Ptr(b) => SBType::Ptr(Box::new((**b).view())),
            BType::Array(n, b) => SBType::Array(*n, Box::new((**b).view())),
        }
    }
}

impl View for Type {
    type V = SType;

    open spec fn view(&self) -> SType {
        match self {
            Type::BType(b) => SType::BType(b@),
            Type::Const(b) => SType::Const(b@),
        }
    }
}

/// The view of an expression.
pub open spec fn exp_view(e: Exp) -> SExp
    decreases e,
{
    match e {
        Exp::Spanned(e, s) => SExp::Spanned(Box::new(exp_view(*e)), s),
        Exp::Number(n) => SExp::Number(n),
        Exp::UnaryExp(op, e) => SExp::UnaryExp(op, Box::new(exp_view(*e))),
        Exp::BinaryExp(op, l, r) => SExp::BinaryExp(op, Box::new(exp_view(*l)), Box::new(exp_view(*r))),
        Exp::New(t) => SExp::New(t@),
        Exp::Await(e) => SExp::Await(Box::new(exp_view(*e))),
        Exp::Sleep(e) => SExp::Sleep(Box::new(exp_view(*e))),
        Exp::PromiseWait(e) => SExp::PromiseWait(Box::new(exp_view(*e))),
        Exp::FuncCall(n, args) => SExp::FuncCall(n@, Seq::new(args@.len(), |i: int| if 0 <= i < args@.len() { exp_view(args@[i]) } else { SExp::Number(0) })),
        Exp::ArrGet(b, i) => SExp::ArrGet(Box::new(exp_view(*b)), Box::new(exp_view(*i))),
        Exp::Field(b, f) => SExp::Field(Box::new(exp_view(*b)), f@),
        Exp::PtrField(b, f) => SExp::PtrField(Box::new(exp_view(*b)), f@),
        Exp::Ident(n) => SExp::Ident(n@),
    }
}

impl View for Exp {
    type V = SExp;

    open spec fn view(&self) -> SExp {
        exp_view(*self)
    }
}

impl View for VarDecl {
    type V = SVarDecl;

    open spec fn view(&self) -> SVarDecl
        decreases self,
    {
        match self {
            VarDecl::Ident(n) => SVarDecl::Ident(n@),
            VarDecl::Array(inner, len) => SVarDecl::Array(Box::new((**inner).view()), len@),
        }
    }
}

/// The view of an initializer.
pub open spec fn init_view(i: InitVal) -> SInit
    decreases i,
{
    match i {
        InitVal::Spanned(i, s) => SInit::Spanned(Box::new(init_view(*i)), s),
        InitVal::Exp(e) => SInit::Exp(e@),
        InitVal::Arr(items) => SInit::Arr(Seq::new(items@.len(), |k: int| if 0 <= k < items@.len() { init_view(items@[k]) } else { SInit::Arr(Seq::empty()) })),
    }
}

impl View for InitVal {
    type V = SInit;

    open spec fn view(&self) -> SInit {
        init_view(*self)
    }
}

impl View for SingleDecl {
    type V = SDecl;

    open spec fn view(&self) -> SDecl {
        SDecl {
            span: self.span,
            var: self.var@,
            init: match self.init {
                Some(i) => Some(i@),
                None => None,
            },
        }
    }
}

/// The arguments of a call, seen through the view.
pub proof fn lemma_call_view(e: &Exp)
    requires
        e is FuncCall,
    ensures
        e@ is FuncCall,
        e@->FuncCall_1.len() == e->FuncCall_1@.len(),
        forall|i: int| 0 <= i < e->FuncCall_1@.len() ==> #[trigger] e@->FuncCall_1[i] == e->FuncCall_1@[i]@,
{
}

/// The items of an initializer list, seen through the view.
pub proof fn lemma_arr_view(init: &InitVal)
    requires
        init is Arr,
    ensures
        init@ is Arr,
        init@->Arr_0.len() == init->Arr_0@.len(),
        forall|i: int| 0 <= i < init->Arr_0@.len() ==> #[trigger] init@->Arr_0[i] == init->Arr_0@[i]@,
{
}

/// The statements of a block, seen through the view.
pub proof fn lemma_block_view(s: &Stmt)
    requires
        s is Block,
    ensures
        s@ is Block,
        s@->Block_0.len() == s->Block_0@.len(),
        forall|i: int| 0 <= i < s->Block_0@.len() ==> #[trigger] s@->Block_0[i] == s->Block_0@[i]@,
{
}

/// The views of a sequence of declarations.
pub open spec fn decls_view(ds: Seq<SingleDecl>) -> Seq<SDecl> {
    Seq::new(ds.len(), |i: int| ds[i]@)
}

/// The views of a sequence of expressions.
pub open spec fn exps_view(es: Seq<Exp>) -> Seq<SExp> {
    Seq::new(es.len(), |i: int| es[i]@)
}

/// The view of a statement.
pub open spec fn stmt_view(s: Stmt) -> SStmt
    decreases s,
{
    match s {
        Stmt::Spanned(s, sp) => SStmt::Spanned(Box::new(stmt_view(*s)), sp),
        Stmt::Block(ss) => SStmt::Block(Seq::new(ss@.len(), |i: int| if 0 <= i < ss@.len() { stmt_view(ss@[i]) } else { SStmt::Empty })),
        Stmt::Assign(l, r) => SStmt::Assign(l@, r@),
        Stmt::Decl(t, ds) => SStmt::Decl(t@, decls_view(ds@)),
        Stmt::Exp(e) => SStmt::Exp(e@),
        Stmt::If(c, t) => SStmt::If(c@, Box::new(stmt_view(*t))),
        Stmt::IfElse(c, t, e) => SStmt::IfElse(c@, Box::new(stmt_view(*t)), Box::new(stmt_view(*e))),
        Stmt::While(c, b) => SStmt::While(c@, Box::new(stmt_view(*b))),
        Stmt::PromiseWait(e) => SStmt::PromiseWait(e@),
        Stmt::Continue => SStmt::Continue,
        Stmt::Break => SStmt::Break,
        Stmt::Return(e) => SStmt::Return(match e { Some(e) => Some(e@), None => None }),
        Stmt::Empty => SStmt::Empty,
    }
}

impl View for Stmt {
    type V = SStmt;

    open spec fn view(&self) -> SStmt {
        stmt_view(*self)
    }
}

/// The views of a sequence of statements.
pub open spec fn stmts_view(ss: Seq<Stmt>) -> Seq<SStmt> {
    Seq::new(ss.len(), |i: int| ss[i]@)
}

impl View for FuncParam {
    type V = SParam;

    open spec fn view(&self) -> SParam {
        SParam {
            btype: self.btype@,
            name: self.name@,
            array_dims: match self.array_dims {
                Some(d) => Some(exps_view(d@)),
                None => None,
            },
        }
    }
}

impl View for FuncDef {
    type V = SFunc;

    open spec fn view(&self) -> SFunc {
        SFunc {
            span: self.span,
            is_async: self.is_async,
            func_type: self.func_type@,
            ident: self.ident@,
            func_params: Seq::new(self.func_params@.len(), |i: int| self.func_params@[i]@),
            block: stmts_view(self.block@),
        }
    }
}

impl View for StructField {
    type V = SField;

    open spec fn view(&self) -> SField {
        SField { span: self.span, ty: self.ty@, decls: decls_view(self.decls@) }
    }
}

impl View for StructDef {
    type V = SStruct;

    open spec fn view(&self) -> SStruct {
        SStruct {
            span: self.span,
            name: self.name@,
            fields: Seq::new(self.fields@.len(), |i: int| self.fields@[i]@),
        }
    }
}

impl View for GlobalDef {
    type V = SGlobal;

    open spec fn view(&self) -> SGlobal {
        match self {
            GlobalDef::FuncDef(f) => SGlobal::FuncDef(f@),
            GlobalDef::GlobalDecl(t, ds) => SGlobal::GlobalDecl(t@, decls_view(ds@)),
            GlobalDef::StructDef(d) => SGlobal::StructDef(d@),
        }
    }
}

impl View for CompUnit {
    type V = Seq<SGlobal>;

    open spec fn view(&self) -> Seq<SGlobal> {
        Seq::new(self.global_defs@.len(), |i: int| self.global_defs@[i]@)
    }
}


// ---------------------------------------------------------------------------
// Copies of syntax trees, with the same view as the original.

impl BType {
    pub fn copy(&self) -> (r: BType)
        ensures
            r == *self,
            r@ == self@,
        decreases self,
    {
        match self {
            BType::I32 => BType::I32,
            BType::Void => BType::Void,
            BType::Struct(n) => BType::Struct(n.clone()),
            BType::Promise(b) => BType::Promise(Box::new((**b).copy())),
            BType::Ptr(b) => BType::Ptr(Box::new((**b).copy())),
            BType::Array(n, b) => BType::Array(*n, Box::new((**b).copy())),
        }
    }
}

impl Type {
    pub fn copy(&self) -> (r: Type)
        ensures
            r == *self,
            r@ == self@,
    {
        match self {
            Type::BType(b) => Type::BType(b.copy()),
            Type::Const(b) => Type::Const(b.copy()),
        }
    }
}

impl Exp {
    pub fn copy(&self) -> (r: Exp)
        ensures
            r@ == self@,
        decreases self,
    {
        match self {
            Exp::Spanned(e, s) => Exp::Spanned(Box::new((**e).copy()), *s),
            Exp::Number(n) => Exp::Number(*n),
            Exp::UnaryExp(op, e) => Exp::UnaryExp(*op, Box::new((**e).copy())),
            Exp::BinaryExp(op, l, r) => Exp::BinaryExp(*op, Box::new((**l).copy()), Box::new((**r).copy())),
            Exp::New(t) => Exp::New(t.copy()),
            Exp::Await(e) => Exp::Await(Box::new((**e).copy())),
            Exp::Sleep(e) => Exp::Sleep(Box::new((**e).copy())),
            Exp::PromiseWait(e) => Exp::PromiseWait(Box::new((**e).copy())),
            Exp::FuncCall(n, args) => {
                let mut out: Vec<Exp> = Vec::new();
                let mut i: usize = 0;
                while i < args.len()
                    invariant
                        i <= args@.len(),
                        out@.len() == i,
                        forall|j: int| 0 <= j < i ==> out@[j]@ == args@[j]@,
                    decreases args.len() - i,
                {
                    out.push(args[i].copy());
                    i = i + 1;
                }
                let r = Exp::FuncCall(n.clone(), out);
                proof {
                    lemma_call_view(&r);
                    lemma_call_view(self);
                    assert(r@->FuncCall_1 =~= self@->FuncCall_1);
                }
                r
            }
            Exp::ArrGet(b, i) => Exp::ArrGet(Box::new((**b).copy()), Box::new((**i).copy())),
            Exp::Field(b, f) => Exp::Field(Box::new((**b).copy()), f.clone()),
            Exp::PtrField(b, f) => Exp::PtrField(Box::new((**b).copy()), f.clone()),
            Exp::Ident(n) => Exp::Ident(n.clone()),
        }
    }
}

/// Copies a list of expressions.
pub fn copy_exps(v: &Vec<Exp>) -> (r: Vec<Exp>)
    ensures
        exps_view(r@) == exps_view(v@),
{
    let mut out: Vec<Exp> = Vec::new();
    let mut i: usize = 0;
    while i < v.len()
        invariant
            i <= v@.len(),
            out@.len() == i,
            forall|j: int| 0 <= j < i ==> out@[j]@ == v@[j]@,
        decreases v.len() - i,
    {
        out.push(v[i].copy());
        i = i + 1;
    }
    proof {
        assert(exps_view(out@) =~= exps_view(v@));
    }
    out
}

impl VarDecl {
    pub fn copy(&self) -> (r: VarDecl)
        ensures
            r@ == self@,
        decreases self,
    {
        match self {
            VarDecl::Ident(n) => VarDecl::Ident(n.clone()),
            VarDecl::Array(inner, len) => VarDecl::Array(Box::new((**inner).copy()), len.copy()),
        }
    }
}

impl InitVal {
    pub fn copy(&self) -> (r: InitVal)
        ensures
            r@ == self@,
        decreases self,
    {
        match self {
            InitVal::Spanned(i, s) => InitVal::Spanned(Box::new((**i).copy()), *s),
            InitVal::Exp(e) => InitVal::Exp(e.copy()),
            InitVal::Arr(items) => {
                let mut out: Vec<InitVal> = Vec::new();
                let mut i: usize = 0;
                while i < items.len()
                    invariant
                        i <= items@.len(),
                        out@.len() == i,
                        forall|j: int| 0 <= j < i ==> out@[j]@ == items@[j]@,
                    decreases items.len() - i,
                {
                    out.push(items[i].copy());
                    i = i + 1;
                }
                let r = InitVal::Arr(out);
                proof {
                    lemma_arr_view(&r);
                    lemma_arr_view(self);
                    assert(r@->Arr_0 =~= self@->Arr_0);
                }
                r
            }
        }
    }
}

impl SingleDecl {
    pub fn copy(&self) -> (r: SingleDecl)
        ensures
            r@ == self@,
    {
        let init = match &self.init {
            Some(i) => Some(i.copy()),
            None => None,
        };
        SingleDecl { span: self.span, var: self.var.copy(), init }
    }
}

/// Copies a list of declarations.
pub fn copy_decls(v: &Vec<SingleDecl>) -> (r: Vec<SingleDecl>)
    ensures
        decls_view(r@) == decls_view(v@),
{
    let mut out: Vec<SingleDecl> = Vec::new();
    let mut i: usize = 0;
    while i < v.len()
        invariant
            i <= v@.len(),
            out@.len() == i,
            forall|j: int| 0 <= j < i ==> out@[j]@ == v@[j]@,
        decreases v.len() - i,
    {
        out.push(v[i].copy());
        i = i + 1;
    }
    proof {
        assert(decls_view(out@) =~= decls_view(v@));
    }
    out
}

impl Stmt {
    pub fn copy(&self) -> (r: Stmt)
        ensures
            r@ == self@,
        decreases self,
    {
        match self {
            Stmt::Spanned(inner, sp) => Stmt::Spanned(Box::new((**inner).copy()), *sp),
            Stmt::Block(ss) => {
                let mut out: Vec<Stmt> = Vec::new();
                let mut i: usize = 0;
                while i < ss.len()
                    invariant
                        i <= ss@.len(),
                        out@.len() == i,
                        forall|j: int| 0 <= j < i ==> (#[trigger] out@[j])@ == ss@[j]@,
                    decreases ss.len() - i,
                {
                    out.push(ss[i].copy());
                    i = i + 1;
                }
                let r = Stmt::Block(out);
                proof {
                    lemma_block_view(&r);
                    lemma_block_view(self);
                    assert(r@->Block_0 =~= self@->Block_0);
                }
                r
            }
            Stmt::Assign(l, e) => Stmt::Assign(l.copy(), e.copy()),
            Stmt::Decl(t, ds) => Stmt::Decl(t.copy(), copy_decls(ds)),
            Stmt::Exp(e) => Stmt::Exp(e.copy()),
            Stmt::If(c, t) => Stmt::If(c.copy(), Box::new((**t).copy())),
            Stmt::IfElse(c, t, e) => Stmt::IfElse(c.copy(), Box::new((**t).copy()), Box::new((**e).copy())),
            Stmt::While(c, b) => Stmt::While(c.copy(), Box::new((**b).copy())),
            Stmt::PromiseWait(e) => Stmt::PromiseWait(e.copy()),
            Stmt::Continue => Stmt::Continue,
            Stmt::Break => Stmt::Break,
            Stmt::Return(e) => Stmt::Return(match e {
                Some(e) => Some(e.copy()),
                None => None,
            }),
            Stmt::Empty => Stmt::Empty,
        }
    }
}

impl FuncDef {
    pub fn copy(&self) -> (r: FuncDef)
        ensures
            r@ == self@,
    {
        let mut params: Vec<FuncParam> = Vec::new();
        let mut i: usize = 0;
        while i < self.func_params.len()
            invariant
                i <= self.func_params@.len(),
                params@.len() == i,
                forall|j: int| 0 <= j < i ==> (#[trigger] params@[j])@ == self.func_params@[j]@,
            decreases self.func_params.len() - i,
        {
            params.push(self.func_params[i].copy());
            i = i + 1;
        }
        let mut block: Vec<Stmt> = Vec::new();
        let mut k: usize = 0;
        while k < self.block.len()
            invariant
                k <= self.block@.len(),
                block@.len() == k,
                forall|j: int| 0 <= j < k ==> (#[trigger] block@[j])@ == self.block@[j]@,
            decreases self.block.len() - k,
        {
            block.push(self.block[k].copy());
            k = k + 1;
        }
        let r = FuncDef {
            span: self.span,
            is_async: self.is_async,
            func_type: self.func_type.copy(),
            ident: self.ident.clone(),
            func_params: params,
            block,
        };
        proof {
            assert(r@.func_params =~= self@.func_params);
            assert(r@.block =~= self@.block);
        }
        r
    }
}

impl FuncParam {
    pub fn copy(&self) -> (r: FuncParam)
        ensures
            r@ == self@,
    {
        let dims = match &self.array_dims {
            Some(d) => Some(copy_exps(d)),
            None => None,
        };
        FuncParam { btype: self.btype.copy(), name: self.name.clone(), array_dims: dims }
    }
}

impl StructField {
    pub fn copy(&self) -> (r: StructField)
        ensures
            r@ == self@,
    {
        StructField { span: self.span, ty: self.ty.copy(), decls: copy_decls(&self.decls) }
    }
}

impl StructDef {
    pub fn copy(&self) -> (r: StructDef)
        ensures
            r@ == self@,
    {
        let mut out: Vec<StructField> = Vec::new();
        let mut i: usize = 0;
        while i < self.fields.len()
            invariant
                i <= self.fields@.len(),
                out@.len() == i,
                forall|j: int| 0 <= j < i ==> out@[j]@ == self.fields@[j]@,
            decreases self.fields.len() - i,
        {
            out.push(self.fields[i].copy());
            i = i + 1;
        }
        let r = StructDef { span: self.span, name: self.name.clone(), fields: out };
        proof {
            assert(r@.fields =~= self@.fields);
        }
        r
    }
}

pub fn spanned_stmt(stmt: Stmt, start: usize, end: usize) -> (s: Stmt)
    ensures
        s == Stmt::Spanned(Box::new(stmt), Span { start, end }),
{
    Stmt::Spanned(Box::new(stmt), Span { start, end })
}

pub fn spanned_init(init: InitVal, start: usize, end: usize) -> (i: InitVal)
    ensures
        i == InitVal::Spanned(Box::new(init), Span { start, end }),
{
    InitVal::Spanned(Box::new(init), Span { start, end })
}

pub fn spanned_exp(exp: Exp, start: usize, end: usize) -> (e: Exp)
    ensures
        e == Exp::Spanned(Box::new(exp), Span { start, end }),
{
    Exp::Spanned(Box::new(exp), Span { start, end })
}

/// `base` wrapped in arrays of the given dimensions, outermost first.
pub open spec fn array_of(base: BType, dims: Seq<usize>) -> BType
    decreases dims.len(),
{
    if dims.len() == 0 {
        base
    } else {
        BType::Array(dims[0], Box::new(array_of(base, dims.drop_first())))
    }
}

/// The view of `array_of`.
pub open spec fn spec_array_of(base: SBType, dims: Seq<usize>) -> SBType
    decreases dims.len(),
{
    if dims.len() == 0 {
        base
    } else {
        SBType::Array(dims[0], Box::new(spec_array_of(base, dims.drop_first())))
    }
}

pub proof fn lemma_array_of_view(base: BType, dims: Seq<usize>)
    ensures
        array_of(base, dims)@ == spec_array_of(base@, dims),
    decreases dims.len(),
{
    if dims.len() > 0 {
        lemma_array_of_view(base, dims.drop_first());
    }
}

proof fn lemma_array_of_last(base: BType, dims: Seq<usize>)
    requires
        dims.len() > 0,
    ensures
        array_of(base, dims) == array_of(BType::Array(dims.last(), Box::new(base)), dims.drop_last()),
    decreases dims.len(),
{
    if dims.len() > 1 {
        lemma_array_of_last(base, dims.drop_first());
        assert(dims.drop_first().drop_last() =~= dims.drop_last().drop_first());
        assert(dims.drop_first().last() == dims.last());
        assert(dims.drop_last()[0] == dims[0]);
    } else {
        assert(dims.drop_first() =~= Seq::<usize>::empty());
        assert(dims.drop_last() =~= Seq::<usize>::empty());
        assert(array_of(base, dims.drop_first()) == base);
        let a = BType::Array(dims.last(), Box::new(base));
        assert(array_of(a, dims.drop_last()) == a);
        assert(dims.last() == dims[0]);
    }
}

/// Wraps `base` in arrays of `dims` (outermost first), starting from the innermost.
pub fn wrap_array_dims(base: BType, dims: &Vec<usize>) -> (t: BType)
    ensures
        t == array_of(base, dims@),
{
    let mut ty = base;
    let mut i = dims.len();
    proof {
        assert(dims@.take(i as int) =~= dims@);
    }
    while i > 0
        invariant
            i <= dims@.len(),
            array_of(ty, dims@.take(i as int)) == array_of(base, dims@),
        decreases i,
    {
        proof {
            lemma_array_of_last(ty, dims@.take(i as int));
            assert(dims@.take(i as int).drop_last() =~= dims@.take(i - 1));
        }
        ty = BType::Array(dims[i - 1], Box::new(ty));
        i = i - 1;
    }
    proof {
        assert(dims@.take(0) =~= Seq::<usize>::empty());
    }
    ty
}

/// The type of an array parameter: a pointer to arrays of the given dimensions.
pub fn func_param_btype(base: BType, dims: Vec<usize>) -> (t: BType)
    ensures
        t == BType::Ptr(Box::new(array_of(base, dims@))),
{
    let ty = wrap_array_dims(base, &dims);
    BType::Ptr(Box::new(ty))
}

pub open spec fn spec_type_base(ty: Type) -> BType {
    match ty {
        Type::BType(b) => b,
        Type::Const(b) => b,
    }
}

pub fn param_base_btype(ty: Type) -> (b: BType)
    ensures
        b == spec_type_base(ty),
{
    match ty {
        Type::BType(btype) => btype,
        Type::Const(btype) => btype,
    }
}

pub fn type_base_btype(ty: &Type) -> (b: &BType)
    ensures
        *b == spec_type_base(*ty),
{
    match ty {
        Type::BType(btype) => btype,
        Type::Const(btype) => btype,
    }
}

// ---------------------------------------------------------------------------
// Constant evaluation

/// The result of evaluating an expression at compile time:
/// `Some(Some(v))` is the value, `Some(None)` says that the expression is not
/// a constant (or divides by zero), and `None` says that an `i32` operation
/// overflows on the way.
pub open spec fn const_eval(e: SExp, env: Seq<(String, i32)>) -> Option<Option<i32>>
    decreases e,
{
    match e {
        SExp::Spanned(inner, _) => const_eval(*inner, env),
        SExp::Number(n) => Some(Some(n)),
        SExp::UnaryExp(op, inner) => match const_eval(*inner, env) {
            None => None,
            Some(None) => Some(None),
            Some(Some(v)) => match op {
                UnaryOp::Pos => Some(Some(v)),
                UnaryOp::Neg => if v == i32::MIN { None } else { Some(Some((-v) as i32)) },
                UnaryOp::Not => Some(Some(if v == 0 { 1i32 } else { 0i32 })),
                UnaryOp::Addr | UnaryOp::Deref => Some(None),
            },
        },
        SExp::BinaryExp(op, lhs, rhs) => match const_eval(*lhs, env) {
            None => None,
            Some(None) => Some(None),
            Some(Some(l)) => match const_eval(*rhs, env) {
                None => None,
                Some(None) => Some(None),
                Some(Some(r)) => binary_const(op, l, r),
            },
        },
        SExp::Ident(name) => Some(assoc(env, name)),
        _ => Some(None),
    }
}

/// The value of a binary operator on two constants, in the same three-way form.
pub open spec fn binary_const(op: BinaryOp, l: i32, r: i32) -> Option<Option<i32>> {
    match op {
        BinaryOp::Add => match l.checked_add(r) { Some(v) => Some(Some(v)), None => None },
        BinaryOp::Sub => match l.checked_sub(r) { Some(v) => Some(Some(v)), None => None },
        BinaryOp::Mul => match l.checked_mul(r) { Some(v) => Some(Some(v)), None => None },
        BinaryOp::Div => if r == 0 { Some(None) } else {
            match l.checked_div(r) { Some(v) => Some(Some(v)), None => None }
        },
        BinaryOp::Mod => if r == 0 { Some(None) } else {
            match l.checked_rem(r) { Some(v) => Some(Some(v)), None => None }
        },
        BinaryOp::Lt => Some(Some(if l < r { 1i32 } else { 0i32 })),
        BinaryOp::Gt => Some(Some(if l > r { 1i32 } else { 0i32 })),
        BinaryOp::Le => Some(Some(if l <= r { 1i32 } else { 0i32 })),
        BinaryOp::Ge => Some(Some(if l >= r { 1i32 } else { 0i32 })),
        BinaryOp::Eq => Some(Some(if l == r { 1i32 } else { 0i32 })),
        BinaryOp::Ne => Some(Some(if l != r { 1i32 } else { 0i32 })),
        BinaryOp::And => Some(Some(if l != 0 && r != 0 { 1i32 } else { 0i32 })),
        BinaryOp::Or => Some(Some(if l != 0 || r != 0 { 1i32 } else { 0i32 })),
    }
}

pub fn eval_binary_checked(op: BinaryOp, l: i32, r: i32) -> (v: Option<Option<i32>>)
    ensures
        v == binary_const(op, l, r),
{
    match op {
        BinaryOp::Add => match l.checked_add(r) { Some(v) => Some(Some(v)), None => None },
        BinaryOp::Sub => match l.checked_sub(r) { Some(v) => Some(Some(v)), None => None },
        BinaryOp::Mul => match l.checked_mul(r) { Some(v) => Some(Some(v)), None => None },
        BinaryOp::Div => if r == 0 { Some(None) } else {
            match l.checked_div(r) { Some(v) => Some(Some(v)), None => None }
        },
        BinaryOp::Mod => if r == 0 { Some(None) } else {
            match l.checked_rem(r) { Some(v) => Some(Some(v)), None => None }
        },
        BinaryOp::Lt => Some(Some(if l < r { 1i32 } else { 0i32 })),
        BinaryOp::Gt => Some(Some(if l > r { 1i32 } else { 0i32 })),
        BinaryOp::Le => Some(Some(if l <= r { 1i32 } else { 0i32 })),
        BinaryOp::Ge => Some(Some(if l >= r { 1i32 } else { 0i32 })),
        BinaryOp::Eq => Some(Some(if l == r { 1i32 } else { 0i32 })),
        BinaryOp::Ne => Some(Some(if l != r { 1i32 } else { 0i32 })),
        BinaryOp::And => Some(Some(if l != 0 && r != 0 { 1i32 } else { 0i32 })),
        BinaryOp::Or => Some(Some(if l != 0 || r != 0 { 1i32 } else { 0i32 })),
    }
}

/// The comparison operators never fail on constants: each gives 1 when it
/// holds of the two operands as integers and 0 when it does not, so `l > l` is
/// 0. Swapping the operands turns `<` into `>` and `<=` into `>=`; `<=` gives 1
/// exactly when `>` gives 0, `>=` exactly when `<` gives 0, and `!=` exactly
/// when `==` gives 0.
pub proof fn lemma_comparison_values(l: i32, r: i32)
    ensures
        binary_const(BinaryOp::Gt, l, r) == Some(Some(if (l as int) > (r as int) { 1i32 } else { 0i32 })),
        binary_const(BinaryOp::Lt, l, r) == Some(Some(if (l as int) < (r as int) { 1i32 } else { 0i32 })),
        binary_const(BinaryOp::Ge, l, r) == Some(Some(if (l as int) >= (r as int) { 1i32 } else { 0i32 })),
        binary_const(BinaryOp::Le, l, r) == Some(Some(if (l as int) <= (r as int) { 1i32 } else { 0i32 })),
        binary_const(BinaryOp::Eq, l, r) == Some(Some(if (l as int) == (r as int) { 1i32 } else { 0i32 })),
        binary_const(BinaryOp::Ne, l, r) == Some(Some(if (l as int) != (r as int) { 1i32 } else { 0i32 })),
        binary_const(BinaryOp::Gt, l, l) == Some(Some(0i32)),
        binary_const(BinaryOp::Lt, l, l) == Some(Some(0i32)),
        binary_const(BinaryOp::Gt, l, r) == binary_const(BinaryOp::Lt, r, l),
        binary_const(BinaryOp::Ge, l, r) == binary_const(BinaryOp::Le, r, l),
        (binary_const(BinaryOp::Le, l, r) == Some(Some(1i32))) <==> (binary_const(BinaryOp::Gt, l, r) == Some(Some(0i32))),
        (binary_const(BinaryOp::Ge, l, r) == Some(Some(1i32))) <==> (binary_const(BinaryOp::Lt, l, r) == Some(Some(0i32))),
        (binary_const(BinaryOp::Ne, l, r) == Some(Some(1i32))) <==> (binary_const(BinaryOp::Eq, l, r) == Some(Some(0i32))),
{
}

/// The arithmetic operators on constants give the integer sum, difference
/// and product when it fits in an `i32` and report overflow otherwise; a
/// division or remainder by zero makes the expression no constant; `&&` and
/// `||` give 1 or 0 as both or either operand is non-zero.
pub proof fn lemma_arithmetic_values(l: i32, r: i32)
    ensures
        binary_const(BinaryOp::Add, l, r) == (if i32::MIN <= l + r <= i32::MAX { Some(Some((l + r) as i32)) } else { None }),
        binary_const(BinaryOp::Sub, l, r) == (if i32::MIN <= l - r <= i32::MAX { Some(Some((l - r) as i32)) } else { None }),
        binary_const(BinaryOp::Mul, l, r) == (if i32::MIN <= l * r <= i32::MAX { Some(Some((l * r) as i32)) } else { None }),
        r == 0 ==> binary_const(BinaryOp::Div, l, r) == Some(None::<i32>),
        r == 0 ==> binary_const(BinaryOp::Mod, l, r) == Some(None::<i32>),
        binary_const(BinaryOp::And, l, r) == Some(Some(if l != 0 && r != 0 { 1i32 } else { 0i32 })),
        binary_const(BinaryOp::Or, l, r) == Some(Some(if l != 0 || r != 0 { 1i32 } else { 0i32 })),
        binary_const(BinaryOp::Add, l, r) == binary_const(BinaryOp::Add, r, l),
        binary_const(BinaryOp::Mul, l, r) == binary_const(BinaryOp::Mul, r, l),
{
}

/// Evaluates `exp` with the constants of `env`, reporting overflow as `None`.
pub fn eval_const_checked(exp: &Exp, env: &Table<i32>) -> (v: Option<Option<i32>>)
    ensures
        v == const_eval(exp@, env.entries@),
    decreases exp,
{
    match exp {
        Exp::Spanned(inner, _) => eval_const_checked(inner, env),
        Exp::Number(n) => Some(Some(*n)),
        Exp::UnaryExp(op, inner) => match eval_const_checked(inner, env) {
            None => None,
            Some(None) => Some(None),
            Some(Some(v)) => match op {
                UnaryOp::Pos => Some(Some(v)),
                UnaryOp::Neg => if v == i32::MIN { None } else { Some(Some(-v)) },
                UnaryOp::Not => Some(Some(if v == 0 { 1i32 } else { 0i32 })),
                UnaryOp::Addr | UnaryOp::Deref => Some(None),
            },
        },
        Exp::BinaryExp(op, lhs, rhs) => match eval_const_checked(lhs, env) {
            None => None,
            Some(None) => Some(None),
            Some(Some(l)) => match eval_const_checked(rhs, env) {
                None => None,
                Some(None) => Some(None),
                Some(Some(r)) => eval_binary_checked(*op, l, r),
            },
        },
        Exp::Ident(name) => match env.get(name.as_str()) {
            Some(v) => Some(Some(*v)),
            None => Some(None),
        },
        _ => Some(None),
    }
}

/// The compile-time value of `exp` under the constants of `lookup`; `None`
/// for expressions that are not constant or that divide by zero.
pub fn eval_const_exp_with(exp: &Exp, lookup: &Table<i32>) -> (v: Option<i32>)
    requires
        const_eval(exp@, lookup.entries@) is Some,
    ensures
        v == const_eval(exp@, lookup.entries@).unwrap(),
{
    eval_const_checked(exp, lookup).unwrap()
}

/// The length of an array parameter dimension.
pub fn eval_param_dim(exp: &Exp, lookup: &Table<i32>) -> (r: Result<usize, String>)
    requires
        const_eval(exp@, lookup.entries@) is Some,
    ensures
        match const_eval(exp@, lookup.entries@).unwrap() {
            None => r == Err::<usize, String>(r->Err_0) && r->Err_0@ == "Array parameter dimensions must be constant expressions"@,
            Some(v) => if v < 0 {
                r is Err && r->Err_0@ == "Array parameter dimensions must be non-negative"@
            } else {
                r == Ok::<usize, String>(v as usize)
            },
        },
{
    match eval_const_exp_with(exp, lookup) {
        None => Err(String::from_str("Array parameter dimensions must be constant expressions")),
        Some(value) => {
            if value < 0 {
                Err(String::from_str("Array parameter dimensions must be non-negative"))
            } else {
                Ok(value as usize)
            }
        }
    }
}

} // verus!
