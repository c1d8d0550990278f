use vstd::prelude::*;
use crate::lalr::{lemma_call_view, lemma_arr_view, lemma_block_view, BType, CompUnit, Exp, FuncDef, GlobalDef, InitVal, SBType, SDecl, SExp, SFunc, SGlobal, SInit, SStmt, SType, SVarDecl, SingleDecl, Stmt, Type, UnaryOp, VarDecl, decls_view, stmts_view, stmt_view, exp_view, init_view};
use crate::text::{cat, cat3, nat_text, usize_text};

verus! {

broadcast use vstd::std_specs::vec::group_vec_axioms;

// ---------------------------------------------------------------------------
// Types

pub open spec fn spec_btype_contains_promise(t: SBType) -> bool
    decreases t,
{
    match t {
        SBType::Promise(_) => true,
        SBType::Ptr(inner) => spec_btype_contains_promise(*inner),
        SBType::Array(_, inner) => spec_btype_contains_promise(*inner),
        _ => false,
    }
}

pub fn btype_contains_promise(ty: &BType) -> (r: bool)
    ensures
        r == spec_btype_contains_promise(ty@),
    decreases ty,
{
    match ty {
        BType::Promise(_) => true,
        BType::Ptr(inner) => btype_contains_promise(inner),
        BType::Array(_, inner) => btype_contains_promise(inner),
        BType::I32 | BType::Void | BType::Struct(_) => false,
    }
}

pub open spec fn spec_type_contains_promise(t: SType) -> bool {
    match t {
        SType::BType(b) => spec_btype_contains_promise(b),
        SType::Const(b) => spec_btype_contains_promise(b),
    }
}

pub fn type_contains_promise(ty: &Type) -> (r: bool)
    ensures
        r == spec_type_contains_promise(ty@),
{
    match ty {
        Type::BType(b) => btype_contains_promise(b),
        Type::Const(b) => btype_contains_promise(b),
    }
}

/// Arrays, directly or as the result of a promise.
pub open spec fn spec_type_contains_array(t: SBType) -> bool
    decreases t,
{
    match t {
        SBType::Array(_, _) => true,
        SBType::Promise(inner) => spec_type_contains_array(*inner),
        _ => false,
    }
}

pub fn type_contains_array(ty: &BType) -> (r: bool)
    ensures
        r == spec_type_contains_array(ty@),
    decreases ty,
{
    match ty {
        BType::Array(_, _) => true,
        BType::Promise(inner) => type_contains_array(inner),
        BType::I32 | BType::Void | BType::Struct(_) | BType::Ptr(_) => false,
    }
}

/// A `void` object, possibly as the element type of arrays.
pub open spec fn spec_type_has_void_object(t: SBType) -> bool
    decreases t,
{
    match t {
        SBType::Void => true,
        SBType::Array(_, inner) => spec_type_has_void_object(*inner),
        _ => false,
    }
}

pub fn type_has_void_object(ty: &BType) -> (r: bool)
    ensures
        r == spec_type_has_void_object(ty@),
    decreases ty,
{
    match ty {
        BType::Void => true,
        BType::Array(_, inner) => type_has_void_object(inner),
        BType::I32 | BType::Struct(_) | BType::Promise(_) | BType::Ptr(_) => false,
    }
}

/// Whether two types are the same type.
pub fn btype_same(lhs: &BType, rhs: &BType) -> (r: bool)
    ensures
        r == (lhs@ == rhs@),
    decreases lhs,
{
    match (lhs, rhs) {
        (BType::I32, BType::I32) => true,
        (BType::Void, BType::Void) => true,
        (BType::Struct(l), BType::Struct(r)) => *l == *r,
        (BType::Promise(l), BType::Promise(r)) => btype_same(l, r),
        (BType::Ptr(l), BType::Ptr(r)) => btype_same(l, r),
        (BType::Array(ln, l), BType::Array(rn, r)) => *ln == *rn && btype_same(l, r),
        _ => false,
    }
}

/// The name of a type as it appears in messages.
pub open spec fn spec_btype_name(t: SBType) -> Seq<char>
    decreases t,
{
    match t {
        SBType::I32 => "int"@,
        SBType::Void => "void"@,
        SBType::Struct(n) => n,
        SBType::Promise(inner) => "Promise<"@ + spec_btype_name(*inner) + ">"@,
        SBType::Ptr(inner) => spec_btype_name(*inner) + "*"@,
        SBType::Array(len, inner) => spec_btype_name(*inner) + "["@ + nat_text(len as nat) + "]"@,
    }
}

pub fn btype_name(ty: &BType) -> (s: String)
    ensures
        s@ == spec_btype_name(ty@),
    decreases ty,
{
    match ty {
        BType::I32 => String::from_str("int"),
        BType::Void => String::from_str("void"),
        BType::Struct(name) => name.clone(),
        BType::Promise(inner) => {
            let n = btype_name(inner);
            cat3("Promise<", n.as_str(), ">")
        }
        BType::Ptr(inner) => {
            let n = btype_name(inner);
            cat(n.as_str(), "*")
        }
        BType::Array(len, inner) => {
            let n = btype_name(inner);
            let l = usize_text(*len);
            let a = cat3(n.as_str(), "[", l.as_str());
            cat(a.as_str(), "]")
        }
    }
}

/// The names of the structs stored by value in an object of type `t`.
pub open spec fn spec_struct_value_dependencies(t: SBType) -> Seq<Seq<char>>
    decreases t,
{
    match t {
        SBType::Struct(n) => seq![n],
        SBType::Array(_, inner) => spec_struct_value_dependencies(*inner),
        _ => Seq::empty(),
    }
}

pub fn struct_value_dependencies(ty: &BType) -> (v: Vec<String>)
    ensures
        v@.len() == spec_struct_value_dependencies(ty@).len(),
        forall|i: int| 0 <= i < v@.len() ==> v@[i]@ == spec_struct_value_dependencies(ty@)[i],
    decreases ty,
{
    match ty {
        BType::Struct(name) => {
            let mut v = Vec::new();
            v.push(name.clone());
            v
        }
        BType::Array(_, inner) => struct_value_dependencies(inner),
        BType::I32 | BType::Void | BType::Promise(_) | BType::Ptr(_) => Vec::new(),
    }
}

/// The number of scalars in an object of type `t`.
pub open spec fn spec_scalar_capacity(t: SBType) -> nat
    decreases t,
{
    match t {
        SBType::Array(len, inner) => (len as nat) * spec_scalar_capacity(*inner),
        _ => 1,
    }
}

/// Whether computing the scalar capacity stays within `usize` at every step.
pub open spec fn capacity_fits(t: SBType) -> bool
    decreases t,
{
    match t {
        SBType::Array(len, inner) => capacity_fits(*inner) && (len as nat) * spec_scalar_capacity(*inner) <= usize::MAX,
        _ => true,
    }
}

/// The number of scalars an array of type `ty` holds; `None` when that count
/// does not fit in `usize`.
pub fn array_scalar_capacity(ty: &BType) -> (r: Option<usize>)
    ensures
        r is Some <==> capacity_fits(ty@),
        r is Some ==> r->Some_0 == spec_scalar_capacity(ty@),
    decreases ty,
{
    match ty {
        BType::Array(len, inner) => match array_scalar_capacity(inner) {
            Some(c) => len.checked_mul(c),
            None => None,
        },
        _ => Some(1),
    }
}

/// The innermost element type of (possibly nested) arrays.
pub open spec fn spec_inner_scalar_btype(t: SBType) -> SBType
    decreases t,
{
    match t {
        SBType::Array(_, inner) => spec_inner_scalar_btype(*inner),
        other => other,
    }
}

pub fn inner_scalar_btype(ty: &BType) -> (r: &BType)
    ensures
        r@ == spec_inner_scalar_btype(ty@),
    decreases ty,
{
    match ty {
        BType::Array(_, inner) => inner_scalar_btype(inner),
        other => other,
    }
}

// ---------------------------------------------------------------------------
// Expressions and initializers

pub open spec fn spec_exp_contains_await(e: SExp) -> bool
    decreases e,
{
    match e {
        SExp::Spanned(inner, _) => spec_exp_contains_await(*inner),
        SExp::Await(_) => true,
        SExp::UnaryExp(_, inner) => spec_exp_contains_await(*inner),
        SExp::Field(inner, _) => spec_exp_contains_await(*inner),
        SExp::PtrField(inner, _) => spec_exp_contains_await(*inner),
        SExp::Sleep(inner) => spec_exp_contains_await(*inner),
        SExp::PromiseWait(inner) => spec_exp_contains_await(*inner),
        SExp::BinaryExp(_, l, r) => spec_exp_contains_await(*l) || spec_exp_contains_await(*r),
        SExp::ArrGet(l, r) => spec_exp_contains_await(*l) || spec_exp_contains_await(*r),
        SExp::FuncCall(_, args) => exists|i: int| 0 <= i < args.len() && spec_exp_contains_await(args[i]),
        _ => false,
    }
}

pub fn exp_contains_await(exp: &Exp) -> (r: bool)
    ensures
        r == spec_exp_contains_await(exp@),
    decreases exp,
{
    match exp {
        Exp::Spanned(inner, _) => exp_contains_await(inner),
        Exp::Await(_) => true,
        Exp::UnaryExp(_, inner) => exp_contains_await(inner),
        Exp::Field(inner, _) => exp_contains_await(inner),
        Exp::PtrField(inner, _) => exp_contains_await(inner),
        Exp::Sleep(inner) => exp_contains_await(inner),
        Exp::PromiseWait(inner) => exp_contains_await(inner),
        Exp::BinaryExp(_, l, r) => exp_contains_await(l) || exp_contains_await(r),
        Exp::ArrGet(l, r) => exp_contains_await(l) || exp_contains_await(r),
        Exp::FuncCall(_, args) => {
            let mut i: usize = 0;
            while i < args.len()
                invariant
                    i <= args@.len(),
                    forall|j: int| 0 <= j < i ==> !spec_exp_contains_await(args@[j]@),
                decreases args.len() - i,
            {
                if exp_contains_await(&args[i]) {
                    proof {
                        lemma_call_view(exp);
                        assert(exp@->FuncCall_1[i as int] == args@[i as int]@);
                    }
                    return true;
                }
                i = i + 1;
            }
            false
        }
        Exp::Number(_) | Exp::New(_) | Exp::Ident(_) => false,
    }
}

pub open spec fn spec_init_contains_await(init: SInit) -> bool
    decreases init,
{
    match init {
        SInit::Spanned(inner, _) => spec_init_contains_await(*inner),
        SInit::Exp(e) => spec_exp_contains_await(e),
        SInit::Arr(items) => exists|i: int| 0 <= i < items.len() && spec_init_contains_await(items[i]),
    }
}

pub fn init_contains_await(init: &InitVal) -> (r: bool)
    ensures
        r == spec_init_contains_await(init@),
    decreases init,
{
    match init {
        InitVal::Spanned(inner, _) => init_contains_await(inner),
        InitVal::Exp(e) => exp_contains_await(e),
        InitVal::Arr(items) => {
            let mut i: usize = 0;
            while i < items.len()
                invariant
                    i <= items@.len(),
                    forall|j: int| 0 <= j < i ==> !spec_init_contains_await(items@[j]@),
                decreases items.len() - i,
            {
                if init_contains_await(&items[i]) {
                    proof {
                        lemma_arr_view(init);
                        assert(init@->Arr_0[i as int] == items@[i as int]@);
                    }
                    return true;
                }
                i = i + 1;
            }
            false
        }
    }
}

pub open spec fn spec_exp_async(e: SExp) -> bool
    decreases e,
{
    match e {
        SExp::Spanned(inner, _) => spec_exp_async(*inner),
        SExp::Await(_) => true,
        SExp::Sleep(_) => true,
        SExp::UnaryExp(_, inner) => spec_exp_async(*inner),
        SExp::BinaryExp(_, l, r) => spec_exp_async(*l) || spec_exp_async(*r),
        SExp::ArrGet(l, r) => spec_exp_async(*l) || spec_exp_async(*r),
        SExp::FuncCall(_, args) => exists|i: int| 0 <= i < args.len() && spec_exp_async(args[i]),
        SExp::Field(b, _) => spec_exp_async(*b),
        SExp::PtrField(b, _) => spec_exp_async(*b),
        SExp::PromiseWait(b) => spec_exp_async(*b),
        SExp::New(t) => spec_btype_contains_promise(t),
        SExp::Number(_) => false,
        SExp::Ident(_) => false,
    }
}

impl Exp {
    /// Whether the expression uses `await`, `sleep` or a promise type.
    pub fn contains_async_syntax(&self) -> (r: bool)
        ensures
            r == spec_exp_async(self@),
        decreases self,
    {
        match self {
            Exp::Spanned(inner, _) => inner.contains_async_syntax(),
            Exp::Await(_) | Exp::Sleep(_) => true,
            Exp::UnaryExp(_, inner) => inner.contains_async_syntax(),
            Exp::BinaryExp(_, l, r) => l.contains_async_syntax() || r.contains_async_syntax(),
            Exp::ArrGet(l, r) => l.contains_async_syntax() || r.contains_async_syntax(),
            Exp::FuncCall(_, args) => {
                let mut i: usize = 0;
                while i < args.len()
                    invariant
                        i <= args@.len(),
                        forall|j: int| 0 <= j < i ==> !spec_exp_async(args@[j]@),
                    decreases args.len() - i,
                {
                    if args[i].contains_async_syntax() {
                        proof {
                            lemma_call_view(self);
                            assert(self@->FuncCall_1[i as int] == args@[i as int]@);
                        }
                        return true;
                    }
                    i = i + 1;
                }
                false
            }
            Exp::Field(b, _) | Exp::PtrField(b, _) | Exp::PromiseWait(b) => b.contains_async_syntax(),
            Exp::New(ty) => btype_contains_promise(ty),
            Exp::Number(_) | Exp::Ident(_) => false,
        }
    }

    /// Whether the expression has the shape of an assignable place.
    pub fn is_lvalue_shape(&self) -> (r: bool)
        ensures
            r == spec_is_lvalue_shape(self@),
        decreases self,
    {
        match self {
            Exp::Spanned(inner, _) => inner.is_lvalue_shape(),
            Exp::Ident(_) | Exp::ArrGet(_, _) | Exp::Field(_, _) | Exp::PtrField(_, _) => true,
            Exp::UnaryExp(op, _) => match op {
                UnaryOp::Deref => true,
                _ => false,
            },
            _ => false,
        }
    }
}

pub open spec fn spec_is_lvalue_shape(e: SExp) -> bool
    decreases e,
{
    match e {
        SExp::Spanned(inner, _) => spec_is_lvalue_shape(*inner),
        SExp::Ident(_) => true,
        SExp::ArrGet(_, _) => true,
        SExp::Field(_, _) => true,
        SExp::PtrField(_, _) => true,
        SExp::UnaryExp(op, _) => op == UnaryOp::Deref,
        _ => false,
    }
}

pub open spec fn spec_init_async(init: SInit) -> bool
    decreases init,
{
    match init {
        SInit::Spanned(inner, _) => spec_init_async(*inner),
        SInit::Exp(e) => spec_exp_async(e),
        SInit::Arr(items) => exists|i: int| 0 <= i < items.len() && spec_init_async(items[i]),
    }
}

impl InitVal {
    pub fn contains_async_syntax(&self) -> (r: bool)
        ensures
            r == spec_init_async(self@),
        decreases self,
    {
        match self {
            InitVal::Spanned(inner, _) => inner.contains_async_syntax(),
            InitVal::Exp(e) => e.contains_async_syntax(),
            InitVal::Arr(items) => {
                let mut i: usize = 0;
                while i < items.len()
                    invariant
                        i <= items@.len(),
                        forall|j: int| 0 <= j < i ==> !spec_init_async(items@[j]@),
                    decreases items.len() - i,
                {
                    if items[i].contains_async_syntax() {
                        proof {
                            lemma_arr_view(self);
                            assert(self@->Arr_0[i as int] == items@[i as int]@);
                        }
                        return true;
                    }
                    i = i + 1;
                }
                false
            }
        }
    }
}

/// The name an expression refers to, seen through spans.
pub open spec fn spec_exp_ident_name(e: SExp) -> Option<Seq<char>>
    decreases e,
{
    match e {
        SExp::Spanned(inner, _) => spec_exp_ident_name(*inner),
        SExp::Ident(n) => Some(n),
        _ => None,
    }
}

pub fn exp_ident_name(exp: &Exp) -> (r: Option<&String>)
    ensures
        match r {
            Some(n) => spec_exp_ident_name(exp@) == Some(n@),
            None => spec_exp_ident_name(exp@) is None,
        },
    decreases exp,
{
    match exp {
        Exp::Spanned(inner, _) => exp_ident_name(inner),
        Exp::Ident(name) => Some(name),
        _ => None,
    }
}

/// The expression of a scalar initializer, seen through spans.
pub open spec fn spec_init_exp(init: SInit) -> Option<SExp>
    decreases init,
{
    match init {
        SInit::Spanned(inner, _) => spec_init_exp(*inner),
        SInit::Exp(e) => Some(e),
        SInit::Arr(_) => None,
    }
}

pub fn init_exp(init: &InitVal) -> (r: Option<&Exp>)
    ensures
        match r {
            Some(e) => spec_init_exp(init@) == Some(e@),
            None => spec_init_exp(init@) is None,
        },
    decreases init,
{
    match init {
        InitVal::Spanned(inner, _) => init_exp(inner),
        InitVal::Exp(exp) => Some(exp),
        InitVal::Arr(_) => None,
    }
}

/// An initializer with its spans removed from the top.
pub open spec fn spec_unspan_init(init: SInit) -> SInit
    decreases init,
{
    match init {
        SInit::Spanned(inner, _) => spec_unspan_init(*inner),
        other => other,
    }
}

pub fn unspan_init(init: &InitVal) -> (r: &InitVal)
    ensures
        r@ == spec_unspan_init(init@),
    decreases init,
{
    match init {
        InitVal::Spanned(inner, _) => unspan_init(inner),
        other => other,
    }
}

/// The number of scalar initializers in an initializer list.
pub open spec fn spec_scalar_count(init: SInit) -> nat
    decreases init,
{
    match init {
        SInit::Spanned(inner, _) => spec_scalar_count(*inner),
        SInit::Exp(_) => 1,
        SInit::Arr(items) => scalar_count_sum(items),
    }
}

pub open spec fn scalar_count_sum(items: Seq<SInit>) -> nat
    decreases items,
{
    if items.len() == 0 {
        0
    } else {
        scalar_count_sum(items.drop_last()) + spec_scalar_count(items.last())
    }
}

/// The smaller of `n` and `usize::MAX`.
pub open spec fn saturate(n: nat) -> nat {
    if n > usize::MAX { usize::MAX as nat } else { n }
}

/// The number of scalar initializers in `init`, saturated at `usize::MAX`.
pub fn initializer_scalar_count(init: &InitVal) -> (r: usize)
    ensures
        r == saturate(spec_scalar_count(init@)),
    decreases init,
{
    match init {
        InitVal::Spanned(inner, _) => initializer_scalar_count(inner),
        InitVal::Exp(_) => 1,
        InitVal::Arr(items) => {
            let ghost views = Seq::new(items@.len(), |k: int| items@[k]@);
            let mut total: usize = 0;
            let mut i: usize = 0;
            while i < items.len()
                invariant
                    i <= items@.len(),
                    views == Seq::new(items@.len(), |k: int| items@[k]@),
                    total == saturate(scalar_count_sum(views.take(i as int))),
                decreases items.len() - i,
            {
                let c = initializer_scalar_count(&items[i]);
                proof {
                    assert(views.take(i + 1).drop_last() =~= views.take(i as int));
                }
                total = total.saturating_add(c);
                i = i + 1;
            }
            proof {
                assert(views.take(items@.len() as int) =~= views);
                lemma_arr_view(init);
                assert(init@->Arr_0 =~= views);
            }
            total
        }
    }
}

// ---------------------------------------------------------------------------
// Declarations and statements

/// The declared name of a (possibly array) declarator.
pub open spec fn spec_var_decl_name(v: SVarDecl) -> Seq<char>
    decreases v,
{
    match v {
        SVarDecl::Ident(n) => n,
        SVarDecl::Array(inner, _) => spec_var_decl_name(*inner),
    }
}

/// The name a declarator declares, as the string the syntax tree holds.
pub open spec fn decl_name_string(v: VarDecl) -> String
    decreases v,
{
    match v {
        VarDecl::Ident(n) => n,
        VarDecl::Array(inner, _) => decl_name_string(*inner),
    }
}

pub fn var_decl_name(var: &VarDecl) -> (s: String)
    ensures
        s@ == spec_var_decl_name(var@),
        s == decl_name_string(*var),
    decreases var,
{
    match var {
        VarDecl::Ident(name) => name.clone(),
        VarDecl::Array(inner, _) => var_decl_name(inner),
    }
}

pub open spec fn spec_decl_async(d: SDecl) -> bool {
    match d.init {
        Some(i) => spec_init_async(i),
        None => false,
    }
}

pub open spec fn any_decl_async(ds: Seq<SDecl>) -> bool {
    exists|i: int| 0 <= i < ds.len() && spec_decl_async(ds[i])
}

pub open spec fn spec_stmt_async(s: SStmt) -> bool
    decreases s,
{
    match s {
        SStmt::Spanned(inner, _) => spec_stmt_async(*inner),
        SStmt::Block(ss) => exists|i: int| 0 <= i < ss.len() && spec_stmt_async(ss[i]),
        SStmt::Assign(l, r) => spec_exp_async(l) || spec_exp_async(r),
        SStmt::Decl(t, ds) => spec_type_contains_promise(t) || any_decl_async(ds),
        SStmt::Exp(e) => spec_exp_async(e),
        SStmt::Return(Some(e)) => spec_exp_async(e),
        SStmt::PromiseWait(e) => spec_exp_async(e),
        SStmt::If(c, t) => spec_exp_async(c) || spec_stmt_async(*t),
        SStmt::IfElse(c, t, e) => spec_exp_async(c) || spec_stmt_async(*t) || spec_stmt_async(*e),
        SStmt::While(c, b) => spec_exp_async(c) || spec_stmt_async(*b),
        _ => false,
    }
}

/// Whether any declaration's initializer uses async syntax.
pub fn decls_contain_async_syntax(decls: &Vec<SingleDecl>) -> (r: bool)
    ensures
        r == any_decl_async(decls_view(decls@)),
{
    let mut i: usize = 0;
    while i < decls.len()
        invariant
            i <= decls@.len(),
            forall|j: int| 0 <= j < i ==> !spec_decl_async(#[trigger] decls@[j]@),
        decreases decls.len() - i,
    {
        let hit = match &decls[i].init {
            Some(init) => init.contains_async_syntax(),
            None => false,
        };
        if hit {
            proof {
                assert(decls_view(decls@)[i as int] == decls@[i as int]@);
            }
            return true;
        }
        i = i + 1;
    }
    proof {
        assert forall|j: int| 0 <= j < decls_view(decls@).len() implies !spec_decl_async(#[trigger] decls_view(decls@)[j]) by {
            assert(decls_view(decls@)[j] == decls@[j]@);
        }
    }
    false
}

impl Stmt {
    pub fn contains_async_syntax(&self) -> (r: bool)
        ensures
            r == spec_stmt_async(self@),
        decreases self,
    {
        match self {
            Stmt::Spanned(inner, sp) => {
                let r = inner.contains_async_syntax();
                r
            }
            Stmt::Block(stmts) => {
                let mut i: usize = 0;
                while i < stmts.len()
                    invariant
                        i <= stmts@.len(),
                        forall|j: int| 0 <= j < i ==> !spec_stmt_async(stmts@[j]@),
                    decreases stmts.len() - i,
                {
                    if stmts[i].contains_async_syntax() {
                        proof {
                            lemma_block_view(self);
                            assert(self@->Block_0[i as int] == stmts@[i as int]@);
                        }
                        return true;
                    }
                    i = i + 1;
                }
                proof {
                    lemma_block_view(self);
                    assert forall|j: int| 0 <= j < self@->Block_0.len() implies !spec_stmt_async(#[trigger] self@->Block_0[j]) by {
                        assert(self@->Block_0[j] == stmts@[j]@);
                    }
                }
                false
            }
            Stmt::Assign(l, r) => {
                let b = l.contains_async_syntax() || r.contains_async_syntax();
                assert(spec_stmt_async(self@) == b);
                b
            }
            Stmt::Decl(ty, decls) => {
                let r = type_contains_promise(ty) || decls_contain_async_syntax(decls);

                r
            }
            Stmt::Exp(e) => e.contains_async_syntax(),
            Stmt::Return(Some(e)) => e.contains_async_syntax(),
            Stmt::PromiseWait(e) => e.contains_async_syntax(),
            Stmt::If(c, t) => c.contains_async_syntax() || t.contains_async_syntax(),
            Stmt::IfElse(c, t, e) => {
                let b = c.contains_async_syntax() || t.contains_async_syntax() || e.contains_async_syntax();
                assert(spec_stmt_async(self@) == b);
                b
            }
            Stmt::While(c, b) => c.contains_async_syntax() || b.contains_async_syntax(),
            Stmt::Continue | Stmt::Break | Stmt::Return(None) | Stmt::Empty => false,
        }
    }
}

/// Whether every path through the statement ends in a `return`.
pub open spec fn spec_stmt_guarantees_return(s: SStmt) -> bool
    decreases s,
{
    match s {
        SStmt::Spanned(inner, _) => spec_stmt_guarantees_return(*inner),
        SStmt::Return(_) => true,
        SStmt::Block(ss) => exists|i: int| 0 <= i < ss.len() && spec_stmt_guarantees_return(ss[i]),
        SStmt::IfElse(_, t, e) => spec_stmt_guarantees_return(*t) && spec_stmt_guarantees_return(*e),
        _ => false,
    }
}

pub open spec fn spec_block_guarantees_return(ss: Seq<SStmt>) -> bool {
    exists|i: int| 0 <= i < ss.len() && spec_stmt_guarantees_return(ss[i])
}

/// Some path through the statement reaches its end without returning, when
/// nothing is known of the conditions: either branch of an `if` may be taken,
/// an `if` without `else` may be skipped, and a loop may run no time at all. A
/// block is run off when each of its statements is.
pub open spec fn may_run_off(s: SStmt) -> bool
    decreases s,
{
    match s {
        SStmt::Spanned(inner, _) => may_run_off(*inner),
        SStmt::Return(_) => false,
        SStmt::Block(ss) => forall|i: int| 0 <= i < ss.len() ==> may_run_off(ss[i]),
        SStmt::IfElse(_, t, e) => may_run_off(*t) || may_run_off(*e),
        _ => true,
    }
}

/// A statement guarantees a return exactly when no path through it runs off
/// its end: so an `if`-`else` guarantees one only when both of its branches
/// do, and a block when one of its statements does.
pub proof fn lemma_return_guarantee_paths(s: SStmt)
    ensures
        spec_stmt_guarantees_return(s) <==> !may_run_off(s),
    decreases s,
{
    match s {
        SStmt::Spanned(inner, _) => lemma_return_guarantee_paths(*inner),
        SStmt::Block(ss) => {
            assert forall|i: int| 0 <= i < ss.len() implies
                (spec_stmt_guarantees_return(ss[i]) <==> !may_run_off(ss[i])) by {
                lemma_return_guarantee_paths(ss[i]);
            }
        },
        SStmt::IfElse(_, t, e) => {
            lemma_return_guarantee_paths(*t);
            lemma_return_guarantee_paths(*e);
        },
        _ => {},
    }
}

/// A block guarantees a return exactly when no path through its statements
/// runs off its end.
pub proof fn lemma_block_return_paths(ss: Seq<SStmt>)
    ensures
        spec_block_guarantees_return(ss) <==> !may_run_off(SStmt::Block(ss)),
{
    lemma_return_guarantee_paths(SStmt::Block(ss));
    if spec_block_guarantees_return(ss) {
        let i = choose|i: int| 0 <= i < ss.len() && spec_stmt_guarantees_return(ss[i]);
        let b = SStmt::Block(ss);
        assert(b->Block_0 == ss);
        assert(spec_stmt_guarantees_return(b->Block_0[i]));
        assert(spec_stmt_guarantees_return(b));
    }
    if spec_stmt_guarantees_return(SStmt::Block(ss)) {
        let i = choose|i: int| 0 <= i < ss.len() && spec_stmt_guarantees_return(ss[i]);
        assert(spec_block_guarantees_return(ss));
    }
}

pub fn stmt_guarantees_return(stmt: &Stmt) -> (r: bool)
    ensures
        r == spec_stmt_guarantees_return(stmt@),
    decreases stmt,
{
    match stmt {
        Stmt::Spanned(inner, _) => stmt_guarantees_return(inner),
        Stmt::Return(_) => true,
        Stmt::Block(stmts) => {
            let mut i: usize = 0;
            while i < stmts.len()
                invariant
                    i <= stmts@.len(),
                    forall|j: int| 0 <= j < i ==> !spec_stmt_guarantees_return(stmts@[j]@),
                decreases stmts.len() - i,
            {
                if stmt_guarantees_return(&stmts[i]) {
                    proof {
                        lemma_block_view(stmt);
                        assert(stmt@->Block_0[i as int] == stmts@[i as int]@);
                    }
                    return true;
                }
                i = i + 1;
            }
            false
        }
        Stmt::IfElse(_, t, e) => stmt_guarantees_return(t) && stmt_guarantees_return(e),
        _ => false,
    }
}

pub fn block_guarantees_return(stmts: &Vec<Stmt>) -> (r: bool)
    ensures
        r == spec_block_guarantees_return(stmts_view(stmts@)),
{
    let mut i: usize = 0;
    while i < stmts.len()
        invariant
            i <= stmts@.len(),
            forall|j: int| 0 <= j < i ==> !spec_stmt_guarantees_return(#[trigger] stmts@[j]@),
        decreases stmts.len() - i,
    {
        if stmt_guarantees_return(&stmts[i]) {
            proof {
                assert(stmts_view(stmts@)[i as int] == stmts@[i as int]@);
            }
            return true;
        }
        i = i + 1;
    }
    proof {
        assert forall|j: int| 0 <= j < stmts@.len() implies !spec_stmt_guarantees_return(#[trigger] stmts_view(stmts@)[j]) by {
            assert(stmts_view(stmts@)[j] == stmts@[j]@);
        }
    }
    false
}

/// Functions returning anything but `void` must end every path in a return.
pub fn requires_guaranteed_return(ty: &BType) -> (r: bool)
    ensures
        r == !(ty@ is Void),
{
    match ty {
        BType::Void => false,
        _ => true,
    }
}

// ---------------------------------------------------------------------------
// Functions and programs

pub open spec fn any_param_promise(ps: Seq<crate::lalr::SParam>) -> bool {
    exists|i: int| 0 <= i < ps.len() && spec_btype_contains_promise(ps[i].btype)
}

pub open spec fn any_stmt_async(ss: Seq<SStmt>) -> bool {
    exists|i: int| 0 <= i < ss.len() && spec_stmt_async(ss[i])
}

pub open spec fn spec_func_async(f: SFunc) -> bool {
    f.is_async
        || spec_type_contains_promise(f.func_type)
        || any_param_promise(f.func_params)
        || any_stmt_async(f.block)
}

impl FuncDef {
    pub fn contains_async_syntax(&self) -> (r: bool)
        ensures
            r == spec_func_async(self@),
    {
        if self.is_async || type_contains_promise(&self.func_type) {
            return true;
        }
        let mut i: usize = 0;
        while i < self.func_params.len()
            invariant
                i <= self.func_params@.len(),
                forall|j: int| 0 <= j < i ==> !spec_btype_contains_promise(#[trigger] self.func_params@[j].btype@),
            decreases self.func_params.len() - i,
        {
            if btype_contains_promise(&self.func_params[i].btype) {
                proof {
                    assert(self@.func_params[i as int].btype == self.func_params@[i as int].btype@);
                }
                return true;
            }
            i = i + 1;
        }
        let mut k: usize = 0;
        while k < self.block.len()
            invariant
                k <= self.block@.len(),
                forall|j: int| 0 <= j < k ==> !spec_stmt_async(#[trigger] self.block@[j]@),
            decreases self.block.len() - k,
        {
            if self.block[k].contains_async_syntax() {
                proof {
                    assert(self@.block[k as int] == self.block@[k as int]@);
                }
                return true;
            }
            k = k + 1;
        }
        proof {
            assert forall|j: int| 0 <= j < self@.func_params.len() implies !spec_btype_contains_promise(#[trigger] self@.func_params[j].btype) by {
                assert(self@.func_params[j].btype == self.func_params@[j].btype@);
            }
            assert forall|j: int| 0 <= j < self@.block.len() implies !spec_stmt_async(#[trigger] self@.block[j]) by {
                assert(self@.block[j] == self.block@[j]@);
            }
        }
        false
    }
}

pub open spec fn any_field_promise(fs: Seq<crate::lalr::SField>) -> bool {
    exists|i: int| 0 <= i < fs.len() && spec_type_contains_promise(fs[i].ty)
}

pub open spec fn spec_global_async(g: SGlobal) -> bool {
    match g {
        SGlobal::FuncDef(f) => spec_func_async(f),
        SGlobal::GlobalDecl(t, ds) => spec_type_contains_promise(t) || any_decl_async(ds),
        SGlobal::StructDef(d) => any_field_promise(d.fields),
    }
}

impl GlobalDef {
    pub fn contains_async_syntax(&self) -> (r: bool)
        ensures
            r == spec_global_async(self@),
    {
        match self {
            GlobalDef::FuncDef(f) => f.contains_async_syntax(),
            GlobalDef::GlobalDecl(ty, decls) => {
                let r = type_contains_promise(ty) || decls_contain_async_syntax(decls);

                r
            }
            GlobalDef::StructDef(def) => {
                let mut i: usize = 0;
                while i < def.fields.len()
                    invariant
                        i <= def.fields@.len(),
                        forall|j: int| 0 <= j < i ==> !spec_type_contains_promise(#[trigger] def.fields@[j].ty@),
                    decreases def.fields.len() - i,
                {
                    if type_contains_promise(&def.fields[i].ty) {
                        proof {
                            assert(def@.fields[i as int].ty == def.fields@[i as int].ty@);
                        }
                        return true;
                    }
                    i = i + 1;
                }
                proof {
                    assert forall|j: int| 0 <= j < def@.fields.len() implies !spec_type_contains_promise(#[trigger] def@.fields[j].ty) by {
                        assert(def@.fields[j].ty == def.fields@[j].ty@);
                    }
                }
                false
            }
        }
    }
}

pub open spec fn spec_program_async(p: Seq<SGlobal>) -> bool {
    exists|i: int| 0 <= i < p.len() && spec_global_async(p[i])
}

impl CompUnit {
    /// Whether the program uses any async feature.
    pub fn contains_async_syntax(&self) -> (r: bool)
        ensures
            r == spec_program_async(self@),
    {
        let mut i: usize = 0;
        while i < self.global_defs.len()
            invariant
                i <= self.global_defs@.len(),
                forall|j: int| 0 <= j < i ==> !spec_global_async(#[trigger] self.global_defs@[j]@),
            decreases self.global_defs.len() - i,
        {
            if self.global_defs[i].contains_async_syntax() {
                proof {
                    assert(self@[i as int] == self.global_defs@[i as int]@);
                }
                return true;
            }
            i = i + 1;
        }
        proof {
            assert forall|j: int| 0 <= j < self@.len() implies !spec_global_async(#[trigger] self@[j]) by {
                assert(self@[j] == self.global_defs@[j]@);
            }
        }
        false
    }
}

} // verus!
