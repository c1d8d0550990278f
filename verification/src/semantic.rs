use vstd::prelude::*;
use crate::lalr::{
    lemma_arr_view, SInit, InitVal, SingleDecl, Stmt, SStmt, lemma_block_view, array_of,
    const_eval, diagnostic_at, eval_const_checked, func_param_btype, lemma_call_view, spec_array_of,
    spec_type_base, type_base_btype, BType, Diagnostic, Exp, FuncParam, SBType, SExp, Span, Type,
    UnaryOp, VarDecl,
};
use crate::syntax::{
    array_scalar_capacity, capacity_fits, initializer_scalar_count, inner_scalar_btype, saturate,
    spec_inner_scalar_btype, spec_scalar_capacity, spec_scalar_count, spec_unspan_init, unspan_init,
    btype_name, btype_same, exp_contains_await, exp_ident_name, spec_btype_name, spec_exp_contains_await,
    spec_exp_ident_name, spec_is_lvalue_shape, spec_type_contains_array, spec_type_has_void_object,
    type_contains_array, type_has_void_object,
};
use crate::table::{assoc, NameSet, Table};
use crate::text::{cat, cat3, nat_text};

verus! {

broadcast use vstd::std_specs::vec::group_vec_axioms;

// ---------------------------------------------------------------------------
// Types and the kinds of expressions.

/// What an expression yields: a plain value of a type, or a promise of one.
#[derive(Debug)]
pub enum AsyncExprKind {
    Plain(BType),
    Promise(BType),
}

pub enum SKind {
    Plain(SBType),
    Promise(SBType),
}

impl View for AsyncExprKind {
    type V = SKind;

    open spec fn view(&self) -> SKind {
        match self {
            AsyncExprKind::Plain(t) => SKind::Plain(t@),
            AsyncExprKind::Promise(t) => SKind::Promise(t@),
        }
    }
}

/// A value of type `t`, seen as an expression kind: promises are promises.
pub open spec fn spec_kind_from(t: SBType) -> SKind {
    match t {
        SBType::Promise(inner) => SKind::Promise(*inner),
        other => SKind::Plain(other),
    }
}

fn kind_from_btype(ty: BType) -> (k: AsyncExprKind)
    ensures
        k@ == spec_kind_from(ty@),
{
    match ty {
        BType::Promise(inner) => AsyncExprKind::Promise(*inner),
        other => AsyncExprKind::Plain(other),
    }
}

impl AsyncExprKind {
    pub(crate) fn is_promise(&self) -> (b: bool)
        ensures
            b == (self@ is Promise),
    {
        match self {
            AsyncExprKind::Promise(_) => true,
            _ => false,
        }
    }

    pub(crate) fn plain_ty(&self) -> (r: Option<&BType>)
        ensures
            match self@ {
                SKind::Plain(t) => r is Some && r->Some_0@ == t,
                SKind::Promise(_) => r is None,
            },
    {
        match self {
            AsyncExprKind::Plain(ty) => Some(ty),
            AsyncExprKind::Promise(_) => None,
        }
    }
}

/// The plain type of a kind, if it is plain.
pub open spec fn plain_of(k: SKind) -> Option<SBType> {
    match k {
        SKind::Plain(t) => Some(t),
        SKind::Promise(_) => None,
    }
}

// ---------------------------------------------------------------------------
// The program's signatures.

#[derive(Debug)]
pub struct FunctionSig {
    pub is_async: bool,
    pub ret: BType,
    pub param_count: usize,
    pub params: Vec<BType>,
}

#[derive(Debug)]
pub struct StructFieldSig {
    pub name: String,
    pub ty: BType,
    pub span: Option<Span>,
}

#[derive(Debug)]
pub struct StructSig {
    pub fields: Table<BType>,
    pub field_order: Vec<StructFieldSig>,
}

/// The functions, structs, globals and global constants of a program.
#[derive(Debug)]
pub struct SemanticProgram {
    pub funcs: Table<FunctionSig>,
    pub structs: Table<StructSig>,
    pub globals: Table<BType>,
    pub constants: Table<i32>,
}

/// The names of the structs the program defines.
pub open spec fn struct_name_set(p: SemanticProgram) -> Set<Seq<char>> {
    Set::new(|n: Seq<char>| assoc(p.structs.entries@, n) is Some)
}

// ---------------------------------------------------------------------------
// Checks on types.

/// The first struct name in `t` that `structs` lacks.
pub open spec fn first_unknown_struct(t: SBType, structs: Set<Seq<char>>) -> Option<Seq<char>>
    decreases t,
{
    match t {
        SBType::Struct(n) => if structs.contains(n) { None } else { Some(n) },
        SBType::Promise(inner) => first_unknown_struct(*inner, structs),
        SBType::Ptr(inner) => first_unknown_struct(*inner, structs),
        SBType::Array(_, inner) => first_unknown_struct(*inner, structs),
        _ => None,
    }
}

pub open spec fn unknown_struct_text(n: Seq<char>) -> Seq<char> {
    "Unknown struct type "@ + n
}

pub(crate) fn validate_type_refs(ty: &BType, structs: &NameSet) -> (r: Result<(), String>)
    ensures
        match first_unknown_struct(ty@, structs.view_set()) {
            None => r is Ok,
            Some(n) => r matches Err(e) && e@ == unknown_struct_text(n),
        },
    decreases ty,
{
    match ty {
        BType::Struct(name) => {
            if structs.contains(name.as_str()) {
                Ok(())
            } else {
                Err(cat("Unknown struct type ", name.as_str()))
            }
        }
        BType::Promise(inner) | BType::Ptr(inner) => validate_type_refs(inner, structs),
        BType::Array(_, inner) => validate_type_refs(inner, structs),
        BType::I32 | BType::Void => Ok(()),
    }
}

/// An object of type `t` may be declared: its structs exist and it holds no
/// `void` value.
pub open spec fn object_type_error(t: SBType, structs: Set<Seq<char>>, context: Seq<char>) -> Option<Seq<char>> {
    match first_unknown_struct(t, structs) {
        Some(n) => Some(unknown_struct_text(n)),
        None => if spec_type_has_void_object(t) {
            Some(context + " cannot have type "@ + spec_btype_name(t))
        } else {
            None
        },
    }
}

pub(crate) fn validate_object_type(ty: &BType, structs: &NameSet, context: &str) -> (r: Result<(), String>)
    ensures
        match object_type_error(ty@, structs.view_set(), context@) {
            None => r is Ok,
            Some(m) => r matches Err(e) && e@ == m,
        },
{
    match validate_type_refs(ty, structs) {
        Err(e) => Err(e),
        Ok(()) => {
            if type_has_void_object(ty) {
                let n = btype_name(ty);
                Err(cat3(context, " cannot have type ", n.as_str()))
            } else {
                Ok(())
            }
        }
    }
}

/// The names of the structs of `p`, as a set of names.
pub(crate) fn struct_names_of(p: &SemanticProgram) -> (s: NameSet)
    ensures
        s.wf(),
        s.view_set() == struct_name_set(*p),
{
    let mut s = NameSet::new();
    let mut i: usize = 0;
    while i < p.structs.entries.len()
        invariant
            i <= p.structs.entries@.len(),
            s.wf(),
            forall|n: Seq<char>| #[trigger] s.view_set().contains(n) <==>
                exists|j: int| 0 <= j < i && p.structs.entries@[j].0@ == n,
        decreases p.structs.entries.len() - i,
    {
        let ghost nv = p.structs.entries@[i as int].0@;
        s.insert(p.structs.entries[i].0.clone());
        proof {
            assert forall|n: Seq<char>| #[trigger] s.view_set().contains(n) <==>
                exists|j: int| 0 <= j < i + 1 && p.structs.entries@[j].0@ == n by {
                if n == nv {
                    assert(p.structs.entries@[i as int].0@ == n);
                }
                if exists|j: int| 0 <= j < i + 1 && p.structs.entries@[j].0@ == n {
                    let j = choose|j: int| 0 <= j < i + 1 && p.structs.entries@[j].0@ == n;
                    if j < i {
                        assert(exists|j2: int| 0 <= j2 < i && p.structs.entries@[j2].0@ == n);
                    }
                }
            }
        }
        i = i + 1;
    }
    proof {
        assert forall|n: Seq<char>| s.view_set().contains(n) <==> struct_name_set(*p).contains(n) by {
            crate::table::lemma_assoc_some(p.structs.entries@, n);
        }
        assert(s.view_set() =~= struct_name_set(*p));
    }
    s
}

pub(crate) fn validate_object_type_in_program(ty: &BType, program: &SemanticProgram, context: &str) -> (r: Result<(), String>)
    ensures
        match object_type_error(ty@, struct_name_set(*program), context@) {
            None => r is Ok,
            Some(m) => r matches Err(e) && e@ == m,
        },
{
    let structs = struct_names_of(program);
    validate_object_type(ty, &structs, context)
}

/// A `new` may allocate `t`: its structs exist and it is not `void`.
pub open spec fn new_type_error(t: SBType, structs: Set<Seq<char>>) -> Option<Seq<char>> {
    match first_unknown_struct(t, structs) {
        Some(n) => Some(unknown_struct_text(n)),
        None => if t is Void { Some("new cannot allocate void"@) } else { None },
    }
}

fn validate_new_type_in_program(ty: &BType, program: &SemanticProgram) -> (r: Result<(), String>)
    ensures
        match new_type_error(ty@, struct_name_set(*program)) {
            None => r is Ok,
            Some(m) => r matches Err(e) && e@ == m,
        },
{
    let structs = struct_names_of(program);
    match validate_type_refs(ty, &structs) {
        Err(e) => Err(e),
        Ok(()) => match ty {
            BType::Void => Err(String::from_str("new cannot allocate void")),
            _ => Ok(()),
        },
    }
}

/// A promise may carry a value of type `t` unless it holds an array.
pub open spec fn promise_result_ok(t: SBType) -> bool {
    !spec_type_contains_array(t)
}

pub(crate) fn ensure_promise_result_supported(ty: &BType) -> (r: Result<(), String>)
    ensures
        r is Ok <==> promise_result_ok(ty@),
        r matches Err(e) ==> e@ == "Promise result type "@ + spec_btype_name(ty@)
            + " is not supported because arrays are not first-class values"@,
{
    if type_contains_array(ty) {
        let n = btype_name(ty);
        Err(cat3("Promise result type ", n.as_str(), " is not supported because arrays are not first-class values"))
    } else {
        Ok(())
    }
}

fn expect_i32(ty: &BType, context: &str) -> (r: Result<(), String>)
    ensures
        r is Ok <==> ty@ is I32,
        r matches Err(e) ==> e@ == context@ + " expects int, got "@ + spec_btype_name(ty@),
{
    match ty {
        BType::I32 => Ok(()),
        _ => {
            let n = btype_name(ty);
            Err(cat3(context, " expects int, got ", n.as_str()))
        }
    }
}

fn expect_i32_option(ty: Option<&BType>, context: &str) -> (r: Result<(), String>)
    ensures
        r is Ok <==> (ty matches Some(t) && t@ is I32),
{
    match ty {
        Some(t) => expect_i32(t, context),
        None => Err(cat(context, " expects int")),
    }
}

// ---------------------------------------------------------------------------
// Compatibility of kinds.

/// An argument of type `actual` may be passed for a parameter of type
/// `expected`: the same type, or an array for a pointer to its elements.
pub open spec fn call_arg_compatible(expected: SBType, actual: SBType) -> bool {
    expected == actual || (expected matches SBType::Ptr(inner) && actual matches SBType::Array(_, elem) && *inner == *elem)
}

pub open spec fn call_arg_ok(expected: SBType, actual: SKind) -> bool {
    match (expected, actual) {
        (SBType::Promise(e), SKind::Promise(a)) => promise_result_ok(*e) && promise_result_ok(a) && *e == a,
        (SBType::Promise(_), SKind::Plain(_)) => false,
        (_, SKind::Promise(_)) => false,
        (_, SKind::Plain(a)) => call_arg_compatible(expected, a),
    }
}

fn call_arg_compatible_exec(expected: &BType, actual: &BType) -> (b: bool)
    ensures
        b == call_arg_compatible(expected@, actual@),
{
    if btype_same(expected, actual) {
        return true;
    }
    match (expected, actual) {
        (BType::Ptr(inner), BType::Array(_, elem)) => btype_same(inner, elem),
        _ => false,
    }
}

/// `Function f argument n type mismatch: expected X, got Y`.
fn arg_mismatch(func_name: &str, idx: usize, expected: &str, actual: &str) -> (s: String)
    requires
        idx < usize::MAX,
    ensures
        s@ == "Function "@ + func_name@ + " argument "@ + nat_text((idx + 1) as nat)
            + " type mismatch: expected "@ + expected@ + ", got "@ + actual@,
{
    let n = crate::text::usize_text(idx + 1);
    let a = cat3("Function ", func_name, " argument ");
    let b = cat3(a.as_str(), n.as_str(), " type mismatch: expected ");
    let c = cat3(b.as_str(), expected, ", got ");
    cat(c.as_str(), actual)
}

fn validate_call_arg_kind(func_name: &str, idx: usize, expected: &BType, actual: &AsyncExprKind) -> (r: Result<(), String>)
    requires
        idx < usize::MAX,
    ensures
        r is Ok <==> call_arg_ok(expected@, actual@),
{
    match (expected, actual) {
        (BType::Promise(e), AsyncExprKind::Promise(a)) => {
            match ensure_promise_result_supported(e) {
                Err(m) => {
                    return Err(m);
                }
                Ok(()) => {}
            }
            match ensure_promise_result_supported(a) {
                Err(m) => {
                    return Err(m);
                }
                Ok(()) => {}
            }
            if btype_same(e, a) {
                Ok(())
            } else {
                let (x, y) = (btype_name(e), btype_name(a));
                let x = cat3("Promise<", x.as_str(), ">");
                let y = cat3("Promise<", y.as_str(), ">");
                Err(arg_mismatch(func_name, idx, x.as_str(), y.as_str()))
            }
        }
        (BType::Promise(e), AsyncExprKind::Plain(a)) => {
            let (x, y) = (btype_name(e), btype_name(a));
            let x = cat3("Promise<", x.as_str(), ">");
            Err(arg_mismatch(func_name, idx, x.as_str(), y.as_str()))
        }
        (_, AsyncExprKind::Promise(_)) => Err(String::from_str("Promise value cannot be passed as a normal argument without await")),
        (_, AsyncExprKind::Plain(a)) => {
            if call_arg_compatible_exec(expected, a) {
                Ok(())
            } else {
                let (x, y) = (btype_name(expected), btype_name(a));
                Err(arg_mismatch(func_name, idx, x.as_str(), y.as_str()))
            }
        }
    }
}

pub open spec fn assignment_ok(expected: SKind, actual: SKind) -> bool {
    match (expected, actual) {
        (SKind::Promise(e), SKind::Promise(a)) => e == a,
        (SKind::Plain(_), SKind::Promise(_)) => false,
        (SKind::Promise(_), SKind::Plain(_)) => false,
        (SKind::Plain(e), SKind::Plain(a)) => !(e is Array) && !(a is Array) && e == a,
    }
}

pub(crate) fn validate_assignment_kind(expected: &AsyncExprKind, actual: &AsyncExprKind) -> (r: Result<(), String>)
    ensures
        r is Ok <==> assignment_ok(expected@, actual@),
{
    match (expected, actual) {
        (AsyncExprKind::Promise(e), AsyncExprKind::Promise(a)) => {
            if btype_same(e, a) {
                Ok(())
            } else {
                let (x, y) = (btype_name(e), btype_name(a));
                let m = cat3("Promise assignment type mismatch: expected ", x.as_str(), ", got ");
                Err(cat(m.as_str(), y.as_str()))
            }
        }
        (AsyncExprKind::Plain(_), AsyncExprKind::Promise(_)) => Err(String::from_str("Promise value cannot be assigned without await")),
        (AsyncExprKind::Promise(_), AsyncExprKind::Plain(_)) => Err(String::from_str("Promise variable must be assigned a Promise value")),
        (AsyncExprKind::Plain(e), AsyncExprKind::Plain(a)) => {
            let array = match (e, a) {
                (BType::Array(_, _), _) | (_, BType::Array(_, _)) => true,
                _ => false,
            };
            if array {
                return Err(String::from_str("Array values cannot be assigned"));
            }
            if btype_same(e, a) {
                Ok(())
            } else {
                let (x, y) = (btype_name(e), btype_name(a));
                let m = cat3("Assignment type mismatch: expected ", x.as_str(), ", got ");
                Err(cat(m.as_str(), y.as_str()))
            }
        }
    }
}

pub open spec fn initializer_kind_ok(expected: SBType, actual: SKind) -> bool {
    match (expected, actual) {
        (SBType::Promise(e), SKind::Promise(a)) => promise_result_ok(*e) && promise_result_ok(a) && *e == a,
        (SBType::Promise(_), SKind::Plain(_)) => false,
        (_, SKind::Promise(_)) => false,
        (_, SKind::Plain(a)) => !(a is Array) && expected == a,
    }
}

fn validate_initializer_kind(expected: &BType, actual: &AsyncExprKind) -> (r: Result<(), String>)
    ensures
        r is Ok <==> initializer_kind_ok(expected@, actual@),
{
    match (expected, actual) {
        (BType::Promise(e), AsyncExprKind::Promise(a)) => {
            match ensure_promise_result_supported(e) {
                Err(m) => {
                    return Err(m);
                }
                Ok(()) => {}
            }
            match ensure_promise_result_supported(a) {
                Err(m) => {
                    return Err(m);
                }
                Ok(()) => {}
            }
            if btype_same(e, a) {
                Ok(())
            } else {
                let (x, y) = (btype_name(e), btype_name(a));
                let m = cat3("Promise initializer type mismatch: expected Promise<", x.as_str(), ">, got Promise<");
                Err(cat3(m.as_str(), y.as_str(), ">"))
            }
        }
        (BType::Promise(_), AsyncExprKind::Plain(_)) => Err(String::from_str("Promise variable must be initialized with a Promise value")),
        (_, AsyncExprKind::Promise(_)) => Err(String::from_str("Promise value cannot be used in initializer without await")),
        (_, AsyncExprKind::Plain(a)) => {
            match a {
                BType::Array(_, _) => {
                    return Err(String::from_str("Array value cannot be used as an initializer expression"));
                }
                _ => {}
            }
            if btype_same(expected, a) {
                Ok(())
            } else {
                let (x, y) = (btype_name(expected), btype_name(a));
                let m = cat3("Initializer type mismatch: expected ", x.as_str(), ", got ");
                Err(cat(m.as_str(), y.as_str()))
            }
        }
    }
}

// ---------------------------------------------------------------------------
// Element, field and operator types.

pub open spec fn spec_array_element(t: Option<SBType>) -> Option<SKind> {
    match t {
        Some(SBType::Array(_, inner)) => Some(spec_kind_from(*inner)),
        Some(SBType::Ptr(inner)) => Some(spec_kind_from(*inner)),
        _ => None,
    }
}

fn array_element_type(ty: Option<&BType>) -> (r: Result<AsyncExprKind, String>)
    ensures
        match spec_array_element(match ty { Some(t) => Some(t@), None => None }) {
            Some(k) => r matches Ok(k2) && k2@ == k,
            None => r is Err,
        },
{
    match ty {
        Some(BType::Array(_, inner)) => Ok(kind_from_btype(inner.copy())),
        Some(BType::Ptr(inner)) => Ok(kind_from_btype(inner.copy())),
        Some(other) => {
            let n = btype_name(other);
            Err(cat("Cannot index into ", n.as_str()))
        }
        None => Err(String::from_str("Cannot index into non-value expression")),
    }
}

/// The type of field `field` of struct `name` in `p`.
pub open spec fn spec_field_of(p: SemanticProgram, name: Seq<char>, field: Seq<char>) -> Option<SBType> {
    match assoc(p.structs.entries@, name) {
        Some(sig) => match assoc(sig.fields.entries@, field) {
            Some(t) => Some(t@),
            None => None,
        },
        None => None,
    }
}

pub open spec fn spec_field_access(p: SemanticProgram, base: Option<SBType>, field: Seq<char>) -> Option<SKind> {
    match base {
        Some(SBType::Struct(name)) => match spec_field_of(p, name, field) {
            Some(t) => Some(spec_kind_from(t)),
            None => None,
        },
        _ => None,
    }
}

fn field_access_type(program: &SemanticProgram, base: Option<&BType>, field: &str) -> (r: Result<AsyncExprKind, String>)
    ensures
        match spec_field_access(*program, match base { Some(t) => Some(t@), None => None }, field@) {
            Some(k) => r matches Ok(k2) && k2@ == k,
            None => r is Err,
        },
{
    match base {
        Some(BType::Struct(name)) => {
            match program.structs.get(name.as_str()) {
                None => Err(cat("Unknown struct type ", name.as_str())),
                Some(sig) => match sig.fields.get(field) {
                    None => {
                        let m = cat3("Struct ", name.as_str(), " has no field ");
                        Err(cat(m.as_str(), field))
                    }
                    Some(t) => Ok(kind_from_btype(t.copy())),
                },
            }
        }
        Some(other) => {
            let n = btype_name(other);
            Err(cat("Cannot access field on ", n.as_str()))
        }
        None => Err(String::from_str("Cannot access field on non-value expression")),
    }
}

pub open spec fn spec_ptr_field_access(p: SemanticProgram, base: Option<SBType>, field: Seq<char>) -> Option<SKind> {
    match base {
        Some(SBType::Ptr(inner)) => spec_field_access(p, Some(*inner), field),
        _ => None,
    }
}

fn ptr_field_access_type(program: &SemanticProgram, base: Option<&BType>, field: &str) -> (r: Result<AsyncExprKind, String>)
    ensures
        match spec_ptr_field_access(*program, match base { Some(t) => Some(t@), None => None }, field@) {
            Some(k) => r matches Ok(k2) && k2@ == k,
            None => r is Err,
        },
{
    match base {
        Some(BType::Ptr(inner)) => field_access_type(program, Some(&**inner), field),
        Some(other) => {
            let n = btype_name(other);
            Err(cat("Cannot access pointer field through ", n.as_str()))
        }
        None => Err(String::from_str("Cannot access pointer field through non-value expression")),
    }
}

pub open spec fn unary_ok(op: UnaryOp, t: Option<SBType>) -> bool {
    match op {
        UnaryOp::Addr => t is Some,
        UnaryOp::Deref => t matches Some(SBType::Ptr(_)),
        _ => t matches Some(SBType::I32),
    }
}

fn validate_unary_type(op: UnaryOp, ty: Option<&BType>) -> (r: Result<(), String>)
    ensures
        r is Ok <==> unary_ok(op, match ty { Some(t) => Some(t@), None => None }),
{
    match op {
        UnaryOp::Addr => match ty {
            Some(_) => Ok(()),
            None => Err(String::from_str("Cannot take address of non-value expression")),
        },
        UnaryOp::Deref => match ty {
            Some(BType::Ptr(_)) => Ok(()),
            Some(other) => {
                let n = btype_name(other);
                Err(cat("Cannot dereference ", n.as_str()))
            }
            None => Err(String::from_str("Cannot dereference non-value expression")),
        },
        _ => expect_i32_option(ty, "unary expression"),
    }
}

// ---------------------------------------------------------------------------
// The context of a function body.

pub struct SemanticCtx<'a> {
    pub program: &'a SemanticProgram,
    pub in_async_fn: bool,
    pub ret_ty: BType,
    pub scopes: Vec<Table<BType>>,
    pub const_scopes: Vec<Table<i32>>,
    pub declared_promises: NameSet,
    pub consumed_promises: NameSet,
}

/// The type of `name` in the innermost of the first `n` scopes that binds it.
pub open spec fn scopes_lookup(scopes: Seq<Seq<(String, BType)>>, name: Seq<char>, n: int) -> Option<SBType>
    decreases n,
{
    if 0 < n <= scopes.len() {
        match assoc(scopes[n - 1], name) {
            Some(t) => Some(t@),
            None => scopes_lookup(scopes, name, n - 1),
        }
    } else {
        None
    }
}

/// The type of variable `name`: a local of the innermost scope that has one,
/// else a global.
pub open spec fn var_type(p: SemanticProgram, scopes: Seq<Seq<(String, BType)>>, name: Seq<char>) -> Option<SBType> {
    match scopes_lookup(scopes, name, scopes.len() as int) {
        Some(t) => Some(t),
        None => match assoc(p.globals.entries@, name) {
            Some(t) => Some(t@),
            None => None,
        },
    }
}

impl<'a> SemanticCtx<'a> {
    /// The bindings of the scopes, outermost first.
    pub open spec fn scope_view(&self) -> Seq<Seq<(String, BType)>> {
        Seq::new(self.scopes@.len(), |i: int| self.scopes@[i].entries@)
    }

    /// The context differs from `old` at most by more consumed promises.
    pub open spec fn only_consumed_grew(&self, old: SemanticCtx<'a>) -> bool {
        &&& *self.program == *old.program
        &&& self.in_async_fn == old.in_async_fn
        &&& self.ret_ty == old.ret_ty
        &&& self.scopes@ == old.scopes@
        &&& self.const_scopes@ == old.const_scopes@
        &&& self.declared_promises == old.declared_promises
        &&& self.consumed_promises.wf()
        &&& old.consumed_promises.view_set().subset_of(self.consumed_promises.view_set())
    }

    pub(crate) fn lookup_var(&self, name: &str) -> (r: Option<BType>)
        ensures
            match r {
                Some(t) => var_type(*self.program, self.scope_view(), name@) == Some(t@),
                None => var_type(*self.program, self.scope_view(), name@) is None,
            },
    {
        let mut i = self.scopes.len();
        while i > 0
            invariant
                i <= self.scopes@.len(),
                scopes_lookup(self.scope_view(), name@, self.scopes@.len() as int) == scopes_lookup(self.scope_view(), name@, i as int),
            decreases i,
        {
            match self.scopes[i - 1].get(name) {
                Some(t) => {
                    return Some(t.copy());
                }
                None => {}
            }
            i = i - 1;
        }
        match self.program.globals.get(name) {
            Some(t) => Some(t.copy()),
            None => None,
        }
    }

    /// Marks the variable `exp` names, if it is one, as consumed.
    pub(crate) fn consume_promise_exp(&mut self, exp: &Exp)
        requires
            old(self).consumed_promises.wf(),
        ensures
            final(self).only_consumed_grew(*old(self)),
            final(self).consumed_promises.view_set() == old(self).consumed_promises.view_set().union(ident_set(exp@)),
    {
        proof {
            assert(old(self).consumed_promises.view_set().union(Set::empty()) =~= old(self).consumed_promises.view_set());
        }
        match exp_ident_name(exp) {
            Some(name) => {
                self.consumed_promises.insert(name.clone());
            }
            None => {}
        }
    }
}

// ---------------------------------------------------------------------------
// Expressions.

/// The kind of an expression in a context, or `None` when it is ill-formed.
pub open spec fn exp_kind(e: SExp, p: SemanticProgram, scopes: Seq<Seq<(String, BType)>>, in_async: bool) -> Option<SKind>
    decreases e, 1nat,
{
    match e {
        SExp::Spanned(inner, _) => exp_kind(*inner, p, scopes, in_async),
        SExp::Await(inner) => if !in_async {
            None
        } else {
            match exp_kind(*inner, p, scopes, in_async) {
                Some(SKind::Promise(t)) => if promise_result_ok(t) { Some(SKind::Plain(t)) } else { None },
                _ => None,
            }
        },
        SExp::FuncCall(name, args) => match assoc(p.funcs.entries@, name) {
            None => None,
            Some(sig) => if args.len() != sig.param_count {
                None
            } else if !args_ok(args, args.len() as int, sig, p, scopes, in_async) {
                None
            } else if sig.is_async {
                if promise_result_ok(sig.ret@) { Some(SKind::Promise(sig.ret@)) } else { None }
            } else {
                Some(spec_kind_from(sig.ret@))
            },
        },
        SExp::Sleep(d) => match exp_kind(*d, p, scopes, in_async) {
            Some(SKind::Plain(SBType::I32)) => Some(SKind::Promise(SBType::Void)),
            _ => None,
        },
        SExp::PromiseWait(inner) => if spec_exp_contains_await(*inner) {
            None
        } else {
            match exp_kind(*inner, p, scopes, in_async) {
                Some(SKind::Promise(t)) => if promise_result_ok(t) { Some(SKind::Plain(t)) } else { None },
                _ => None,
            }
        },
        SExp::Field(inner, f) => match exp_kind(*inner, p, scopes, in_async) {
            Some(SKind::Plain(t)) => spec_field_access(p, Some(t), f),
            _ => None,
        },
        SExp::PtrField(inner, f) => match exp_kind(*inner, p, scopes, in_async) {
            Some(SKind::Plain(t)) => spec_ptr_field_access(p, Some(t), f),
            _ => None,
        },
        SExp::UnaryExp(op, inner) => match exp_kind(*inner, p, scopes, in_async) {
            Some(SKind::Plain(t)) => if !unary_ok(op, Some(t)) {
                None
            } else {
                match op {
                    UnaryOp::Addr => if spec_is_lvalue_shape(*inner) { Some(SKind::Plain(SBType::Ptr(Box::new(t)))) } else { None },
                    UnaryOp::Deref => match t {
                        SBType::Ptr(target) => Some(SKind::Plain(*target)),
                        _ => None,
                    },
                    _ => Some(SKind::Plain(SBType::I32)),
                }
            },
            _ => None,
        },
        SExp::BinaryExp(_, l, r) => match (exp_kind(*l, p, scopes, in_async), exp_kind(*r, p, scopes, in_async)) {
            (Some(SKind::Plain(SBType::I32)), Some(SKind::Plain(SBType::I32))) => Some(SKind::Plain(SBType::I32)),
            _ => None,
        },
        SExp::ArrGet(l, r) => match (exp_kind(*l, p, scopes, in_async), exp_kind(*r, p, scopes, in_async)) {
            (Some(SKind::Plain(lt)), Some(SKind::Plain(SBType::I32))) => spec_array_element(Some(lt)),
            _ => None,
        },
        SExp::Number(_) => Some(SKind::Plain(SBType::I32)),
        SExp::Ident(n) => match var_type(p, scopes, n) {
            Some(t) => Some(spec_kind_from(t)),
            None => None,
        },
        SExp::New(t) => if new_type_error(t, struct_name_set(p)) is None {
            Some(SKind::Plain(SBType::Ptr(Box::new(t))))
        } else {
            None
        },
    }
}

/// The variable an expression names, if it is one.
pub open spec fn ident_set(e: SExp) -> Set<Seq<char>> {
    match spec_exp_ident_name(e) {
        Some(n) => set![n],
        None => Set::empty(),
    }
}

/// The promise variables a well-formed expression consumes: those it
/// awaits, waits on, or passes for a promise parameter.
pub open spec fn exp_consumed(e: SExp, p: SemanticProgram, scopes: Seq<Seq<(String, BType)>>, in_async: bool) -> Set<Seq<char>>
    decreases e, 1nat,
{
    match e {
        SExp::Spanned(inner, _) => exp_consumed(*inner, p, scopes, in_async),
        SExp::Await(inner) => exp_consumed(*inner, p, scopes, in_async).union(ident_set(*inner)),
        SExp::FuncCall(name, args) => match assoc(p.funcs.entries@, name) {
            Some(sig) => args_consumed(args, args.len() as int, sig, p, scopes, in_async),
            None => Set::empty(),
        },
        SExp::Sleep(d) => exp_consumed(*d, p, scopes, in_async),
        SExp::PromiseWait(inner) => exp_consumed(*inner, p, scopes, in_async).union(ident_set(*inner)),
        SExp::Field(inner, _) => exp_consumed(*inner, p, scopes, in_async),
        SExp::PtrField(inner, _) => exp_consumed(*inner, p, scopes, in_async),
        SExp::UnaryExp(_, inner) => exp_consumed(*inner, p, scopes, in_async),
        SExp::BinaryExp(_, l, r) => exp_consumed(*l, p, scopes, in_async).union(exp_consumed(*r, p, scopes, in_async)),
        SExp::ArrGet(l, r) => exp_consumed(*l, p, scopes, in_async).union(exp_consumed(*r, p, scopes, in_async)),
        _ => Set::empty(),
    }
}

pub open spec fn args_consumed(
    args: Seq<SExp>,
    n: int,
    sig: FunctionSig,
    p: SemanticProgram,
    scopes: Seq<Seq<(String, BType)>>,
    in_async: bool,
) -> Set<Seq<char>>
    decreases args, n,
{
    if 0 < n <= args.len() {
        args_consumed(args, n - 1, sig, p, scopes, in_async)
            .union(exp_consumed(args[n - 1], p, scopes, in_async))
            .union(
                if n - 1 < sig.params@.len() && sig.params@[n - 1]@ is Promise
                    && exp_kind(args[n - 1], p, scopes, in_async) matches Some(SKind::Promise(_)) {
                    ident_set(args[n - 1])
                } else {
                    Set::empty()
                },
            )
    } else {
        Set::empty()
    }
}

/// The first `n` arguments are well-formed and fit their parameters.
pub open spec fn args_ok(
    args: Seq<SExp>,
    n: int,
    sig: FunctionSig,
    p: SemanticProgram,
    scopes: Seq<Seq<(String, BType)>>,
    in_async: bool,
) -> bool
    decreases args, n,
{
    if 0 < n <= args.len() {
        &&& args_ok(args, n - 1, sig, p, scopes, in_async)
        &&& match exp_kind(args[n - 1], p, scopes, in_async) {
            Some(k) => n - 1 < sig.params@.len() && call_arg_ok(sig.params@[n - 1]@, k),
            None => false,
        }
    } else {
        true
    }
}

proof fn lemma_args_ok_prefix(
    args: Seq<SExp>,
    m: int,
    n: int,
    sig: FunctionSig,
    p: SemanticProgram,
    scopes: Seq<Seq<(String, BType)>>,
    in_async: bool,
)
    requires
        0 <= m <= n <= args.len(),
        args_ok(args, n, sig, p, scopes, in_async),
    ensures
        args_ok(args, m, sig, p, scopes, in_async),
    decreases n - m,
{
    if m < n {
        lemma_args_ok_prefix(args, m, n - 1, sig, p, scopes, in_async);
    }
}

/// Checks an expression; its kind on success.
#[verifier::spinoff_prover]
#[verifier::rlimit(60)]
pub(crate) fn exp_validate(exp: &Exp, ctx: &mut SemanticCtx, loop_depth: usize) -> (r: Result<AsyncExprKind, Diagnostic>)
    requires
        old(ctx).consumed_promises.wf(),
    ensures
        final(ctx).only_consumed_grew(*old(ctx)),
        match (r, exp_kind(exp@, *old(ctx).program, old(ctx).scope_view(), old(ctx).in_async_fn)) {
            (Ok(k), Some(k2)) => k@ == k2,
            (Err(_), None) => true,
            _ => false,
        },
        r is Ok ==> final(ctx).consumed_promises.view_set()
            == old(ctx).consumed_promises.view_set().union(exp_consumed(exp@, *old(ctx).program, old(ctx).scope_view(), old(ctx).in_async_fn)),
        exp@ is Await && !old(ctx).in_async_fn ==> (r matches Err(d) && d.span is None
            && d.message@ == "await is only allowed inside async functions"@),
        exp@ matches SExp::BinaryExp(_, l, rr) ==> ((exp_kind(*l, *old(ctx).program, old(ctx).scope_view(), old(ctx).in_async_fn) matches Some(kl)
            && exp_kind(*rr, *old(ctx).program, old(ctx).scope_view(), old(ctx).in_async_fn) matches Some(kr)
            && (kl is Promise || kr is Promise)) ==> (r matches Err(d) && d.span is None
            && d.message@ == "Promise value cannot be used in expression without await"@)),
    decreases exp,
{
    let ghost c0 = *ctx;
    match exp {
        Exp::Spanned(inner, span) => match exp_validate(inner, ctx, loop_depth) {
            Ok(k) => Ok(k),
            Err(e) => Err(e.with_fallback_span(*span)),
        },
        Exp::Await(inner) => {
            if !ctx.in_async_fn {
                return Err(Diagnostic::new(String::from_str("await is only allowed inside async functions")));
            }
            let kind = match exp_validate(inner, ctx, loop_depth) {
                Ok(k) => k,
                Err(e) => {
                    return Err(e);
                }
            };
            match kind {
                AsyncExprKind::Promise(t) => {
                    match ensure_promise_result_supported(&t) {
                        Err(m) => {
                            return Err(Diagnostic::new(m));
                        }
                        Ok(()) => {}
                    }
                    ctx.consume_promise_exp(inner);
                    Ok(AsyncExprKind::Plain(t))
                }
                AsyncExprKind::Plain(_) => Err(Diagnostic::new(String::from_str("await expects a Promise value"))),
            }
        }
        Exp::FuncCall(name, args) => {
            let program = ctx.program;
            let sig = match program.funcs.get(name.as_str()) {
                Some(sig) => sig,
                None => {
                    return Err(Diagnostic::new(cat("Unknown function ", name.as_str())));
                }
            };
            if args.len() != sig.param_count {
                let n1 = crate::text::usize_text(sig.param_count);
                let n2 = crate::text::usize_text(args.len());
                let m = cat3("Function ", name.as_str(), " expects ");
                let m = cat3(m.as_str(), n1.as_str(), " argument(s), got ");
                return Err(Diagnostic::new(cat(m.as_str(), n2.as_str())));
            }
            let ghost views = exp@->FuncCall_1;
            proof {
                lemma_call_view(exp);
            }
            let mut idx: usize = 0;
            while idx < args.len()
                invariant
                    idx <= args@.len(),
                    views.len() == args@.len(),
                    forall|j: int| 0 <= j < args@.len() ==> #[trigger] views[j] == args@[j]@,
                    ctx.only_consumed_grew(c0),
                    args_ok(views, idx as int, *sig, *c0.program, c0.scope_view(), c0.in_async_fn),
                    assoc(c0.program.funcs.entries@, name@) == Some(*sig),
                    ctx.consumed_promises.view_set() == c0.consumed_promises.view_set().union(
                        args_consumed(views, idx as int, *sig, *c0.program, c0.scope_view(), c0.in_async_fn)),
                decreases args.len() - idx,
            {
                let kind = match exp_validate(&args[idx], ctx, loop_depth) {
                    Ok(k) => k,
                    Err(e) => {
                        proof {
                            if args_ok(views, views.len() as int, *sig, *c0.program, c0.scope_view(), c0.in_async_fn) {
                                lemma_args_ok_prefix(views, idx + 1, views.len() as int, *sig, *c0.program, c0.scope_view(), c0.in_async_fn);
                            }
                        }
                        return Err(e);
                    }
                };
                proof {
                    if args_ok(views, views.len() as int, *sig, *c0.program, c0.scope_view(), c0.in_async_fn) {
                        lemma_args_ok_prefix(views, idx + 1, views.len() as int, *sig, *c0.program, c0.scope_view(), c0.in_async_fn);
                    }
                }
                if idx >= sig.params.len() {
                    let n1 = crate::text::usize_text(sig.param_count);
                    let n2 = crate::text::usize_text(args.len());
                    let m = cat3("Function ", name.as_str(), " expects ");
                    let m = cat3(m.as_str(), n1.as_str(), " argument(s), got ");
                    return Err(Diagnostic::new(cat(m.as_str(), n2.as_str())));
                }
                let expected = &sig.params[idx];
                match validate_call_arg_kind(name.as_str(), idx, expected, &kind) {
                    Err(m) => {
                        return Err(Diagnostic::new(m));
                    }
                    Ok(()) => {}
                }
                let expects_promise = match expected {
                    BType::Promise(_) => true,
                    _ => false,
                };
                let ghost before = ctx.consumed_promises.view_set();
                if expects_promise && kind.is_promise() {
                    ctx.consume_promise_exp(&args[idx]);
                } else {
                    proof {
                        assert(ctx.consumed_promises.view_set() =~= before.union(Set::empty()));
                    }
                }
                proof {
                    assert(ctx.consumed_promises.view_set() =~= c0.consumed_promises.view_set().union(
                        args_consumed(views, idx + 1, *sig, *c0.program, c0.scope_view(), c0.in_async_fn)));
                }
                idx = idx + 1;
            }
            if sig.is_async {
                match ensure_promise_result_supported(&sig.ret) {
                    Err(m) => {
                        return Err(Diagnostic::new(m));
                    }
                    Ok(()) => {}
                }
                Ok(AsyncExprKind::Promise(sig.ret.copy()))
            } else {
                Ok(kind_from_btype(sig.ret.copy()))
            }
        }
        Exp::Sleep(duration) => {
            let kind = match exp_validate(duration, ctx, loop_depth) {
                Ok(k) => k,
                Err(e) => {
                    return Err(e);
                }
            };
            if kind.is_promise() {
                return Err(Diagnostic::new(String::from_str("sleep duration cannot be a Promise value")));
            }
            let is_int = match kind.plain_ty() {
                Some(BType::I32) => true,
                _ => false,
            };
            if !is_int {
                let n = match kind.plain_ty() {
                    Some(t) => btype_name(t),
                    None => String::from_str("void"),
                };
                return Err(Diagnostic::new(cat("sleep duration expects int, got ", n.as_str())));
            }
            Ok(AsyncExprKind::Promise(BType::Void))
        }
        Exp::PromiseWait(inner) => {
            if exp_contains_await(inner) {
                return Err(Diagnostic::new(String::from_str("await inside Promise.wait receiver is not supported")));
            }
            let kind = match exp_validate(inner, ctx, loop_depth) {
                Ok(k) => k,
                Err(e) => {
                    return Err(e);
                }
            };
            match kind {
                AsyncExprKind::Promise(t) => {
                    match ensure_promise_result_supported(&t) {
                        Err(m) => {
                            return Err(Diagnostic::new(m));
                        }
                        Ok(()) => {}
                    }
                    ctx.consume_promise_exp(inner);
                    Ok(AsyncExprKind::Plain(t))
                }
                AsyncExprKind::Plain(_) => Err(Diagnostic::new(String::from_str("Promise.wait() expects a Promise value"))),
            }
        }
        Exp::Field(inner, field) => {
            let kind = match exp_validate(inner, ctx, loop_depth) {
                Ok(k) => k,
                Err(e) => {
                    return Err(e);
                }
            };
            if kind.is_promise() {
                return Err(Diagnostic::new(String::from_str("Promise value cannot be used for field access without await")));
            }
            match field_access_type(ctx.program, kind.plain_ty(), field.as_str()) {
                Ok(k) => Ok(k),
                Err(m) => Err(Diagnostic::new(m)),
            }
        }
        Exp::PtrField(inner, field) => {
            let kind = match exp_validate(inner, ctx, loop_depth) {
                Ok(k) => k,
                Err(e) => {
                    return Err(e);
                }
            };
            if kind.is_promise() {
                return Err(Diagnostic::new(String::from_str("Promise value cannot be used for field access without await")));
            }
            match ptr_field_access_type(ctx.program, kind.plain_ty(), field.as_str()) {
                Ok(k) => Ok(k),
                Err(m) => Err(Diagnostic::new(m)),
            }
        }
        Exp::UnaryExp(op, inner) => {
            let kind = match exp_validate(inner, ctx, loop_depth) {
                Ok(k) => k,
                Err(e) => {
                    return Err(e);
                }
            };
            if kind.is_promise() {
                return Err(Diagnostic::new(String::from_str("Promise value cannot be used in unary expression without await")));
            }
            match validate_unary_type(*op, kind.plain_ty()) {
                Err(m) => {
                    return Err(Diagnostic::new(m));
                }
                Ok(()) => {}
            }
            match op {
                UnaryOp::Addr => {
                    if !inner.is_lvalue_shape() {
                        return Err(Diagnostic::new(String::from_str("Cannot take address of non-lvalue expression")));
                    }
                    let t = match kind.plain_ty() {
                        Some(t) => t.copy(),
                        None => BType::I32,
                    };
                    Ok(AsyncExprKind::Plain(BType::Ptr(Box::new(t))))
                }
                UnaryOp::Deref => match kind.plain_ty() {
                    Some(BType::Ptr(target)) => Ok(AsyncExprKind::Plain(target.copy())),
                    _ => Err(Diagnostic::new(String::from_str("Cannot dereference non-pointer value"))),
                },
                _ => Ok(AsyncExprKind::Plain(BType::I32)),
            }
        }
        Exp::BinaryExp(_, lhs, rhs) => {
            let lk = match exp_validate(lhs, ctx, loop_depth) {
                Ok(k) => k,
                Err(e) => {
                    return Err(e);
                }
            };
            let rk = match exp_validate(rhs, ctx, loop_depth) {
                Ok(k) => k,
                Err(e) => {
                    return Err(e);
                }
            };
            if lk.is_promise() || rk.is_promise() {
                return Err(Diagnostic::new(String::from_str("Promise value cannot be used in expression without await")));
            }
            match expect_i32_option(lk.plain_ty(), "left operand") {
                Err(m) => {
                    return Err(Diagnostic::new(m));
                }
                Ok(()) => {}
            }
            match expect_i32_option(rk.plain_ty(), "right operand") {
                Err(m) => {
                    return Err(Diagnostic::new(m));
                }
                Ok(()) => {}
            }
            Ok(AsyncExprKind::Plain(BType::I32))
        }
        Exp::ArrGet(lhs, rhs) => {
            let lk = match exp_validate(lhs, ctx, loop_depth) {
                Ok(k) => k,
                Err(e) => {
                    return Err(e);
                }
            };
            if lk.is_promise() {
                return Err(Diagnostic::new(String::from_str("Promise value cannot be indexed without await")));
            }
            let rk = match exp_validate(rhs, ctx, loop_depth) {
                Ok(k) => k,
                Err(e) => {
                    return Err(e);
                }
            };
            if rk.is_promise() {
                return Err(Diagnostic::new(String::from_str("Promise value cannot be used as an array index without await")));
            }
            let is_int = match rk.plain_ty() {
                Some(BType::I32) => true,
                _ => false,
            };
            if !is_int {
                let n = match rk.plain_ty() {
                    Some(t) => btype_name(t),
                    None => String::from_str("void"),
                };
                return Err(Diagnostic::new(cat("array index expects int, got ", n.as_str())));
            }
            match array_element_type(lk.plain_ty()) {
                Ok(k) => Ok(k),
                Err(m) => Err(Diagnostic::new(m)),
            }
        }
        Exp::Number(_) => Ok(AsyncExprKind::Plain(BType::I32)),
        Exp::Ident(name) => match ctx.lookup_var(name.as_str()) {
            Some(t) => Ok(kind_from_btype(t)),
            None => Err(Diagnostic::new(cat("Unknown identifier ", name.as_str()))),
        },
        Exp::New(ty) => match validate_new_type_in_program(ty, ctx.program) {
            Err(m) => Err(Diagnostic::new(m)),
            Ok(()) => Ok(AsyncExprKind::Plain(BType::Ptr(Box::new(ty.copy())))),
        },
    }
}

// ---------------------------------------------------------------------------
// Initializers.

/// An initializer list for an array holds more scalars than the array.
pub open spec fn too_many(i: SInit, t: SBType) -> bool {
    capacity_fits(t) && saturate(spec_scalar_count(i)) > spec_scalar_capacity(t)
}

/// The type the `k`-th item of an array initializer must have: the element
/// type for a nested list, the innermost scalar type otherwise.
pub open spec fn item_expected(item: SInit, inner: SBType, whole: SBType) -> SBType {
    if spec_unspan_init(item) is Arr { inner } else { spec_inner_scalar_btype(whole) }
}

/// An initializer fits a value of type `expected`.
pub open spec fn init_ok(i: SInit, expected: SBType, p: SemanticProgram, scopes: Seq<Seq<(String, BType)>>, in_async: bool) -> bool
    decreases i, 2nat,
{
    match i {
        SInit::Spanned(inner, _) => init_ok(*inner, expected, p, scopes, in_async),
        SInit::Exp(e) => !(expected is Array) && match exp_kind(e, p, scopes, in_async) {
            Some(k) => initializer_kind_ok(expected, k),
            None => false,
        },
        SInit::Arr(items) => match expected {
            SBType::Array(_, inner) => !too_many(i, expected) && arr_items_ok(items, items.len() as int, *inner, expected, p, scopes, in_async),
            SBType::Struct(name) => match assoc(p.structs.entries@, name) {
                Some(sig) => items.len() <= sig.field_order@.len() && struct_items_ok(items, items.len() as int, sig.field_order@, p, scopes, in_async),
                None => false,
            },
            _ => false,
        },
    }
}

pub open spec fn arr_items_ok(items: Seq<SInit>, n: int, inner: SBType, whole: SBType, p: SemanticProgram, scopes: Seq<Seq<(String, BType)>>, in_async: bool) -> bool
    decreases items, n,
{
    if 0 < n <= items.len() {
        arr_items_ok(items, n - 1, inner, whole, p, scopes, in_async)
            && init_ok(items[n - 1], item_expected(items[n - 1], inner, whole), p, scopes, in_async)
    } else {
        true
    }
}

pub open spec fn struct_items_ok(items: Seq<SInit>, n: int, fields: Seq<StructFieldSig>, p: SemanticProgram, scopes: Seq<Seq<(String, BType)>>, in_async: bool) -> bool
    decreases items, n,
{
    if 0 < n <= items.len() {
        struct_items_ok(items, n - 1, fields, p, scopes, in_async)
            && n - 1 < fields.len() && init_ok(items[n - 1], fields[n - 1].ty@, p, scopes, in_async)
    } else {
        true
    }
}

/// The promise variables a well-formed initializer consumes.
pub open spec fn init_consumed(i: SInit, expected: SBType, p: SemanticProgram, scopes: Seq<Seq<(String, BType)>>, in_async: bool) -> Set<Seq<char>>
    decreases i, 2nat,
{
    match i {
        SInit::Spanned(inner, _) => init_consumed(*inner, expected, p, scopes, in_async),
        SInit::Exp(e) => exp_consumed(e, p, scopes, in_async),
        SInit::Arr(items) => match expected {
            SBType::Array(_, inner) => arr_items_consumed(items, items.len() as int, *inner, expected, p, scopes, in_async),
            SBType::Struct(name) => match assoc(p.structs.entries@, name) {
                Some(sig) => struct_items_consumed(items, items.len() as int, sig.field_order@, p, scopes, in_async),
                None => Set::empty(),
            },
            _ => Set::empty(),
        },
    }
}

pub open spec fn arr_items_consumed(items: Seq<SInit>, n: int, inner: SBType, whole: SBType, p: SemanticProgram, scopes: Seq<Seq<(String, BType)>>, in_async: bool) -> Set<Seq<char>>
    decreases items, n,
{
    if 0 < n <= items.len() {
        arr_items_consumed(items, n - 1, inner, whole, p, scopes, in_async)
            .union(init_consumed(items[n - 1], item_expected(items[n - 1], inner, whole), p, scopes, in_async))
    } else {
        Set::empty()
    }
}

pub open spec fn struct_items_consumed(items: Seq<SInit>, n: int, fields: Seq<StructFieldSig>, p: SemanticProgram, scopes: Seq<Seq<(String, BType)>>, in_async: bool) -> Set<Seq<char>>
    decreases items, n,
{
    if 0 < n <= items.len() {
        struct_items_consumed(items, n - 1, fields, p, scopes, in_async).union(
            if n - 1 < fields.len() { init_consumed(items[n - 1], fields[n - 1].ty@, p, scopes, in_async) } else { Set::empty() })
    } else {
        Set::empty()
    }
}

proof fn lemma_arr_items_prefix(items: Seq<SInit>, m: int, n: int, inner: SBType, whole: SBType, p: SemanticProgram, scopes: Seq<Seq<(String, BType)>>, in_async: bool)
    requires
        0 <= m <= n <= items.len(),
        arr_items_ok(items, n, inner, whole, p, scopes, in_async),
    ensures
        arr_items_ok(items, m, inner, whole, p, scopes, in_async),
    decreases n - m,
{
    if m < n {
        lemma_arr_items_prefix(items, m, n - 1, inner, whole, p, scopes, in_async);
    }
}

proof fn lemma_struct_items_prefix(items: Seq<SInit>, m: int, n: int, fields: Seq<StructFieldSig>, p: SemanticProgram, scopes: Seq<Seq<(String, BType)>>, in_async: bool)
    requires
        0 <= m <= n <= items.len(),
        struct_items_ok(items, n, fields, p, scopes, in_async),
    ensures
        struct_items_ok(items, m, fields, p, scopes, in_async),
    decreases n - m,
{
    if m < n {
        lemma_struct_items_prefix(items, m, n - 1, fields, p, scopes, in_async);
    }
}

/// Checks an initializer against the type it initializes.
#[verifier::spinoff_prover]
#[verifier::rlimit(60)]
pub(crate) fn validate_initializer(ctx: &mut SemanticCtx, init: &InitVal, expected: &BType, loop_depth: usize) -> (r: Result<(), Diagnostic>)
    requires
        old(ctx).consumed_promises.wf(),
    ensures
        final(ctx).only_consumed_grew(*old(ctx)),
        r is Ok <==> init_ok(init@, expected@, *old(ctx).program, old(ctx).scope_view(), old(ctx).in_async_fn),
        r is Ok ==> final(ctx).consumed_promises.view_set() == old(ctx).consumed_promises.view_set().union(
            init_consumed(init@, expected@, *old(ctx).program, old(ctx).scope_view(), old(ctx).in_async_fn)),
    decreases init,
{
    let ghost c0 = *ctx;
    match init {
        InitVal::Spanned(inner, span) => match validate_initializer(ctx, inner, expected, loop_depth) {
            Ok(()) => Ok(()),
            Err(e) => Err(e.with_fallback_span(*span)),
        },
        InitVal::Exp(exp) => {
            match expected {
                BType::Array(_, _) => {
                    return Err(Diagnostic::new(String::from_str("Array initializer must use an initializer list")));
                }
                _ => {}
            }
            let kind = match exp_validate(exp, ctx, loop_depth) {
                Ok(k) => k,
                Err(e) => {
                    return Err(e);
                }
            };
            match validate_initializer_kind(expected, &kind) {
                Ok(()) => Ok(()),
                Err(m) => Err(Diagnostic::new(m)),
            }
        }
        InitVal::Arr(items) => {
            let ghost views = init@->Arr_0;
            proof {
                lemma_arr_view(init);
            }
            match expected {
                BType::Array(_, inner) => {
                    let used = initializer_scalar_count(init);
                    match array_scalar_capacity(expected) {
                        Some(capacity) => {
                            if used > capacity {
                                let n = btype_name(expected);
                                return Err(Diagnostic::new(cat("Too many initializer values for ", n.as_str())));
                            }
                        }
                        None => {}
                    }
                    let scalar = inner_scalar_btype(expected);
                    let mut i: usize = 0;
                    while i < items.len()
                        invariant
                            i <= items@.len(),
                            views.len() == items@.len(),
                            forall|j: int| 0 <= j < items@.len() ==> #[trigger] views[j] == items@[j]@,
                            ctx.only_consumed_grew(c0),
                            arr_items_ok(views, i as int, inner@, expected@, *c0.program, c0.scope_view(), c0.in_async_fn),
                            ctx.consumed_promises.view_set() == c0.consumed_promises.view_set().union(
                                arr_items_consumed(views, i as int, inner@, expected@, *c0.program, c0.scope_view(), c0.in_async_fn)),
                        decreases items.len() - i,
                    {
                        let item = &items[i];
                        let nested = match unspan_init(item) {
                            InitVal::Arr(_) => true,
                            _ => false,
                        };
                        let res = if nested {
                            validate_initializer(ctx, item, inner, loop_depth)
                        } else {
                            validate_initializer(ctx, item, scalar, loop_depth)
                        };
                        match res {
                            Ok(()) => {}
                            Err(e) => {
                                proof {
                                    if arr_items_ok(views, views.len() as int, inner@, expected@, *c0.program, c0.scope_view(), c0.in_async_fn) {
                                        lemma_arr_items_prefix(views, i + 1, views.len() as int, inner@, expected@, *c0.program, c0.scope_view(), c0.in_async_fn);
                                    }
                                }
                                return Err(e);
                            }
                        }
                        i = i + 1;
                    }
                    Ok(())
                }
                BType::Struct(name) => {
                    let program = ctx.program;
                    let sig = match program.structs.get(name.as_str()) {
                        Some(sig) => sig,
                        None => {
                            return Err(Diagnostic::new(cat("Unknown struct type ", name.as_str())));
                        }
                    };
                    let mut i: usize = 0;
                    while i < items.len()
                        invariant
                            i <= items@.len(),
                            views.len() == items@.len(),
                            forall|j: int| 0 <= j < items@.len() ==> #[trigger] views[j] == items@[j]@,
                            ctx.only_consumed_grew(c0),
                            assoc(c0.program.structs.entries@, name@) == Some(*sig),
                            struct_items_ok(views, i as int, sig.field_order@, *c0.program, c0.scope_view(), c0.in_async_fn),
                            ctx.consumed_promises.view_set() == c0.consumed_promises.view_set().union(
                                struct_items_consumed(views, i as int, sig.field_order@, *c0.program, c0.scope_view(), c0.in_async_fn)),
                        decreases items.len() - i,
                    {
                        if i >= sig.field_order.len() {
                            proof {
                                if struct_items_ok(views, views.len() as int, sig.field_order@, *c0.program, c0.scope_view(), c0.in_async_fn) {
                                    lemma_struct_items_prefix(views, i + 1, views.len() as int, sig.field_order@, *c0.program, c0.scope_view(), c0.in_async_fn);
                                }
                            }
                            return Err(Diagnostic::new(cat("Too many initializer values for ", name.as_str())));
                        }
                        match validate_initializer(ctx, &items[i], &sig.field_order[i].ty, loop_depth) {
                            Ok(()) => {}
                            Err(e) => {
                                proof {
                                    if struct_items_ok(views, views.len() as int, sig.field_order@, *c0.program, c0.scope_view(), c0.in_async_fn) {
                                        lemma_struct_items_prefix(views, i + 1, views.len() as int, sig.field_order@, *c0.program, c0.scope_view(), c0.in_async_fn);
                                    }
                                }
                                return Err(e);
                            }
                        }
                        i = i + 1;
                    }
                    Ok(())
                }
                other => {
                    let n = btype_name(other);
                    Err(Diagnostic::new(cat("Initializer list cannot initialize ", n.as_str())))
                }
            }
        }
    }
}

} // verus!
