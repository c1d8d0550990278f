use vstd::prelude::*;
use crate::lalr::{
    const_eval, eval_const_checked, BType, CompUnit, Exp, FuncParam, GlobalDef, InitVal, SBType,
    SExp, SField, SStruct, SType, SVarDecl, SDecl, StructDef, Type, VarDecl, array_of, exps_view,
    func_param_btype, decls_view,
};
use crate::llvm::layout::{
    align_up, spec_align_up, spec_try_align, spec_try_size, size_overflow_message, FieldLayout,
    StructLayout,
};
use crate::llvm::types::{spec_from_btype, LlvmType, SLlvm};
use crate::syntax::{init_exp, spec_init_exp, spec_var_decl_name, var_decl_name};
use crate::table::{assoc, keys_of, lemma_assoc_concat, lemma_assoc_some, lemma_distinct_names_bounded, Table};
use crate::text::cat;

verus! {

broadcast use vstd::std_specs::vec::group_vec_axioms;

#[derive(Debug)]
pub struct FuncSig {
    pub ret: LlvmType,
    pub is_async: bool,
    pub params: Vec<LlvmType>,
}

/// The first field called `f` in a list of field layouts.
pub open spec fn first_named(fs: Seq<FieldLayout>, f: Seq<char>) -> Option<FieldLayout>
    decreases fs.len(),
{
    if fs.len() == 0 {
        None
    } else if fs[0].name@ == f {
        Some(fs[0])
    } else {
        first_named(fs.drop_first(), f)
    }
}

/// The layout of field `f` of struct `s`: its first field of that name.
pub open spec fn field_layout_of(layouts: Seq<(String, StructLayout)>, s: Seq<char>, f: Seq<char>) -> Option<FieldLayout> {
    match assoc(layouts, s) {
        Some(l) => first_named(l.fields@, f),
        None => None,
    }
}

proof fn lemma_first_named_at(fs: Seq<FieldLayout>, f: Seq<char>, i: int)
    requires
        0 <= i < fs.len(),
        fs[i].name@ == f,
        forall|j: int| 0 <= j < i ==> #[trigger] fs[j].name@ != f,
    ensures
        first_named(fs, f) == Some(fs[i]),
    decreases i,
{
    if i > 0 {
        assert(fs[0].name@ != f);
        lemma_first_named_at(fs.drop_first(), f, i - 1);
    }
}

proof fn lemma_first_named_none(fs: Seq<FieldLayout>, f: Seq<char>)
    requires
        forall|j: int| 0 <= j < fs.len() ==> #[trigger] fs[j].name@ != f,
    ensures
        first_named(fs, f) is None,
    decreases fs.len(),
{
    if fs.len() > 0 {
        assert(fs[0].name@ != f);
        assert forall|j: int| 0 <= j < fs.drop_first().len() implies #[trigger] fs.drop_first()[j].name@ != f by {
            assert(fs.drop_first()[j] == fs[j + 1]);
        }
        lemma_first_named_none(fs.drop_first(), f);
    }
}

/// What the backend knows of a program before it emits code.
pub struct ModuleCtx {
    pub structs: Table<StructDef>,
    pub layouts: Table<StructLayout>,
    pub funcs: Table<FuncSig>,
    pub globals: Table<LlvmType>,
    pub constants: Table<i32>,
}

// ---------------------------------------------------------------------------
// Declared types

pub open spec fn spec_type_to_llvm(t: SType) -> SLlvm {
    match t {
        SType::BType(b) => spec_from_btype(b),
        SType::Const(b) => spec_from_btype(b),
    }
}

pub fn type_to_llvm(ty: &Type) -> (t: LlvmType)
    ensures
        t@ == spec_type_to_llvm(ty@),
{
    match ty {
        Type::BType(b) => LlvmType::from_btype(b),
        Type::Const(b) => LlvmType::from_btype(b),
    }
}

pub open spec fn not_constant_length_message() -> Seq<char> {
    "Array length must be a constant expression"@
}

pub open spec fn negative_length_message() -> Seq<char> {
    "Array length must be non-negative"@
}

pub open spec fn overflow_message() -> Seq<char> {
    "Constant expression overflows"@
}

/// The length of one array dimension.
pub open spec fn spec_const_dim(len: SExp, env: Seq<(String, i32)>) -> Result<usize, Seq<char>> {
    match const_eval(len, env) {
        None => Err(overflow_message()),
        Some(None) => Err(not_constant_length_message()),
        Some(Some(v)) => if v < 0 { Err(negative_length_message()) } else { Ok(v as usize) },
    }
}

/// The dimensions of a declarator, outermost first.
pub open spec fn spec_var_dims(var: SVarDecl, env: Seq<(String, i32)>) -> Result<Seq<usize>, Seq<char>>
    decreases var,
{
    match var {
        SVarDecl::Ident(_) => Ok(Seq::empty()),
        SVarDecl::Array(inner, len) => match spec_var_dims(*inner, env) {
            Err(e) => Err(e),
            Ok(d) => match spec_const_dim(len, env) {
                Err(e) => Err(e),
                Ok(v) => Ok(d.push(v)),
            },
        },
    }
}

/// `base` wrapped in arrays of the given dimensions, outermost first.
pub open spec fn llvm_array_of(base: SLlvm, dims: Seq<usize>) -> SLlvm
    decreases dims.len(),
{
    if dims.len() == 0 {
        base
    } else {
        SLlvm::Array(dims[0], Box::new(llvm_array_of(base, dims.drop_first())))
    }
}

proof fn lemma_llvm_array_of_last(base: SLlvm, dims: Seq<usize>)
    requires
        dims.len() > 0,
    ensures
        llvm_array_of(base, dims) == llvm_array_of(SLlvm::Array(dims.last(), Box::new(base)), dims.drop_last()),
    decreases dims.len(),
{
    if dims.len() > 1 {
        lemma_llvm_array_of_last(base, dims.drop_first());
        assert(dims.drop_first().drop_last() =~= dims.drop_last().drop_first());
        assert(dims.drop_first().last() == dims.last());
        assert(dims.drop_last()[0] == dims[0]);
    } else {
        assert(dims.drop_first() =~= Seq::<usize>::empty());
        assert(dims.drop_last() =~= Seq::<usize>::empty());
        assert(llvm_array_of(base, dims.drop_first()) == base);
        let a = SLlvm::Array(dims.last(), Box::new(base));
        assert(llvm_array_of(a, dims.drop_last()) == a);
        assert(dims.last() == dims[0]);
    }
}

/// The type a declaration gives its variable.
pub open spec fn spec_decl_type(ty: SType, var: SVarDecl, env: Seq<(String, i32)>) -> Result<SLlvm, Seq<char>> {
    match spec_var_dims(var, env) {
        Err(e) => Err(e),
        Ok(d) => Ok(llvm_array_of(spec_type_to_llvm(ty), d)),
    }
}

/// The length of one dimension, with the local constants in front of the module's.
fn const_dim(len: &Exp, env: &Table<i32>) -> (r: Result<usize, String>)
    ensures
        match (r, spec_const_dim(len@, env.entries@)) {
            (Ok(v), Ok(w)) => v == w,
            (Err(e), Err(f)) => e@ == f,
            _ => false,
        },
{
    match eval_const_checked(len, env) {
        None => Err(String::from_str("Constant expression overflows")),
        Some(None) => Err(String::from_str("Array length must be a constant expression")),
        Some(Some(v)) => {
            if v < 0 {
                Err(String::from_str("Array length must be non-negative"))
            } else {
                Ok(v as usize)
            }
        }
    }
}

pub fn collect_var_dims(var: &VarDecl, env: &Table<i32>, dims: &mut Vec<usize>) -> (r: Result<(), String>)
    ensures
        match (r, spec_var_dims(var@, env.entries@)) {
            (Ok(_), Ok(d)) => final(dims)@ == old(dims)@ + d,
            (Err(e), Err(f)) => e@ == f,
            _ => false,
        },
    decreases var,
{
    match var {
        VarDecl::Ident(_) => {
            proof {
                assert(old(dims)@ + Seq::<usize>::empty() =~= old(dims)@);
            }
            Ok(())
        }
        VarDecl::Array(inner, len) => {
            match collect_var_dims(inner, env, dims) {
                Err(e) => return Err(e),
                Ok(()) => {}
            }
            let ghost mid = dims@;
            match const_dim(len, env) {
                Err(e) => Err(e),
                Ok(v) => {
                    dims.push(v);
                    proof {
                        let d = spec_var_dims((**inner)@, env.entries@)->Ok_0;
                        assert(dims@ =~= old(dims)@ + d.push(v));
                    }
                    Ok(())
                }
            }
        }
    }
}

/// Wraps `base` in arrays of the given dimensions.
fn apply_dims(base: LlvmType, dims: &Vec<usize>) -> (t: LlvmType)
    ensures
        t@ == llvm_array_of(base@, dims@),
{
    let mut ty = base;
    let mut i = dims.len();
    proof {
        assert(dims@.take(i as int) =~= dims@);
    }
    while i > 0
        invariant
            i <= dims@.len(),
            llvm_array_of(ty@, dims@.take(i as int)) == llvm_array_of(base@, dims@),
        decreases i,
    {
        proof {
            lemma_llvm_array_of_last(ty@, dims@.take(i as int));
            assert(dims@.take(i as int).drop_last() =~= dims@.take(i - 1));
        }
        ty = LlvmType::Array(dims[i - 1], Box::new(ty));
        i = i - 1;
    }
    proof {
        assert(dims@.take(0) =~= Seq::<usize>::empty());
    }
    ty
}

/// The type of a declared variable, evaluating dimensions with `constants`
/// first and then the module's constants.
pub fn decl_type_with_constants(ty: &Type, var: &VarDecl, module: &ModuleCtx, constants: &Table<i32>) -> (r: Result<LlvmType, String>)
    ensures
        match (r, spec_decl_type(ty@, var@, module.constants.entries@ + constants.entries@)) {
            (Ok(t), Ok(u)) => t@ == u,
            (Err(e), Err(f)) => e@ == f,
            _ => false,
        },
{
    let env = Table::layered(&module.constants, constants);
    let base = type_to_llvm(ty);
    let mut dims: Vec<usize> = Vec::new();
    match collect_var_dims(var, &env, &mut dims) {
        Err(e) => Err(e),
        Ok(()) => {
            proof {
                assert(Seq::<usize>::empty() + spec_var_dims(var@, env.entries@)->Ok_0 =~= dims@);
            }
            Ok(apply_dims(base, &dims))
        }
    }
}

/// The type of a declared variable with the module's constants.
pub fn decl_type(ty: &Type, var: &VarDecl, module: &ModuleCtx) -> (r: Result<LlvmType, String>)
    ensures
        match (r, spec_decl_type(ty@, var@, module.constants.entries@)) {
            (Ok(t), Ok(u)) => t@ == u,
            (Err(e), Err(f)) => e@ == f,
            _ => false,
        },
{
    let empty: Table<i32> = Table::new();
    proof {
        assert(module.constants.entries@ + empty.entries@ =~= module.constants.entries@);
    }
    decl_type_with_constants(ty, var, module, &empty)
}

pub open spec fn param_dim_message(v: Option<Option<i32>>) -> Seq<char> {
    match v {
        None => overflow_message(),
        Some(None) => "Array parameter dimensions must be constant expressions"@,
        Some(Some(_)) => "Array parameter dimensions must be non-negative"@,
    }
}

/// The dimensions of an array parameter, or the message of the first one that is not valid.
pub open spec fn spec_param_dims(dims: Seq<SExp>, env: Seq<(String, i32)>) -> Result<Seq<usize>, Seq<char>>
    decreases dims.len(),
{
    if dims.len() == 0 {
        Ok(Seq::empty())
    } else {
        match spec_param_dims(dims.drop_last(), env) {
            Err(e) => Err(e),
            Ok(d) => match const_eval(dims.last(), env) {
                Some(Some(v)) => if v >= 0 { Ok(d.push(v as usize)) } else { Err(param_dim_message(Some(Some(v)))) },
                other => Err(param_dim_message(other)),
            },
        }
    }
}

pub proof fn lemma_param_dims_err(s: Seq<SExp>, k: int, env: Seq<(String, i32)>)
    requires
        0 <= k <= s.len(),
        spec_param_dims(s.take(k), env) is Err,
    ensures
        spec_param_dims(s, env) == spec_param_dims(s.take(k), env),
    decreases s.len() - k,
{
    if k < s.len() {
        assert(s.drop_last().take(k) =~= s.take(k));
        lemma_param_dims_err(s.drop_last(), k, env);
    } else {
        assert(s.take(k) =~= s);
    }
}

/// The type of a function parameter, resolving array dimensions with the module's constants.
pub open spec fn spec_param_type(p: crate::lalr::SParam, env: Seq<(String, i32)>) -> Result<SBType, Seq<char>> {
    match p.array_dims {
        None => Ok(p.btype),
        Some(dims) => match spec_param_dims(dims, env) {
            Err(e) => Err(e),
            Ok(d) => Ok(SBType::Ptr(Box::new(crate::lalr::spec_array_of(p.btype, d)))),
        },
    }
}

pub fn param_resolved_btype(param: &FuncParam, module: &ModuleCtx) -> (r: Result<BType, String>)
    ensures
        match (r, spec_param_type(param@, module.constants.entries@)) {
            (Ok(t), Ok(u)) => t@ == u,
            (Err(e), Err(f)) => e@ == f,
            _ => false,
        },
{
    match &param.array_dims {
        None => Ok(param.btype.copy()),
        Some(dims) => {
            let ghost dv = exps_view(dims@);
            let mut resolved: Vec<usize> = Vec::new();
            let mut i: usize = 0;
            while i < dims.len()
                invariant
                    i <= dims@.len(),
                    dv == exps_view(dims@),
                    spec_param_dims(dv.take(i as int), module.constants.entries@) == Ok::<Seq<usize>, Seq<char>>(resolved@),
                decreases dims.len() - i,
            {
                proof {
                    assert(dv.take(i + 1).drop_last() =~= dv.take(i as int));
                    assert(dv.take(i + 1).last() == dims@[i as int]@);
                }
                match eval_const_checked(&dims[i], &module.constants) {
                    Some(Some(v)) => {
                        if v < 0 {
                            proof {
                                lemma_param_dims_err(dv, i + 1, module.constants.entries@);
                            }
                            return Err(String::from_str("Array parameter dimensions must be non-negative"));
                        }
                        resolved.push(v as usize);
                    }
                    Some(None) => {
                        proof {
                            lemma_param_dims_err(dv, i + 1, module.constants.entries@);
                        }
                        return Err(String::from_str("Array parameter dimensions must be constant expressions"));
                    }
                    None => {
                        proof {
                            lemma_param_dims_err(dv, i + 1, module.constants.entries@);
                        }
                        return Err(String::from_str("Constant expression overflows"));
                    }
                }
                i = i + 1;
            }
            proof {
                assert(dv.take(dims@.len() as int) =~= dv);
            }
            let t = func_param_btype(param.btype.copy(), resolved);
            proof {
                crate::lalr::lemma_array_of_view(param.btype, resolved@);
            }
            Ok(t)
        }
    }
}

/// The value of a scalar constant initializer.
pub open spec fn spec_init_const(init: crate::lalr::SInit, env: Seq<(String, i32)>) -> Option<Option<i32>> {
    match spec_init_exp(init) {
        Some(e) => const_eval(e, env),
        None => Some(None),
    }
}

pub fn init_const(init: &InitVal, module: &ModuleCtx) -> (r: Option<Option<i32>>)
    ensures
        r == spec_init_const(init@, module.constants.entries@),
{
    match init_exp(init) {
        Some(exp) => eval_const_checked(exp, &module.constants),
        None => Some(None),
    }
}

} // verus!

verus! {

// ---------------------------------------------------------------------------
// Struct layouts

/// The fields that the declarations of one struct member introduce, in order.
pub open spec fn spec_decl_fields(ty: SType, decls: Seq<SDecl>, env: Seq<(String, i32)>) -> Result<Seq<(Seq<char>, SLlvm)>, Seq<char>>
    decreases decls.len(),
{
    if decls.len() == 0 {
        Ok(Seq::empty())
    } else {
        match spec_decl_fields(ty, decls.drop_last(), env) {
            Err(e) => Err(e),
            Ok(fs) => match spec_decl_type(ty, decls.last().var, env) {
                Err(e) => Err(e),
                Ok(t) => Ok(fs.push((spec_var_decl_name(decls.last().var), t))),
            },
        }
    }
}

/// The fields of a struct, in order.
pub open spec fn spec_struct_fields(fields: Seq<SField>, env: Seq<(String, i32)>) -> Result<Seq<(Seq<char>, SLlvm)>, Seq<char>>
    decreases fields.len(),
{
    if fields.len() == 0 {
        Ok(Seq::empty())
    } else {
        match spec_struct_fields(fields.drop_last(), env) {
            Err(e) => Err(e),
            Ok(fs) => match spec_decl_fields(fields.last().ty, fields.last().decls, env) {
                Err(e) => Err(e),
                Ok(g) => Ok(fs + g),
            },
        }
    }
}

/// The end offset and the alignment of a sequence of fields laid out one after
/// another, each at the next offset that its alignment allows.
pub open spec fn fold_layout(fields: Seq<(Seq<char>, SLlvm)>, layouts: Seq<(String, StructLayout)>) -> Result<(nat, nat), Seq<char>>
    decreases fields.len(),
{
    if fields.len() == 0 {
        Ok((0, 1))
    } else {
        match fold_layout(fields.drop_last(), layouts) {
            Err(e) => Err(e),
            Ok((off, al)) => match spec_try_align(fields.last().1, layouts) {
                Err(e) => Err(e),
                Ok(fa) => match spec_try_size(fields.last().1, layouts) {
                    Err(e) => Err(e),
                    Ok(fs) => if off + fa > usize::MAX {
                        Err(size_overflow_message())
                    } else if spec_align_up(off, fa) + fs > usize::MAX {
                        Err(size_overflow_message())
                    } else {
                        Ok((spec_align_up(off, fa) + fs, if fa > al { fa } else { al }))
                    },
                },
            },
        }
    }
}

/// The layout `l` is the one the declaration of struct `name` calls for.
pub open spec fn layout_sound(name: Seq<char>, l: StructLayout, structs: Seq<(String, StructDef)>, env: Seq<(String, i32)>, layouts: Seq<(String, StructLayout)>) -> bool {
    match assoc(structs, name) {
        None => false,
        Some(def) => match spec_struct_fields(def@.fields, env) {
            Err(_) => false,
            Ok(fs) => {
                &&& l.fields@.len() == fs.len()
                &&& forall|i: int| 0 <= i < fs.len() ==> {
                    &&& #[trigger] l.fields@[i].name@ == fs[i].0
                    &&& l.fields@[i].ty@ == fs[i].1
                    &&& l.fields@[i].index == i
                }
                &&& match fold_layout(fs, layouts) {
                    Err(_) => false,
                    Ok((off, al)) => l.align == al && l.size == spec_align_up(off, al),
                }
            },
        },
    }
}

/// Every binding of `l2` that `l1` has is kept.
pub open spec fn extends<V>(l1: Seq<(String, V)>, l2: Seq<(String, V)>) -> bool {
    forall|k: Seq<char>| (#[trigger] assoc(l1, k)) is Some ==> assoc(l2, k) == assoc(l1, k)
}

proof fn lemma_size_frame(t: SLlvm, l1: Seq<(String, StructLayout)>, l2: Seq<(String, StructLayout)>)
    requires
        extends(l1, l2),
    ensures
        spec_try_size(t, l1) is Ok ==> spec_try_size(t, l2) == spec_try_size(t, l1),
        spec_try_align(t, l1) is Ok ==> spec_try_align(t, l2) == spec_try_align(t, l1),
    decreases t,
{
    match t {
        SLlvm::Array(_, inner) => lemma_size_frame(*inner, l1, l2),
        SLlvm::Struct(n) => {
            if assoc(l1, n) is Some {
                assert(assoc(l2, n) == assoc(l1, n));
            }
        }
        _ => {}
    }
}

proof fn lemma_fold_frame(fs: Seq<(Seq<char>, SLlvm)>, l1: Seq<(String, StructLayout)>, l2: Seq<(String, StructLayout)>)
    requires
        extends(l1, l2),
        fold_layout(fs, l1) is Ok,
    ensures
        fold_layout(fs, l2) == fold_layout(fs, l1),
    decreases fs.len(),
{
    if fs.len() > 0 {
        lemma_fold_frame(fs.drop_last(), l1, l2);
        lemma_size_frame(fs.last().1, l1, l2);
    }
}

proof fn lemma_extends_trans<V>(l1: Seq<(String, V)>, l2: Seq<(String, V)>, l3: Seq<(String, V)>)
    requires
        extends(l1, l2),
        extends(l2, l3),
    ensures
        extends(l1, l3),
{
    assert forall|k: Seq<char>| (#[trigger] assoc(l1, k)) is Some implies assoc(l3, k) == assoc(l1, k) by {
        assert(assoc(l2, k) == assoc(l1, k));
    }
}

/// The views of a list of names.
pub open spec fn names_view(v: Seq<String>) -> Seq<Seq<char>> {
    Seq::new(v.len(), |i: int| v[i]@)
}

/// The innermost element type of (possibly nested) arrays.
pub open spec fn innermost(t: SLlvm) -> SLlvm
    decreases t,
{
    match t {
        SLlvm::Array(_, inner) => innermost(*inner),
        other => other,
    }
}

fn innermost_struct(ty: &LlvmType) -> (r: Option<&String>)
    ensures
        match r {
            Some(n) => innermost(ty@) == SLlvm::Struct(n@),
            None => !(innermost(ty@) is Struct),
        },
    decreases ty,
{
    match ty {
        LlvmType::Array(_, inner) => innermost_struct(inner),
        LlvmType::Struct(name) => Some(name),
        _ => None,
    }
}

proof fn lemma_size_ok_innermost(t: SLlvm, l: Seq<(String, StructLayout)>)
    requires
        innermost(t) is Struct ==> assoc(l, innermost(t)->Struct_0) is Some,
    ensures
        spec_try_align(t, l) is Ok,
    decreases t,
{
    if let SLlvm::Array(_, inner) = t {
        lemma_size_ok_innermost(*inner, l);
    }
}

impl ModuleCtx {
    pub fn new() -> (m: ModuleCtx)
        ensures
            m.structs.entries@.len() == 0,
            m.layouts.entries@.len() == 0,
            m.funcs.entries@.len() == 0,
            m.globals.entries@.len() == 0,
            m.constants.entries@.len() == 0,
    {
        ModuleCtx {
            structs: Table::new(),
            layouts: Table::new(),
            funcs: Table::new(),
            globals: Table::new(),
            constants: Table::new(),
        }
    }

    /// Every layout in the table is the one its struct calls for.
    pub open spec fn layouts_sound(&self) -> bool {
        forall|i: int| 0 <= i < self.layouts.entries@.len() ==>
            layout_sound(#[trigger] self.layouts.entries@[i].0@, self.layouts.entries@[i].1, self.structs.entries@, self.constants.entries@, self.layouts.entries@)
    }

    /// Lays out struct `name` and, first, every struct it holds by value.
    #[verifier::loop_isolation(true)]
    #[verifier::spinoff_prover]
    #[verifier::rlimit(60)]
    fn ensure_struct_layout(&mut self, name: &String, visiting: &mut Vec<String>) -> (r: Result<(), String>)
        requires
            names_view(old(visiting)@).no_duplicates(),
            forall|i: int| 0 <= i < old(visiting)@.len() ==> keys_of(old(self).structs.entries@).contains(#[trigger] old(visiting)@[i]@),
            old(self).layouts_sound(),
        ensures
            final(self).structs == old(self).structs,
            final(self).constants == old(self).constants,
            extends(old(self).layouts.entries@, final(self).layouts.entries@),
            old(self).layouts.entries@.len() <= final(self).layouts.entries@.len(),
            final(self).layouts.entries@.take(old(self).layouts.entries@.len() as int) == old(self).layouts.entries@,
            final(self).layouts_sound(),
            r is Ok ==> {
                &&& final(visiting)@ == old(visiting)@
                &&& assoc(final(self).layouts.entries@, name@) is Some
            },
            forall|k: Seq<char>| names_view(old(visiting)@).contains(k) && #[trigger] assoc(old(self).layouts.entries@, k) is None
                ==> assoc(final(self).layouts.entries@, k) is None,
            r is Err ==> assoc(final(self).layouts.entries@, name@) is None,
            assoc(old(self).layouts.entries@, name@) is Some ==> r is Ok && *final(self) == *old(self) && final(visiting)@ == old(visiting)@,
            assoc(old(self).layouts.entries@, name@) is None && names_view(old(visiting)@).contains(name@) ==> {
                &&& r matches Err(e) && e@ == "Cyclic struct definition detected: "@ + name@
                &&& *final(self) == *old(self)
            },
            assoc(old(self).layouts.entries@, name@) is None && !names_view(old(visiting)@).contains(name@)
                && assoc(old(self).structs.entries@, name@) is None ==> {
                &&& r matches Err(e) && e@ == "Unknown struct type "@ + name@
                &&& *final(self) == *old(self)
            },
        decreases old(self).structs.entries@.len() - old(visiting)@.len(),
    {
        proof {
            lemma_distinct_names_bounded(names_view(visiting@), keys_of(self.structs.entries@));
            assert(self.layouts.entries@.take(self.layouts.entries@.len() as int) =~= self.layouts.entries@);
        }
        if self.layouts.contains_key(name.as_str()) {
            return Ok(());
        }
        let mut vi: usize = 0;
        while vi < visiting.len()
            invariant
                vi <= visiting@.len(),
                forall|j: int| 0 <= j < vi ==> visiting@[j]@ != name@,
                self.structs == old(self).structs,
                self.constants == old(self).constants,
                self.layouts == old(self).layouts,
                self.layouts_sound(),
                visiting@ == old(visiting)@,
                names_view(visiting@).no_duplicates(),
                forall|i: int| 0 <= i < visiting@.len() ==> keys_of(self.structs.entries@).contains(#[trigger] visiting@[i]@),
                assoc(self.layouts.entries@, name@) is None,
                self.layouts.entries@.take(self.layouts.entries@.len() as int) == self.layouts.entries@,
            decreases visiting.len() - vi,
        {
            if visiting[vi] == *name {
                proof {
                    assert(names_view(visiting@)[vi as int] == name@);
                }
                return Err(cat("Cyclic struct definition detected: ", name.as_str()));
            }
            vi = vi + 1;
        }
        proof {
            assert(!names_view(old(visiting)@).contains(name@)) by {
                if names_view(old(visiting)@).contains(name@) {
                    let j = choose|j: int| 0 <= j < names_view(old(visiting)@).len() && names_view(old(visiting)@)[j] == name@;
                    assert(visiting@[j]@ != name@);
                }
            }
        }
        let def = match self.structs.get(name.as_str()) {
            Some(d) => d.copy(),
            None => {
                return Err(cat("Unknown struct type ", name.as_str()));
            }
        };
        let ghost old_visiting = visiting@;
        let ghost l0 = self.layouts.entries@;
        let ghost env = self.constants.entries@;
        let ghost old_self_layouts = old(self).layouts.entries@;
        visiting.push(name.clone());
        proof {
            lemma_assoc_some(self.structs.entries@, name@);
            let w = choose|j: int| 0 <= j < self.structs.entries@.len() && self.structs.entries@[j].0@ == name@;
            assert(keys_of(self.structs.entries@)[w] == name@);
            assert(names_view(visiting@) =~= names_view(old_visiting).push(name@));
            assert forall|i: int, j: int| 0 <= i < j < names_view(visiting@).len() implies names_view(visiting@)[i] != names_view(visiting@)[j] by {
                if j == names_view(visiting@).len() - 1 {
                    assert(names_view(visiting@)[i] == old_visiting[i]@);
                } else {
                    assert(names_view(visiting@)[i] == names_view(old_visiting)[i]);
                    assert(names_view(visiting@)[j] == names_view(old_visiting)[j]);
                }
            }
            assert forall|i: int| 0 <= i < visiting@.len() implies keys_of(self.structs.entries@).contains(#[trigger] visiting@[i]@) by {
                if i < old_visiting.len() {
                    assert(visiting@[i] == old_visiting[i]);
                }
            }
            lemma_distinct_names_bounded(names_view(visiting@), keys_of(self.structs.entries@));
        }
        let ghost defv = def@;
        let mut fields: Vec<FieldLayout> = Vec::new();
        let ghost mut fs: Seq<(Seq<char>, SLlvm)> = Seq::empty();
        let mut offset: usize = 0;
        let mut align: usize = 1;
        let mut fi: usize = 0;
        while fi < def.fields.len()
            invariant
                fi <= def.fields@.len(),
                defv == def@,
                self.structs == old(self).structs,
                self.constants == old(self).constants,
                env == self.constants.entries@,
                visiting@ == old_visiting.push(*name),
                names_view(visiting@).no_duplicates(),
                forall|i: int| 0 <= i < visiting@.len() ==> keys_of(self.structs.entries@).contains(#[trigger] visiting@[i]@),
                visiting@.len() <= self.structs.entries@.len(),
                extends(l0, self.layouts.entries@),
                l0.len() <= self.layouts.entries@.len(),
                self.layouts.entries@.take(l0.len() as int) == l0,
                self.layouts_sound(),
                assoc(self.layouts.entries@, name@) is None,
                forall|k: Seq<char>| names_view(old_visiting).contains(k) && #[trigger] assoc(l0, k) is None
                    ==> assoc(self.layouts.entries@, k) is None,
                spec_struct_fields(defv.fields.take(fi as int), env) == Ok::<Seq<(Seq<char>, SLlvm)>, Seq<char>>(fs),
                fields@.len() == fs.len(),
                forall|i: int| 0 <= i < fs.len() ==> {
                    &&& #[trigger] fields@[i].name@ == fs[i].0
                    &&& fields@[i].ty@ == fs[i].1
                    &&& fields@[i].index == i
                },
                fold_layout(fs, self.layouts.entries@) == Ok::<(nat, nat), Seq<char>>((offset as nat, align as nat)),
                old_self_layouts == old(self).layouts.entries@,
                l0 == old(self).layouts.entries@,
                old(visiting)@ == old_visiting,
                !names_view(old_visiting).contains(name@),
                assoc(old(self).structs.entries@, name@) is Some,
            decreases def.fields.len() - fi,
        {
            let field = &def.fields[fi];
            let ghost fs_before_field = fs;
            let mut di: usize = 0;
            proof {
                assert(field.decls@.take(0) =~= Seq::<crate::lalr::SingleDecl>::empty());
                assert(decls_view(field.decls@).take(0) =~= Seq::<SDecl>::empty());
                assert(fs_before_field + Seq::<(Seq<char>, SLlvm)>::empty() =~= fs);
            }
            while di < field.decls.len()
                invariant
                    fi < def.fields@.len(),
                    *field == def.fields@[fi as int],
                    di <= field.decls@.len(),
                    defv == def@,
                    self.structs == old(self).structs,
                    self.constants == old(self).constants,
                    env == self.constants.entries@,
                    visiting@ == old_visiting.push(*name),
                    names_view(visiting@).no_duplicates(),
                    forall|i: int| 0 <= i < visiting@.len() ==> keys_of(self.structs.entries@).contains(#[trigger] visiting@[i]@),
                    visiting@.len() <= self.structs.entries@.len(),
                    extends(l0, self.layouts.entries@),
                    l0.len() <= self.layouts.entries@.len(),
                    self.layouts.entries@.take(l0.len() as int) == l0,
                    self.layouts_sound(),
                    assoc(self.layouts.entries@, name@) is None,
                    forall|k: Seq<char>| names_view(old_visiting).contains(k) && #[trigger] assoc(l0, k) is None
                        ==> assoc(self.layouts.entries@, k) is None,
                    spec_struct_fields(defv.fields.take(fi as int), env) == Ok::<Seq<(Seq<char>, SLlvm)>, Seq<char>>(fs_before_field),
                    spec_decl_fields(field.ty@, decls_view(field.decls@).take(di as int), env) is Ok,
                    fs == fs_before_field + spec_decl_fields(field.ty@, decls_view(field.decls@).take(di as int), env)->Ok_0,
                    fields@.len() == fs.len(),
                    forall|i: int| 0 <= i < fs.len() ==> {
                        &&& #[trigger] fields@[i].name@ == fs[i].0
                        &&& fields@[i].ty@ == fs[i].1
                        &&& fields@[i].index == i
                    },
                    fold_layout(fs, self.layouts.entries@) == Ok::<(nat, nat), Seq<char>>((offset as nat, align as nat)),
                    old_self_layouts == old(self).layouts.entries@,
                    l0 == old(self).layouts.entries@,
                    old(visiting)@ == old_visiting,
                    !names_view(old_visiting).contains(name@),
                    assoc(old(self).structs.entries@, name@) is Some,
                decreases field.decls.len() - di,
            {
                let decl = &field.decls[di];
                let ty = match decl_type(&field.ty, &decl.var, self) {
                    Ok(t) => t,
                    Err(e) => {
                        return Err(e);
                    }
                };
                let ghost lb = self.layouts.entries@;
                let ghost vb = visiting@;
                match innermost_struct(&ty) {
                    Some(inner) => {
                        match self.ensure_struct_layout(inner, visiting) {
                            Ok(()) => {}
                            Err(e) => {
                                proof {
                                    assert(names_view(vb).contains(name@)) by {
                                        assert(names_view(vb)[vb.len() - 1] == name@);
                                    }
                                    assert forall|k: Seq<char>| names_view(old_visiting).contains(k) && #[trigger] assoc(l0, k) is None
                                        implies assoc(self.layouts.entries@, k) is None by {
                                        assert(assoc(lb, k) is None);
                                        assert(names_view(vb).contains(k)) by {
                                            let j = choose|j: int| 0 <= j < names_view(old_visiting).len() && names_view(old_visiting)[j] == k;
                                            assert(names_view(vb)[j] == k);
                                        }
                                    }
                                }
                                return Err(e);
                            }
                        }
                    }
                    None => {}
                }
                proof {
                    lemma_extends_trans(l0, lb, self.layouts.entries@);
                    lemma_fold_frame(fs, lb, self.layouts.entries@);
                    assert(self.layouts.entries@.take(l0.len() as int) =~= l0) by {
                        assert(self.layouts.entries@.take(lb.len() as int) == lb);
                        assert(lb.take(l0.len() as int) == l0);
                    }
                    assert forall|k: Seq<char>| names_view(old_visiting).contains(k) && #[trigger] assoc(l0, k) is None
                        implies assoc(self.layouts.entries@, k) is None by {
                        assert(assoc(lb, k) is None);
                        assert(names_view(visiting@).contains(k)) by {
                            let j = choose|j: int| 0 <= j < names_view(old_visiting).len() && names_view(old_visiting)[j] == k;
                            assert(names_view(visiting@)[j] == k);
                        }
                    }
                    assert(names_view(visiting@).contains(name@)) by {
                        assert(names_view(visiting@)[visiting@.len() - 1] == name@);
                    }
                    lemma_size_ok_innermost(ty@, self.layouts.entries@);
                }
                let field_align = match ty.try_align(&self.layouts) {
                    Ok(a) => a,
                    Err(e) => {
                        return Err(e);
                    }
                };
                let field_size = match ty.try_size(&self.layouts) {
                    Ok(s) => s,
                    Err(e) => {
                        return Err(e);
                    }
                };
                if field_align > align {
                    align = field_align;
                }
                if offset > usize::MAX - field_align {
                    return Err(String::from_str("Type size overflows"));
                }
                offset = align_up(offset, field_align);
                if offset > usize::MAX - field_size {
                    return Err(String::from_str("Type size overflows"));
                }
                let index = fields.len();
                let fname = var_decl_name(&decl.var);
                fields.push(FieldLayout { name: fname, ty, index });
                offset = offset + field_size;
                proof {
                    let dv = decls_view(field.decls@);
                    assert(dv.take(di + 1).drop_last() =~= dv.take(di as int));
                    assert(dv.take(di + 1).last() == decl@);
                    let prev = spec_decl_fields(field.ty@, dv.take(di as int), env)->Ok_0;
                    let entry = (spec_var_decl_name(decl.var@), ty@);
                    assert(fs_before_field + prev.push(entry) =~= (fs_before_field + prev).push(entry));
                    let nfs = fs.push(entry);
                    assert(nfs.drop_last() =~= fs);
                    fs = nfs;
                }
                di = di + 1;
            }
            proof {
                let dv = decls_view(field.decls@);
                assert(dv.take(di as int) =~= dv);
                assert(defv.fields.take(fi + 1).drop_last() =~= defv.fields.take(fi as int));
                assert(defv.fields.take(fi + 1).last() == field@);
            }
            fi = fi + 1;
        }
        if offset > usize::MAX - align {
            return Err(String::from_str("Type size overflows"));
        }
        let size = align_up(offset, align);
        let _ = visiting.pop();
        let layout = StructLayout { fields, size, align };
        let ghost lpre = self.layouts.entries@;
        self.layouts.insert(name.clone(), layout);
        proof {
            assert(defv.fields.take(def.fields@.len() as int) =~= defv.fields);
            assert(visiting@ =~= old_visiting);
            let l2 = self.layouts.entries@;
            assert(l2.take(lpre.len() as int) =~= lpre);
            assert(extends(lpre, l2)) by {
                assert forall|k: Seq<char>| (#[trigger] assoc(lpre, k)) is Some implies assoc(l2, k) == assoc(lpre, k) by {
                    if k == name@ {
                    } else {
                        assert(l2.drop_last() =~= lpre);
                    }
                }
            }
            let temp = ModuleCtx { structs: self.structs, layouts: Table { entries: self.layouts.entries }, funcs: self.funcs, globals: self.globals, constants: self.constants };
            lemma_extends_trans(l0, lpre, l2);
            assert(l2.take(l0.len() as int) =~= l0) by {
                assert(lpre.take(l0.len() as int) == l0);
            }
            assert forall|i: int| 0 <= i < l2.len() implies
                layout_sound(#[trigger] l2[i].0@, l2[i].1, self.structs.entries@, self.constants.entries@, l2) by {
                if i < lpre.len() {
                    assert(l2[i] == lpre[i]);
                    assert(layout_sound(lpre[i].0@, lpre[i].1, self.structs.entries@, self.constants.entries@, lpre));
                    let d = assoc(self.structs.entries@, lpre[i].0@)->Some_0;
                    let f2 = spec_struct_fields(d@.fields, self.constants.entries@)->Ok_0;
                    lemma_fold_frame(f2, lpre, l2);
                } else {
                    lemma_fold_frame(fs, lpre, l2);
                }
            }
            assert forall|k: Seq<char>| names_view(old_visiting).contains(k) && #[trigger] assoc(l0, k) is None
                implies assoc(l2, k) is None by {
                if k == name@ {
                    let j = choose|j: int| 0 <= j < names_view(old_visiting).len() && names_view(old_visiting)[j] == k;
                    assert(names_view(visiting@.push(*name))[j] == k);
                    assert(names_view(old_visiting.push(*name))[old_visiting.len() as int] == name@);
                    assert(false);
                } else {
                    assert(l2.drop_last() =~= lpre);
                }
            }
        }
        Ok(())
    }

    /// Computes the layout of every struct of the module.
    pub fn resolve_struct_layouts(&mut self) -> (r: Result<(), String>)
        requires
            old(self).layouts_sound(),
        ensures
            final(self).structs == old(self).structs,
            final(self).constants == old(self).constants,
            final(self).layouts_sound(),
            extends(old(self).layouts.entries@, final(self).layouts.entries@),
            r is Ok <==> forall|i: int| 0 <= i < final(self).structs.entries@.len() ==>
                (#[trigger] assoc(final(self).layouts.entries@, final(self).structs.entries@[i].0@)) is Some,
            (forall|i: int| 0 <= i < old(self).structs.entries@.len() ==>
                (#[trigger] assoc(old(self).layouts.entries@, old(self).structs.entries@[i].0@)) is Some)
                ==> r is Ok && *final(self) == *old(self),
    {
        let n = self.structs.entries.len();
        let mut i: usize = 0;
        let ghost l0 = self.layouts.entries@;
        proof {
            assert forall|k: Seq<char>| (#[trigger] assoc(l0, k)) is Some implies assoc(self.layouts.entries@, k) == assoc(l0, k) by {}
        }
        while i < n
            invariant
                n == self.structs.entries@.len(),
                i <= n,
                self.structs == old(self).structs,
                self.constants == old(self).constants,
                self.layouts_sound(),
                l0 == old(self).layouts.entries@,
                extends(l0, self.layouts.entries@),
                forall|j: int| 0 <= j < i ==> (#[trigger] assoc(self.layouts.entries@, self.structs.entries@[j].0@)) is Some,
                (forall|j: int| 0 <= j < old(self).structs.entries@.len() ==>
                    (#[trigger] assoc(old(self).layouts.entries@, old(self).structs.entries@[j].0@)) is Some) ==> *self == *old(self),
            decreases n - i,
        {
            let name = self.structs.entries[i].0.clone();
            proof {
                if forall|j: int| 0 <= j < old(self).structs.entries@.len() ==>
                    (#[trigger] assoc(old(self).layouts.entries@, old(self).structs.entries@[j].0@)) is Some {
                    assert(assoc(old(self).layouts.entries@, old(self).structs.entries@[i as int].0@) is Some);
                }
            }
            let mut visiting: Vec<String> = Vec::new();
            let ghost lb = self.layouts.entries@;
            proof {
                assert(names_view(visiting@) =~= Seq::<Seq<char>>::empty());
            }
            match self.ensure_struct_layout(&name, &mut visiting) {
                Ok(()) => {}
                Err(e) => {
                    proof {
                        lemma_extends_trans(l0, lb, self.layouts.entries@);
                        assert(self.structs.entries@[i as int].0@ == name@);
                        assert(assoc(self.layouts.entries@, self.structs.entries@[i as int].0@) is None);
                    }
                    return Err(e);
                }
            }
            proof {
                lemma_extends_trans(l0, lb, self.layouts.entries@);
                assert forall|j: int| 0 <= j < i + 1 implies (#[trigger] assoc(self.layouts.entries@, self.structs.entries@[j].0@)) is Some by {
                    if j < i {
                        assert(assoc(lb, self.structs.entries@[j].0@) is Some);
                    }
                }
            }
            i = i + 1;
        }
        Ok(())
    }

    /// The layout of field `field_name` of struct `struct_name`.
    pub fn field(&self, struct_name: &str, field_name: &str) -> (r: Result<&FieldLayout, String>)
        ensures
            match r {
                Ok(f) => field_layout_of(self.layouts.entries@, struct_name@, field_name@) == Some(*f),
                Err(_) => field_layout_of(self.layouts.entries@, struct_name@, field_name@) is None,
            },
            match r {
                Ok(f) => exists|l: StructLayout| assoc(self.layouts.entries@, struct_name@) == Some(l)
                    && exists|i: int| 0 <= i < l.fields@.len() && l.fields@[i] == *f && f.name@ == field_name@,
                Err(e) => match assoc(self.layouts.entries@, struct_name@) {
                    None => e@ == "Unknown struct type "@ + struct_name@,
                    Some(l) => (forall|i: int| 0 <= i < l.fields@.len() ==> #[trigger] l.fields@[i].name@ != field_name@)
                        && e@ == "Struct "@ + struct_name@ + " has no field "@ + field_name@,
                },
            },
    {
        let layout = match self.layouts.get(struct_name) {
            Some(l) => l,
            None => {
                return Err(cat("Unknown struct type ", struct_name));
            }
        };
        let mut i: usize = 0;
        while i < layout.fields.len()
            invariant
                i <= layout.fields@.len(),
                forall|j: int| 0 <= j < i ==> #[trigger] layout.fields@[j].name@ != field_name@,
            decreases layout.fields.len() - i,
        {
            if crate::table::str_eq(layout.fields[i].name.as_str(), field_name) {
                proof {
                    lemma_first_named_at(layout.fields@, field_name@, i as int);
                }
                return Ok(&layout.fields[i]);
            }
            i = i + 1;
        }
        proof {
            lemma_first_named_none(layout.fields@, field_name@);
        }
        let a = cat("Struct ", struct_name);
        let b = cat(a.as_str(), " has no field ");
        Err(cat(b.as_str(), field_name))
    }
}

} // verus!

verus! {

// ---------------------------------------------------------------------------
// Global constants and the symbols of a module

/// The `const int` declarations of a program with a scalar initializer, as
/// (name, initializer expression) pairs in program order.
pub open spec fn decl_const_candidates(decls: Seq<SDecl>) -> Seq<(Seq<char>, SExp)>
    decreases decls.len(),
{
    if decls.len() == 0 {
        Seq::empty()
    } else {
        let rest = decl_const_candidates(decls.drop_last());
        let d = decls.last();
        match (d.var, d.init) {
            (SVarDecl::Ident(n), Some(init)) => match spec_init_exp(init) {
                Some(e) => rest.push((n, e)),
                None => rest,
            },
            _ => rest,
        }
    }
}

pub open spec fn const_candidates(prog: Seq<crate::lalr::SGlobal>) -> Seq<(Seq<char>, SExp)>
    decreases prog.len(),
{
    if prog.len() == 0 {
        Seq::empty()
    } else {
        let rest = const_candidates(prog.drop_last());
        match prog.last() {
            crate::lalr::SGlobal::GlobalDecl(SType::Const(SBType::I32), ds) => rest + decl_const_candidates(ds),
            _ => rest,
        }
    }
}

/// Every binding of `c` is the value of a candidate of that name, evaluated
/// with the bindings made before it.
pub open spec fn constants_justified(c: Seq<(String, i32)>, cands: Seq<(Seq<char>, SExp)>) -> bool {
    forall|i: int| 0 <= i < c.len() ==> #[trigger] justified_at(c, cands, i)
}

/// Binding `i` of `c` is the value of a candidate of its name, evaluated with
/// the bindings before it.
pub open spec fn justified_at(c: Seq<(String, i32)>, cands: Seq<(Seq<char>, SExp)>, i: int) -> bool {
    exists|j: int| 0 <= j < cands.len()
        && #[trigger] cands[j].0 == c[i].0@
        && const_eval(cands[j].1, c.take(i)) == Some(Some(c[i].1))
}

/// No candidate that `c` leaves unbound evaluates to a constant under `c`.
pub open spec fn constants_closed(c: Seq<(String, i32)>, cands: Seq<(Seq<char>, SExp)>, upto: int) -> bool {
    forall|j: int| 0 <= j < upto ==> {
        let (n, e) = #[trigger] cands[j];
        binds(c, n) || !(const_eval(e, c) matches Some(Some(_)))
    }
}

/// Whether `c` binds `name`.
pub open spec fn binds(c: Seq<(String, i32)>, name: Seq<char>) -> bool {
    assoc(c, name) is Some
}

/// The views of (name, expression) pairs.
pub open spec fn pairs_view(p: Seq<(String, Exp)>) -> Seq<(Seq<char>, SExp)> {
    Seq::new(p.len(), |i: int| (p[i].0@, p[i].1@))
}

fn decl_candidates(decls: &Vec<crate::lalr::SingleDecl>, pending: &mut Vec<(String, Exp)>)
    ensures
        pairs_view(final(pending)@) == pairs_view(old(pending)@) + decl_const_candidates(decls_view(decls@)),
{
    let ghost dv = decls_view(decls@);
    let ghost base = pairs_view(old(pending)@);
    let mut i: usize = 0;
    proof {
        assert(dv.take(0) =~= Seq::<SDecl>::empty());
        assert(base + Seq::<(Seq<char>, SExp)>::empty() =~= base);
    }
    while i < decls.len()
        invariant
            i <= decls@.len(),
            dv == decls_view(decls@),
            pairs_view(pending@) == base + decl_const_candidates(dv.take(i as int)),
        decreases decls.len() - i,
    {
        proof {
            assert(dv.take(i + 1).drop_last() =~= dv.take(i as int));
            assert(dv.take(i + 1).last() == decls@[i as int]@);
        }
        let decl = &decls[i];
        let ghost oldc = decl_const_candidates(dv.take(i as int));
        let ghost before = pending@;
        match (&decl.var, &decl.init) {
            (VarDecl::Ident(name), Some(init)) => {
                match init_exp(init) {
                    Some(exp) => {
                        let ghost ev = exp@;
                        pending.push((name.clone(), exp.copy()));
                        proof {
                            assert(decl_const_candidates(dv.take(i + 1)) == oldc.push((name@, ev)));
                            assert(pairs_view(pending@) =~= pairs_view(before).push((name@, ev)));
                            assert(base + oldc.push((name@, ev)) =~= (base + oldc).push((name@, ev)));
                        }
                    }
                    None => {
                        proof {
                            assert(decl_const_candidates(dv.take(i + 1)) == oldc);
                        }
                    }
                }
            }
            _ => {
                proof {
                    assert(decl_const_candidates(dv.take(i + 1)) == oldc);
                }
            }
        }
        i = i + 1;
    }
    proof {
        assert(dv.take(decls@.len() as int) =~= dv);
    }
}

/// The constant values of the program's global `const int` declarations:
/// candidates are evaluated again and again until no further one resolves, so
/// a constant may refer to one declared after it.
pub fn precollect_global_constants(ast: &CompUnit) -> (constants: Table<i32>)
    ensures
        constants_closed(constants.entries@, const_candidates(ast@), const_candidates(ast@).len() as int),
        constants_justified(constants.entries@, const_candidates(ast@)),
{
    let mut pending: Vec<(String, Exp)> = Vec::new();
    let ghost prog = ast@;
    proof {
        assert(prog.take(0) =~= Seq::<crate::lalr::SGlobal>::empty());
        assert(pairs_view(pending@) =~= Seq::<(Seq<char>, SExp)>::empty());
    }
    let mut g: usize = 0;
    while g < ast.global_defs.len()
        invariant
            g <= ast.global_defs@.len(),
            prog == ast@,
            pairs_view(pending@) == const_candidates(prog.take(g as int)),
        decreases ast.global_defs.len() - g,
    {
        proof {
            assert(prog.take(g + 1).drop_last() =~= prog.take(g as int));
            assert(prog.take(g + 1).last() == ast.global_defs@[g as int]@);
        }
        let ghost before = pending@;
        match &ast.global_defs[g] {
            GlobalDef::GlobalDecl(Type::Const(BType::I32), decls) => {
                decl_candidates(decls, &mut pending);
            }
            _ => {}
        }
        g = g + 1;
    }
    proof {
        assert(prog.take(ast.global_defs@.len() as int) =~= prog);
    }
    let ghost cands = const_candidates(prog);
    let mut constants: Table<i32> = Table::new();
    let mut changed = true;
    while changed
        invariant
            pairs_view(pending@) == cands,
            cands == const_candidates(ast@),
            names_view(Seq::new(constants.entries@.len(), |k: int| constants.entries@[k].0)).no_duplicates(),
            constants_justified(constants.entries@, cands),
            !changed ==> constants_closed(constants.entries@, cands, cands.len() as int),
            constants.entries@.len() <= cands.len(),
        decreases cands.len() + 1 - constants.entries@.len() - (if changed { 0int } else { 1int }),
    {
        changed = false;
        let ghost start_len = constants.entries@.len();
        let mut p: usize = 0;
        while p < pending.len()
            invariant
                p <= pending@.len(),
                pairs_view(pending@) == cands,
                cands == const_candidates(ast@),
                names_view(Seq::new(constants.entries@.len(), |k: int| constants.entries@[k].0)).no_duplicates(),
                constants_justified(constants.entries@, cands),
                !changed ==> constants.entries@.len() == start_len,
                changed ==> constants.entries@.len() > start_len,
                constants.entries@.len() >= start_len,
                !changed ==> constants_closed(constants.entries@, cands, p as int),
            decreases pending.len() - p,
        {
            if !constants.contains_key(pending[p].0.as_str()) {
                match eval_const_checked(&pending[p].1, &constants) {
                    Some(Some(value)) => {
                        let ghost before = constants.entries@;
                        proof {
                            assert(constants_justified(before, cands));
                            assert(pairs_view(pending@)[p as int] == cands[p as int]);
                        }
                        constants.insert(pending[p].0.clone(), value);
                        proof {
                            let cv = Seq::new(constants.entries@.len(), |k: int| constants.entries@[k].0);
                            let bv = Seq::new(before.len(), |k: int| before[k].0);
                            assert(names_view(cv) =~= names_view(bv).push(cands[p as int].0));
                            lemma_assoc_some(before, cands[p as int].0);
                            assert forall|a: int, b: int| 0 <= a < b < names_view(cv).len() implies names_view(cv)[a] != names_view(cv)[b] by {
                                if b == names_view(cv).len() - 1 {
                                    assert(names_view(cv)[a] == before[a].0@);
                                } else {
                                    assert(names_view(cv)[a] == names_view(bv)[a]);
                                    assert(names_view(cv)[b] == names_view(bv)[b]);
                                }
                            }
                            assert forall|i: int| 0 <= i < constants.entries@.len() implies
                                #[trigger] justified_at(constants.entries@, cands, i) by {
                                if i < before.len() {
                                    assert(constants.entries@.take(i) =~= before.take(i));
                                    assert(constants.entries@[i] == before[i]);
                                    assert(justified_at(before, cands, i));
                                    let j = choose|j: int| 0 <= j < cands.len()
                                        && #[trigger] cands[j].0 == before[i].0@
                                        && const_eval(cands[j].1, before.take(i)) == Some(Some(before[i].1));
                                    assert(cands[j].0 == constants.entries@[i].0@);
                                } else {
                                    assert(constants.entries@.take(i) =~= before);
                                    assert(cands[p as int].0 == constants.entries@[i].0@);
                                }
                            }
                            assert(constants_justified(constants.entries@, cands));
                        }
                        changed = true;
                    }
                    _ => {}
                }
            }
            p = p + 1;
        }
        proof {
            let cv = Seq::new(constants.entries@.len(), |k: int| constants.entries@[k].0);
            let keys = Seq::new(cands.len(), |k: int| cands[k].0);
            assert forall|i: int| 0 <= i < names_view(cv).len() implies keys.contains(#[trigger] names_view(cv)[i]) by {
                assert(justified_at(constants.entries@, cands, i));
                let j = choose|j: int| 0 <= j < cands.len()
                    && #[trigger] cands[j].0 == constants.entries@[i].0@
                    && const_eval(cands[j].1, constants.entries@.take(i)) == Some(Some(constants.entries@[i].1));
                assert(keys[j] == names_view(cv)[i]);
            }
            lemma_distinct_names_bounded(names_view(cv), keys);
        }
    }
    constants
}

} // verus!

verus! {

/// The view of a function signature.
pub struct SFuncSig {
    pub ret: SLlvm,
    pub is_async: bool,
    pub params: Seq<SLlvm>,
}

pub open spec fn sig_view(s: FuncSig) -> SFuncSig {
    SFuncSig { ret: s.ret@, is_async: s.is_async, params: Seq::new(s.params@.len(), |i: int| s.params@[i]@) }
}

pub open spec fn funcs_view(t: Seq<(String, FuncSig)>) -> Seq<(Seq<char>, SFuncSig)> {
    Seq::new(t.len(), |i: int| (t[i].0@, sig_view(t[i].1)))
}

pub open spec fn ptr_i32() -> SLlvm {
    SLlvm::Ptr(Box::new(SLlvm::I32))
}

pub open spec fn plain_sig(ret: SLlvm, params: Seq<SLlvm>) -> SFuncSig {
    SFuncSig { ret, is_async: false, params }
}

/// The functions of the SysY runtime library.
pub open spec fn runtime_funcs() -> Seq<(Seq<char>, SFuncSig)> {
    seq![
        ("getint"@, plain_sig(SLlvm::I32, seq![])),
        ("getch"@, plain_sig(SLlvm::I32, seq![])),
        ("getarray"@, plain_sig(SLlvm::I32, seq![ptr_i32()])),
        ("putint"@, plain_sig(SLlvm::Void, seq![SLlvm::I32])),
        ("putch"@, plain_sig(SLlvm::I32, seq![SLlvm::I32])),
        ("putarray"@, plain_sig(SLlvm::Void, seq![SLlvm::I32, ptr_i32()])),
        ("starttime"@, plain_sig(SLlvm::Void, seq![])),
        ("stoptime"@, plain_sig(SLlvm::Void, seq![])),
    ]
}

fn runtime_sig(ret: LlvmType, params: Vec<LlvmType>) -> (s: FuncSig)
    ensures
        s.ret == ret,
        s.params == params,
        !s.is_async,
{
    FuncSig { ret, is_async: false, params }
}

impl ModuleCtx {
    /// Declares the functions of the runtime library.
    pub fn insert_runtime_funcs(&mut self)
        ensures
            funcs_view(final(self).funcs.entries@) == funcs_view(old(self).funcs.entries@) + runtime_funcs(),
            final(self).structs == old(self).structs,
            final(self).layouts == old(self).layouts,
            final(self).globals == old(self).globals,
            final(self).constants == old(self).constants,
    {
        let ghost start = funcs_view(self.funcs.entries@);
        let mut v0: Vec<LlvmType> = Vec::new();
        self.funcs.insert(String::from_str("getint"), runtime_sig(LlvmType::I32, v0));
        let mut v1: Vec<LlvmType> = Vec::new();
        self.funcs.insert(String::from_str("getch"), runtime_sig(LlvmType::I32, v1));
        let mut v2: Vec<LlvmType> = Vec::new();
        v2.push(LlvmType::Ptr(Box::new(LlvmType::I32)));
        self.funcs.insert(String::from_str("getarray"), runtime_sig(LlvmType::I32, v2));
        let mut v3: Vec<LlvmType> = Vec::new();
        v3.push(LlvmType::I32);
        self.funcs.insert(String::from_str("putint"), runtime_sig(LlvmType::Void, v3));
        let mut v4: Vec<LlvmType> = Vec::new();
        v4.push(LlvmType::I32);
        self.funcs.insert(String::from_str("putch"), runtime_sig(LlvmType::I32, v4));
        let mut v5: Vec<LlvmType> = Vec::new();
        v5.push(LlvmType::I32);
        v5.push(LlvmType::Ptr(Box::new(LlvmType::I32)));
        self.funcs.insert(String::from_str("putarray"), runtime_sig(LlvmType::Void, v5));
        let mut v6: Vec<LlvmType> = Vec::new();
        self.funcs.insert(String::from_str("starttime"), runtime_sig(LlvmType::Void, v6));
        let mut v7: Vec<LlvmType> = Vec::new();
        self.funcs.insert(String::from_str("stoptime"), runtime_sig(LlvmType::Void, v7));
        proof {
            let f = self.funcs.entries@;
            let n = f.len();
            assert(funcs_view(f) =~= start + runtime_funcs()) by {
                assert(sig_view(f[n - 8].1).params =~= Seq::<SLlvm>::empty());
                assert(sig_view(f[n - 7].1).params =~= Seq::<SLlvm>::empty());
                assert(sig_view(f[n - 6].1).params =~= seq![ptr_i32()]);
                assert(sig_view(f[n - 5].1).params =~= seq![SLlvm::I32]);
                assert(sig_view(f[n - 4].1).params =~= seq![SLlvm::I32]);
                assert(sig_view(f[n - 3].1).params =~= seq![SLlvm::I32, ptr_i32()]);
                assert(sig_view(f[n - 2].1).params =~= Seq::<SLlvm>::empty());
                assert(sig_view(f[n - 1].1).params =~= Seq::<SLlvm>::empty());
            }
        }
    }
}

} // verus!

verus! {

/// The names of the functions a program defines.
pub open spec fn defines_function(prog: Seq<crate::lalr::SGlobal>, name: Seq<char>) -> bool {
    exists|i: int| 0 <= i < prog.len() && (#[trigger] prog[i] matches crate::lalr::SGlobal::FuncDef(f) && f.ident == name)
}

/// Whether a global holds an array dimension: a parameter with dimensions, or
/// a global array variable.
pub open spec fn global_has_dims(g: crate::lalr::SGlobal) -> bool {
    match g {
        crate::lalr::SGlobal::FuncDef(f) => exists|i: int| 0 <= i < f.func_params.len() && (#[trigger] f.func_params[i]).array_dims is Some,
        crate::lalr::SGlobal::GlobalDecl(_, ds) => exists|i: int| 0 <= i < ds.len() && (#[trigger] ds[i]).var is Array,
        _ => false,
    }
}

/// Function `f` is recorded in `funcs` with its return type, whether it is
/// async, and one parameter type per parameter.
pub open spec fn sig_recorded(funcs: Table<FuncSig>, f: crate::lalr::SFunc) -> bool {
    funcs.get_spec(f.ident) matches Some(sig) && sig.ret@ == spec_type_to_llvm(f.func_type)
        && sig.is_async == f.is_async && sig.params@.len() == f.func_params.len()
}

/// No function after position `i` of `gs` has the name `n`.
pub open spec fn last_func_named(gs: Seq<crate::lalr::SGlobal>, i: int, upto: int, n: Seq<char>) -> bool {
    forall|j: int| i < j < upto ==> !(#[trigger] gs[j] matches crate::lalr::SGlobal::FuncDef(g) && g.ident == n)
}

/// Every variable of a non-constant global declaration is recorded as a global.
pub open spec fn vars_recorded(globals: Table<LlvmType>, g: crate::lalr::SGlobal) -> bool {
    g matches crate::lalr::SGlobal::GlobalDecl(crate::lalr::SType::BType(_), ds)
        ==> forall|k: int| 0 <= k < ds.len() ==> (#[trigger] globals.get_spec(spec_var_decl_name(ds[k].var))) is Some
}

impl ModuleCtx {
    /// Records the constants, structs, functions and globals of `ast`.
    pub fn scan(&mut self, ast: &CompUnit) -> (r: Result<(), String>)
        ensures
            final(self).layouts == old(self).layouts,
            r is Ok ==> {
                &&& forall|i: int| 0 <= i < ast@.len() ==> (#[trigger] ast@[i] matches crate::lalr::SGlobal::StructDef(d)
                    ==> final(self).structs.get_spec(d.name) is Some)
                &&& forall|i: int| 0 <= i < ast@.len() ==> (#[trigger] ast@[i] matches crate::lalr::SGlobal::FuncDef(f)
                    ==> final(self).funcs.get_spec(f.ident) is Some)
                &&& forall|i: int| 0 <= i < runtime_funcs().len() ==> final(self).funcs.get_spec(#[trigger] runtime_funcs()[i].0) is Some
            },
            (forall|i: int| 0 <= i < ast@.len() ==> !global_has_dims(#[trigger] ast@[i])) ==> r is Ok,
            r is Ok ==> forall|i: int| 0 <= i < ast@.len() ==> (#[trigger] ast@[i] matches crate::lalr::SGlobal::FuncDef(f)
                ==> (last_func_named(ast@, i, ast@.len() as int, f.ident) ==> sig_recorded(final(self).funcs, f))),
            r is Ok ==> forall|i: int| 0 <= i < ast@.len() ==> vars_recorded(final(self).globals, #[trigger] ast@[i]),
    {
        let pre = precollect_global_constants(ast);
        let mut k: usize = 0;
        while k < pre.entries.len()
            invariant
                k <= pre.entries@.len(),
                self.layouts == old(self).layouts,
            decreases pre.entries.len() - k,
        {
            self.constants.insert(pre.entries[k].0.clone(), pre.entries[k].1);
            k = k + 1;
        }
        let mut g: usize = 0;
        while g < ast.global_defs.len()
            invariant
                g <= ast.global_defs@.len(),
                self.layouts == old(self).layouts,
                forall|i: int| 0 <= i < g ==> (#[trigger] ast@[i] matches crate::lalr::SGlobal::StructDef(d)
                    ==> self.structs.get_spec(d.name) is Some),
            decreases ast.global_defs.len() - g,
        {
            match &ast.global_defs[g] {
                GlobalDef::StructDef(def) => {
                    self.structs.insert(def.name.clone(), def.copy());
                }
                _ => {}
            }
            proof {
                assert(ast@[g as int] == ast.global_defs@[g as int]@);
            }
            g = g + 1;
        }
        let ghost structs_done = self.structs;
        let ghost funcs_before = self.funcs.entries@;
        self.insert_runtime_funcs();
        proof {
            let f = self.funcs.entries@;
            assert(funcs_view(f) == funcs_view(funcs_before) + runtime_funcs());
            assert(funcs_view(f).len() == f.len());
            assert forall|i: int| 0 <= i < runtime_funcs().len() implies self.funcs.get_spec(#[trigger] runtime_funcs()[i].0) is Some by {
                let idx = funcs_before.len() + i;
                assert(funcs_view(funcs_before).len() == funcs_before.len());
                assert((funcs_view(funcs_before) + runtime_funcs())[idx] == runtime_funcs()[i]);
                assert(funcs_view(f)[idx].0 == f[idx].0@);
                lemma_assoc_some(f, runtime_funcs()[i].0);
            }
        }
        let mut g2: usize = 0;
        while g2 < ast.global_defs.len()
            invariant
                g2 <= ast.global_defs@.len(),
                self.layouts == old(self).layouts,
                self.structs == structs_done,
                forall|i: int| 0 <= i < ast@.len() ==> (#[trigger] ast@[i] matches crate::lalr::SGlobal::StructDef(d)
                    ==> self.structs.get_spec(d.name) is Some),
                forall|i: int| 0 <= i < g2 ==> (#[trigger] ast@[i] matches crate::lalr::SGlobal::FuncDef(f)
                    ==> self.funcs.get_spec(f.ident) is Some),
                forall|i: int| 0 <= i < g2 ==> (#[trigger] ast@[i] matches crate::lalr::SGlobal::FuncDef(f)
                    ==> (last_func_named(ast@, i, g2 as int, f.ident) ==> sig_recorded(self.funcs, f))),
                forall|i: int| 0 <= i < g2 ==> vars_recorded(self.globals, #[trigger] ast@[i]),
                forall|i: int| 0 <= i < runtime_funcs().len() ==> self.funcs.get_spec(#[trigger] runtime_funcs()[i].0) is Some,
            decreases ast.global_defs.len() - g2,
        {
            proof {
                assert(ast@[g2 as int] == ast.global_defs@[g2 as int]@);
            }
            match &ast.global_defs[g2] {
                GlobalDef::FuncDef(func) => {
                    let ret = type_to_llvm(&func.func_type);
                    let mut params: Vec<LlvmType> = Vec::new();
                    let mut p: usize = 0;
                    while p < func.func_params.len()
                        invariant
                            p <= func.func_params@.len(),
                            self.layouts == old(self).layouts,
                            g2 < ast@.len(),
                            ast@[g2 as int] == crate::lalr::SGlobal::FuncDef(func@),
                            params@.len() == p,
                        decreases func.func_params.len() - p,
                    {
                        match param_resolved_btype(&func.func_params[p], self) {
                            Ok(t) => params.push(LlvmType::from_btype(&t)),
                            Err(e) => {
                                proof {
                                    assert(func@.func_params[p as int] == func.func_params@[p as int]@);
                                    assert(global_has_dims(ast@[g2 as int]));
                                }
                                return Err(e);
                            }
                        }
                        p = p + 1;
                    }
                    let ghost before = self.funcs;
                    self.funcs.insert(func.ident.clone(), FuncSig { ret, is_async: func.is_async, params });
                    proof {
                        assert forall|k: Seq<char>| #[trigger] before.get_spec(k) is Some implies self.funcs.get_spec(k) is Some by {
                            if k != func.ident@ {
                                assert(self.funcs.get_spec(k) == before.get_spec(k));
                            }
                        }
                        assert(self.funcs.get_spec(func.ident@) is Some);
                        assert forall|i: int| 0 <= i < g2 + 1 && (#[trigger] ast@[i] matches crate::lalr::SGlobal::FuncDef(f))
                            implies (last_func_named(ast@, i, g2 + 1, ast@[i]->FuncDef_0.ident) ==> sig_recorded(self.funcs, ast@[i]->FuncDef_0)) by {
                            let f = ast@[i]->FuncDef_0;
                            if i < g2 && last_func_named(ast@, i, g2 + 1, f.ident) {
                                assert(f.ident != func.ident@);
                                assert(last_func_named(ast@, i, g2 as int, f.ident));
                                assert(self.funcs.get_spec(f.ident) == before.get_spec(f.ident));
                            }
                        }
                    }
                }
                GlobalDef::GlobalDecl(ty, decls) => {
                    let ghost funcs_now = self.funcs;
                    let mut d: usize = 0;
                    while d < decls.len()
                        invariant
                            d <= decls@.len(),
                            self.layouts == old(self).layouts,
                            self.structs == structs_done,
                            self.funcs == funcs_now,
                            g2 < ast@.len(),
                            ast@[g2 as int] == crate::lalr::SGlobal::GlobalDecl(ty@, crate::lalr::decls_view(decls@)),
                            forall|i: int| 0 <= i < g2 ==> vars_recorded(self.globals, #[trigger] ast@[i]),
                            ty@ is BType ==> forall|k: int| 0 <= k < d ==>
                                (#[trigger] self.globals.get_spec(spec_var_decl_name(decls@[k].var@))) is Some,
                        decreases decls.len() - d,
                    {
                        let decl = &decls[d];
                        let name = var_decl_name(&decl.var);
                        let value_ty = match decl_type(ty, &decl.var, self) {
                            Ok(t) => t,
                            Err(e) => {
                                proof {
                                    assert(crate::lalr::decls_view(decls@)[d as int] == decls@[d as int]@);
                                    assert(global_has_dims(ast@[g2 as int]));
                                }
                                return Err(e);
                            }
                        };
                        let is_const = match ty {
                            Type::Const(_) => true,
                            _ => false,
                        };
                        let is_i32 = match value_ty {
                            LlvmType::I32 => true,
                            _ => false,
                        };
                        if is_const && is_i32 {
                            match &decl.init {
                                Some(init) => {
                                    match init_const(init, self) {
                                        Some(Some(value)) => self.constants.insert(name, value),
                                        _ => {}
                                    }
                                }
                                None => {}
                            }
                        } else {
                            let ghost gb = self.globals;
                            self.globals.insert(name, value_ty);
                            proof {
                                assert forall|k: Seq<char>| gb.get_spec(k) is Some implies self.globals.get_spec(k) is Some by {
                                    if k != name@ {
                                        assert(self.globals.get_spec(k) == gb.get_spec(k));
                                    }
                                }
                                assert forall|i: int| 0 <= i < g2 implies vars_recorded(self.globals, #[trigger] ast@[i]) by {
                                    assert(vars_recorded(gb, ast@[i]));
                                    match ast@[i] {
                                        crate::lalr::SGlobal::GlobalDecl(crate::lalr::SType::BType(_), ds) => {
                                            assert forall|k: int| 0 <= k < ds.len() implies (#[trigger] self.globals.get_spec(spec_var_decl_name(ds[k].var))) is Some by {
                                                assert(gb.get_spec(spec_var_decl_name(ds[k].var)) is Some);
                                            }
                                        },
                                        _ => {},
                                    }
                                }
                                assert forall|k: int| 0 <= k < d + 1 && ty@ is BType implies
                                    (#[trigger] self.globals.get_spec(spec_var_decl_name(decls@[k].var@))) is Some by {
                                    if k < d {
                                        assert(gb.get_spec(spec_var_decl_name(decls@[k].var@)) is Some);
                                    }
                                }
                            }
                        }
                        proof {
                            if ty@ is BType {
                                assert(!is_const);
                            }
                        }
                        d = d + 1;
                    }
                    proof {
                        assert forall|i: int| 0 <= i < g2 + 1 implies vars_recorded(self.globals, #[trigger] ast@[i]) by {
                            if i == g2 {
                                if ty@ is BType {
                                    assert forall|k: int| 0 <= k < crate::lalr::decls_view(decls@).len() implies
                                        (#[trigger] self.globals.get_spec(spec_var_decl_name(crate::lalr::decls_view(decls@)[k].var))) is Some by {
                                        assert(crate::lalr::decls_view(decls@)[k] == decls@[k]@);
                                        assert(self.globals.get_spec(spec_var_decl_name(decls@[k].var@)) is Some);
                                    }
                                }
                            }
                        }
                    }
                }
                GlobalDef::StructDef(_) => {}
            }
            g2 = g2 + 1;
        }
        Ok(())
    }
}

} // verus!
