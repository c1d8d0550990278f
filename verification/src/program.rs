use vstd::prelude::*;
use crate::lalr::{
    diagnostic_at, spec_type_base, type_base_btype, BType, CompUnit, Diagnostic, FuncDef,
    GlobalDef, SBType, Span, StructDef, StructField,
};
use crate::semantic::{
    first_unknown_struct, object_type_error, validate_object_type, validate_type_refs,
    FunctionSig, SemanticProgram, StructFieldSig, StructSig,
};
use crate::table::{assoc, lemma_assoc_some, NameSet, Table};
use crate::text::{cat, cat4};
use crate::validate::{decl_btype, decl_type_under, func_param_semantic_btype, global_ok, param_sem_type};
use crate::llvm::module::{const_candidates, constants_closed, constants_justified, precollect_global_constants};
use crate::syntax::{decl_name_string, spec_struct_value_dependencies, struct_value_dependencies, var_decl_name};
use crate::order::{insert_sorted, lemma_sorted_distinct, strictly_sorted, views_of};
use crate::table::lemma_distinct_names_bounded;
use crate::text::{join, join_texts, string_views};

verus! {

broadcast use vstd::std_specs::vec::group_vec_axioms;

// ---------------------------------------------------------------------------
// Struct definitions.

/// Global definition `g` defines a struct named `n`.
pub open spec fn defines_struct(g: GlobalDef, n: Seq<char>) -> bool {
    g is StructDef && g->StructDef_0.name@ == n
}

/// The names of the structs a program defines.
pub open spec fn ast_struct_names(gs: Seq<GlobalDef>) -> Set<Seq<char>> {
    Set::new(|n: Seq<char>| exists|i: int| 0 <= i < gs.len() && #[trigger] defines_struct(gs[i], n))
}

/// No two struct definitions share a name.
pub open spec fn structs_distinct(gs: Seq<GlobalDef>) -> bool {
    forall|i: int, j: int| 0 <= i < j < gs.len() && gs[i] is StructDef && gs[j] is StructDef
        ==> #[trigger] gs[i]->StructDef_0.name@ != #[trigger] gs[j]->StructDef_0.name@
}

/// The first `g` definitions define no struct twice.
pub open spec fn structs_distinct_upto(gs: Seq<GlobalDef>, g: int) -> bool {
    forall|i: int, j: int| 0 <= i < j < g && gs[i] is StructDef && gs[j] is StructDef
        ==> #[trigger] gs[i]->StructDef_0.name@ != #[trigger] gs[j]->StructDef_0.name@
}

/// Definition `g` is the first struct definition that repeats an earlier name.
pub open spec fn first_repeated_struct(gs: Seq<GlobalDef>, g: int) -> bool {
    &&& 0 <= g < gs.len()
    &&& gs[g] is StructDef
    &&& structs_distinct_upto(gs, g)
    &&& exists|i: int| 0 <= i < g && #[trigger] defines_struct(gs[i], gs[g]->StructDef_0.name@)
}

/// The diagnostic for the first repeated struct definition.
pub open spec fn repeated_struct_diag(gs: Seq<GlobalDef>, d: Diagnostic) -> bool {
    exists|g: int| #[trigger] first_repeated_struct(gs, g)
        && d.span == gs[g]->StructDef_0.span
        && d.message@ == "Duplicate struct definition: "@ + gs[g]->StructDef_0.name@
}

/// The name, type (if its dimensions evaluate) and place of a field declarator.
pub open spec fn field_entry(f: StructField, k: int, env: Seq<(String, i32)>) -> (String, Option<BType>, Option<Span>) {
    let d = f.decls@[k];
    (decl_name_string(d.var), decl_type_under(f.ty, d.var, env), if d.span is Some { d.span } else { f.span })
}

/// The fields the field groups `fs` declare, in order.
pub open spec fn field_entries(fs: Seq<StructField>, env: Seq<(String, i32)>) -> Seq<(String, Option<BType>, Option<Span>)>
    decreases fs.len(),
{
    if fs.len() == 0 {
        Seq::empty()
    } else {
        field_entries(fs.drop_last(), env)
            + Seq::new(fs.last().decls@.len(), |k: int| field_entry(fs.last(), k, env))
    }
}

/// Every field has a valid object type and no two fields share a name.
pub open spec fn fields_ok(es: Seq<(String, Option<BType>, Option<Span>)>, structs: Set<Seq<char>>) -> bool {
    &&& forall|k: int| 0 <= k < es.len() ==> (#[trigger] es[k]).1 is Some
        && object_type_error(es[k].1->Some_0@, structs, "Struct field"@) is None
    &&& forall|k: int, l: int| 0 <= k < l < es.len() ==> (#[trigger] es[k]).0@ != (#[trigger] es[l]).0@
}

/// `sig` is the signature of a struct whose fields are `es`.
pub open spec fn sig_matches_fields(sig: StructSig, es: Seq<(String, Option<BType>, Option<Span>)>) -> bool {
    &&& sig.field_order@.len() == es.len()
    &&& forall|k: int| 0 <= k < es.len() ==> {
        let f = #[trigger] sig.field_order@[k];
        f.name == es[k].0 && Some(f.ty) == es[k].1 && f.span == es[k].2
    }
    &&& sig.fields.entries@.len() == es.len()
    &&& forall|k: int| 0 <= k < es.len() ==> #[trigger] sig.fields.entries@[k] == (es[k].0, es[k].1->Some_0)
}

/// The names of the struct definitions, checking that none repeats.
pub(crate) fn collect_struct_names(gs: &Vec<GlobalDef>) -> (r: Result<NameSet, Diagnostic>)
    ensures
        match r {
            Ok(s) => s.wf() && s.view_set() == ast_struct_names(gs@) && structs_distinct(gs@),
            Err(d) => !structs_distinct(gs@) && repeated_struct_diag(gs@, d),
        },
{
    let mut names = NameSet::new();
    let mut g: usize = 0;
    while g < gs.len()
        invariant
            g <= gs@.len(),
            names.wf(),
            forall|n: Seq<char>| #[trigger] names.view_set().contains(n) <==>
                exists|i: int| 0 <= i < g && #[trigger] defines_struct(gs@[i], n),
            forall|i: int, j: int| 0 <= i < j < g && gs@[i] is StructDef && gs@[j] is StructDef
                ==> #[trigger] gs@[i]->StructDef_0.name@ != #[trigger] gs@[j]->StructDef_0.name@,
        decreases gs.len() - g,
    {
        match &gs[g] {
            GlobalDef::StructDef(def) => {
                let ghost before = names.view_set();
                if !names.insert(def.name.clone()) {
                    let d = diagnostic_at(def.span, cat("Duplicate struct definition: ", def.name.as_str()));
                    proof {
                        let i = choose|i: int| 0 <= i < g && #[trigger] defines_struct(gs@[i], def.name@);
                        assert(gs@[i]->StructDef_0.name@ == gs@[g as int]->StructDef_0.name@);
                        assert(first_repeated_struct(gs@, g as int));
                    }
                    return Err(d);
                }
                proof {
                    assert forall|n: Seq<char>| #[trigger] names.view_set().contains(n) <==>
                        exists|i: int| 0 <= i < g + 1 && #[trigger] defines_struct(gs@[i], n) by {
                        if n == def.name@ {
                            assert(defines_struct(gs@[g as int], n));
                        }
                        if exists|i: int| 0 <= i < g + 1 && #[trigger] defines_struct(gs@[i], n) {
                            let i = choose|i: int| 0 <= i < g + 1 && #[trigger] defines_struct(gs@[i], n);
                            if i < g {
                                assert(before.contains(n));
                            }
                        }
                    }
                    assert forall|i: int, j: int| 0 <= i < j < g + 1 && gs@[i] is StructDef && gs@[j] is StructDef
                        implies #[trigger] gs@[i]->StructDef_0.name@ != #[trigger] gs@[j]->StructDef_0.name@ by {
                        if j == g {
                            assert(defines_struct(gs@[i], gs@[i]->StructDef_0.name@));
                            assert(before.contains(gs@[i]->StructDef_0.name@));
                        }
                    }
                }
            }
            _ => {
                proof {
                    assert forall|n: Seq<char>| #[trigger] names.view_set().contains(n) <==>
                        exists|i: int| 0 <= i < g + 1 && #[trigger] defines_struct(gs@[i], n) by {
                        if exists|i: int| 0 <= i < g + 1 && #[trigger] defines_struct(gs@[i], n) {
                            let i = choose|i: int| 0 <= i < g + 1 && #[trigger] defines_struct(gs@[i], n);
                            assert(i < g);
                        }
                    }
                }
            }
        }
        g = g + 1;
    }
    proof {
        assert(names.view_set() =~= ast_struct_names(gs@));
    }
    Ok(names)
}

/// The signature of a struct definition, checking its fields.
pub(crate) fn struct_sig_of(def: &StructDef, constants: &Table<i32>, structs: &NameSet) -> (r: Result<StructSig, Diagnostic>)
    ensures
        match r {
            Ok(sig) => fields_ok(field_entries(def.fields@, constants.entries@), structs.view_set())
                && sig_matches_fields(sig, field_entries(def.fields@, constants.entries@)),
            Err(_) => !fields_ok(field_entries(def.fields@, constants.entries@), structs.view_set()),
        },
{
    let ghost env = constants.entries@;
    let ghost fs = def.fields@;
    let mut fields: Table<BType> = Table::new();
    let mut field_order: Vec<StructFieldSig> = Vec::new();
    let mut seen = NameSet::new();
    let mut k: usize = 0;
    proof {
        assert(fs.take(0) =~= Seq::<StructField>::empty());
        assert(field_entries(fs.take(0), env) =~= Seq::empty());
    }
    while k < def.fields.len()
        invariant
            k <= fs.len(),
            fs == def.fields@,
            env == constants.entries@,
            seen.wf(),
            ({
                let es = field_entries(fs.take(k as int), env);
                &&& fields_ok(es, structs.view_set())
                &&& sig_matches_fields(StructSig { fields, field_order }, es)
                &&& forall|n: Seq<char>| #[trigger] seen.view_set().contains(n) <==>
                    exists|j: int| 0 <= j < es.len() && es[j].0@ == n
            }),
        decreases fs.len() - k,
    {
        let field = &def.fields[k];
        let ghost es0 = field_entries(fs.take(k as int), env);
        proof {
            assert(fs.take(k + 1).drop_last() =~= fs.take(k as int));
            assert(fs.take(k + 1).last() == field);
        }
        let ghost full = field_entries(fs.take(k + 1), env);
        let ghost more = Seq::new(field.decls@.len(), |m: int| field_entry(*field, m, env));
        proof {
            assert(full == es0 + more);
        }
        let mut m: usize = 0;
        proof {
            assert(es0 + more.take(0) =~= es0);
        }
        while m < field.decls.len()
            invariant
                m <= field.decls@.len(),
                k < fs.len(),
                field == fs[k as int],
                fs == def.fields@,
                env == constants.entries@,
                more == Seq::new(field.decls@.len(), |q: int| field_entry(*field, q, env)),
                full == es0 + more,
                seen.wf(),
                ({
                    let es = es0 + more.take(m as int);
                    &&& fields_ok(es, structs.view_set())
                    &&& sig_matches_fields(StructSig { fields, field_order }, es)
                    &&& forall|n: Seq<char>| #[trigger] seen.view_set().contains(n) <==>
                        exists|j: int| 0 <= j < es.len() && es[j].0@ == n
                }),
            decreases field.decls@.len() - m,
        {
            let decl = &field.decls[m];
            let ghost es = es0 + more.take(m as int);
            let ghost es1 = es0 + more.take(m + 1);
            proof {
                assert(es1 =~= es.push(field_entry(*field, m as int, env)));
                assert(field_entry(*field, m as int, env) == more[m as int]);
            }
            let span = match decl.span {
                Some(s) => Some(s),
                None => field.span,
            };
            let field_ty = match decl_btype(&field.ty, &decl.var, constants) {
                Ok(t) => t,
                Err(e) => {
                    proof {
                        assert(full[es0.len() + m] == field_entry(*field, m as int, env));
                        lemma_field_entries_prefix(fs, k + 1, env);
                        assert(field_entries(fs, env)[es0.len() + m] == full[es0.len() + m]);
                        lemma_fields_not_ok(field_entries(fs, env), es0.len() + m, structs.view_set());
                        assert(fs.take(fs.len() as int) =~= fs);
                    }
                    return Err(diagnostic_at(span, e));
                }
            };
            match validate_object_type(&field_ty, structs, "Struct field") {
                Ok(()) => {}
                Err(e) => {
                    proof {
                        assert(full[es0.len() + m] == field_entry(*field, m as int, env));
                        lemma_field_entries_prefix(fs, k + 1, env);
                        assert(field_entries(fs, env)[es0.len() + m] == full[es0.len() + m]);
                        lemma_fields_not_ok(field_entries(fs, env), es0.len() + m, structs.view_set());
                        assert(fs.take(fs.len() as int) =~= fs);
                    }
                    return Err(diagnostic_at(span, e));
                }
            }
            let field_name = var_decl_name(&decl.var);
            let ghost before = seen.view_set();
            if !seen.insert(field_name.clone()) {
                proof {
                    let j = choose|j: int| 0 <= j < es.len() && es[j].0@ == field_name@;
                    assert(full[j] == es[j]) by {
                        assert(es.len() <= full.len());
                    }
                    assert(full[es0.len() + m] == field_entry(*field, m as int, env));
                    lemma_field_entries_prefix(fs, k + 1, env);
                    assert(field_entries(fs, env)[es0.len() + m] == full[es0.len() + m]);
                    assert(field_entries(fs, env)[j] == full[j]);
                    lemma_dup_names_not_ok(field_entries(fs, env), j, es0.len() + m, structs.view_set());
                }
                return Err(diagnostic_at(span, cat4("Duplicate field ", field_name.as_str(), " in struct ", def.name.as_str())));
            }
            let ghost old_fields = fields.entries@;
            let ghost old_order = field_order@;
            fields.insert(field_name.clone(), field_ty.copy());
            field_order.push(StructFieldSig { name: field_name, ty: field_ty, span });
            proof {
                let e = field_entry(*field, m as int, env);
                assert(e.0 == decl_name_string(decl.var));
                assert(seen.view_set() == before.insert(field_name@));
                assert(field_name@ == e.0@);
                assert(es1[es.len() as int] == e);
                assert forall|n: Seq<char>| #[trigger] seen.view_set().contains(n) <==>
                    exists|j: int| 0 <= j < es1.len() && es1[j].0@ == n by {
                    if seen.view_set().contains(n) {
                        if n == e.0@ {
                            assert(es1[es.len() as int].0@ == n);
                        } else {
                            assert(before.contains(n));
                            let j = choose|j: int| 0 <= j < es.len() && es[j].0@ == n;
                            assert(es1[j] == es[j]);
                        }
                    }
                    if exists|j: int| 0 <= j < es1.len() && es1[j].0@ == n {
                        let j = choose|j: int| 0 <= j < es1.len() && es1[j].0@ == n;
                        if j < es.len() {
                            assert(es1[j] == es[j]);
                            assert(before.contains(n));
                        } else {
                            assert(j == es.len());
                        }
                    }
                }
                assert forall|a: int, b: int| 0 <= a < b < es1.len() implies (#[trigger] es1[a]).0@ != (#[trigger] es1[b]).0@ by {
                    if b == es.len() {
                        assert(es1[a] == es[a]);
                        assert(before.contains(es[a].0@));
                    } else {
                        assert(es1[a] == es[a] && es1[b] == es[b]);
                    }
                }
                assert forall|q: int| 0 <= q < es1.len() implies (#[trigger] es1[q]).1 is Some
                    && object_type_error(es1[q].1->Some_0@, structs.view_set(), "Struct field"@) is None by {
                    if q < es.len() {
                        assert(es1[q] == es[q]);
                    }
                }
                assert(sig_matches_fields(StructSig { fields, field_order }, es1)) by {
                    assert forall|q: int| 0 <= q < es1.len() implies #[trigger] fields.entries@[q] == (es1[q].0, es1[q].1->Some_0) by {
                        if q < es.len() {
                            assert(es1[q] == es[q]);
                            assert(fields.entries@[q] == old_fields[q]);
                        }
                    }
                    assert forall|q: int| 0 <= q < es1.len() implies {
                        let f = #[trigger] field_order@[q];
                        f.name == es1[q].0 && Some(f.ty) == es1[q].1 && f.span == es1[q].2
                    } by {
                        if q < es.len() {
                            assert(es1[q] == es[q]);
                            assert(field_order@[q] == old_order[q]);
                        }
                    }
                }
            }
            m = m + 1;
        }
        proof {
            assert(more.take(m as int) =~= more);
        }
        k = k + 1;
    }
    proof {
        assert(fs.take(k as int) =~= fs);
    }
    Ok(StructSig { fields, field_order })
}

/// Field lists only grow as more field groups are added.
proof fn lemma_field_entries_prefix(fs: Seq<StructField>, k: int, env: Seq<(String, i32)>)
    requires
        0 <= k <= fs.len(),
    ensures
        field_entries(fs.take(k), env).len() <= field_entries(fs, env).len(),
        forall|j: int| 0 <= j < field_entries(fs.take(k), env).len() ==>
            #[trigger] field_entries(fs, env)[j] == field_entries(fs.take(k), env)[j],
    decreases fs.len() - k,
{
    if k < fs.len() {
        lemma_field_entries_prefix(fs.drop_last(), k, env);
        assert(fs.drop_last().take(k) =~= fs.take(k));
    } else {
        assert(fs.take(k) =~= fs);
    }
}

proof fn lemma_fields_not_ok(es: Seq<(String, Option<BType>, Option<Span>)>, k: int, structs: Set<Seq<char>>)
    requires
        0 <= k < es.len(),
        es[k].1 is None || object_type_error(es[k].1->Some_0@, structs, "Struct field"@) is Some,
    ensures
        !fields_ok(es, structs),
{
}

proof fn lemma_dup_names_not_ok(es: Seq<(String, Option<BType>, Option<Span>)>, a: int, b: int, structs: Set<Seq<char>>)
    requires
        0 <= a < b < es.len(),
        es[a].0@ == es[b].0@,
    ensures
        !fields_ok(es, structs),
{
}

// ---------------------------------------------------------------------------
// Global variables.

/// The global variables a program declares, in order: name, type (if its
/// dimensions evaluate) and place.
pub open spec fn global_entries(gs: Seq<GlobalDef>, env: Seq<(String, i32)>) -> Seq<(String, Option<BType>, Option<Span>)>
    decreases gs.len(),
{
    if gs.len() == 0 {
        Seq::empty()
    } else {
        let r = global_entries(gs.drop_last(), env);
        match gs.last() {
            GlobalDef::GlobalDecl(ty, ds) => r + Seq::new(ds@.len(), |m: int|
                (decl_name_string(ds@[m].var), decl_type_under(ty, ds@[m].var, env), ds@[m].span)),
            _ => r,
        }
    }
}

/// The names of the runtime's functions, which every program may call.
pub open spec fn is_builtin(n: Seq<char>) -> bool {
    n == "getint"@ || n == "getch"@ || n == "getarray"@ || n == "putint"@ || n == "putch"@
        || n == "putarray"@ || n == "starttime"@ || n == "stoptime"@
}

/// Every global variable has a valid object type and a name of its own.
pub open spec fn globals_ok(es: Seq<(String, Option<BType>, Option<Span>)>, structs: Set<Seq<char>>) -> bool {
    &&& forall|k: int| 0 <= k < es.len() ==> (#[trigger] es[k]).1 is Some
        && object_type_error(es[k].1->Some_0@, structs, "Global variable"@) is None
        && !is_builtin(es[k].0@)
    &&& forall|k: int, l: int| 0 <= k < l < es.len() ==> (#[trigger] es[k]).0@ != (#[trigger] es[l]).0@
}

/// The table of global variables built from the entries.
pub open spec fn globals_table(es: Seq<(String, Option<BType>, Option<Span>)>) -> Seq<(String, BType)> {
    Seq::new(es.len(), |k: int| (es[k].0, es[k].1->Some_0))
}

// ---------------------------------------------------------------------------
// Functions.

/// Global definition `g` defines a function named `n`.
pub open spec fn defines_func(g: GlobalDef, n: Seq<char>) -> bool {
    g is FuncDef && g->FuncDef_0.ident@ == n
}

/// A function's return type names known structs, its parameters have
/// distinct names and valid object types.
pub open spec fn func_sig_ok(f: FuncDef, env: Seq<(String, i32)>, structs: Set<Seq<char>>) -> bool {
    &&& first_unknown_struct(spec_type_base(f.func_type)@, structs) is None
    &&& forall|a: int, b: int| 0 <= a < b < f.func_params@.len() ==>
        (#[trigger] f.func_params@[a]).name@ != (#[trigger] f.func_params@[b]).name@
    &&& forall|a: int| 0 <= a < f.func_params@.len() ==> {
        let t = param_sem_type(#[trigger] f.func_params@[a], env);
        t is Some && object_type_error(t->Some_0@, structs, "Function parameter"@) is None
    }
}

/// Every function has a valid signature and a name no other global, runtime
/// function or function has.
pub open spec fn funcs_ok(gs: Seq<GlobalDef>, env: Seq<(String, i32)>, structs: Set<Seq<char>>) -> bool {
    let ge = global_entries(gs, env);
    &&& forall|i: int| 0 <= i < gs.len() && #[trigger] gs[i] is FuncDef ==> {
        let f = gs[i]->FuncDef_0;
        func_sig_ok(f, env, structs) && !is_builtin(f.ident@)
            && forall|k: int| 0 <= k < ge.len() ==> (#[trigger] ge[k]).0@ != f.ident@
    }
    &&& forall|i: int, j: int| 0 <= i < j < gs.len() && gs[i] is FuncDef && gs[j] is FuncDef
        ==> #[trigger] gs[i]->FuncDef_0.ident@ != #[trigger] gs[j]->FuncDef_0.ident@
}

/// `sig` is the signature function `f` declares.
pub open spec fn sig_matches_func(sig: FunctionSig, f: FuncDef, env: Seq<(String, i32)>) -> bool {
    &&& sig.is_async == f.is_async
    &&& sig.ret == spec_type_base(f.func_type)
    &&& sig.param_count == f.func_params@.len()
    &&& sig.params@.len() == f.func_params@.len()
    &&& forall|a: int| 0 <= a < f.func_params@.len() ==> Some(#[trigger] sig.params@[a]) == param_sem_type(f.func_params@[a], env)
}

/// The return type and parameter types of a runtime function.
pub open spec fn builtin_sig(n: Seq<char>) -> (BType, Seq<BType>) {
    let ptr_i32 = BType::Ptr(Box::new(BType::I32));
    if n == "getint"@ || n == "getch"@ {
        (BType::I32, Seq::empty())
    } else if n == "getarray"@ {
        (BType::I32, seq![ptr_i32])
    } else if n == "putint"@ {
        (BType::Void, seq![BType::I32])
    } else if n == "putch"@ {
        (BType::I32, seq![BType::I32])
    } else if n == "putarray"@ {
        (BType::Void, seq![BType::I32, ptr_i32])
    } else {
        (BType::Void, Seq::empty())
    }
}

/// `sig` is the signature of runtime function `n`.
pub open spec fn sig_matches_builtin(sig: FunctionSig, n: Seq<char>) -> bool {
    &&& !sig.is_async
    &&& sig.ret == builtin_sig(n).0
    &&& sig.params@ == builtin_sig(n).1
    &&& sig.param_count == sig.params@.len()
}

/// The conditions a program's definitions must meet before any body is checked.
pub open spec fn program_ok(gs: Seq<GlobalDef>, env: Seq<(String, i32)>) -> bool {
    let names = ast_struct_names(gs);
    &&& structs_distinct(gs)
    &&& forall|i: int| 0 <= i < gs.len() && #[trigger] gs[i] is StructDef ==>
        fields_ok(field_entries(gs[i]->StructDef_0.fields@, env), names)
    &&& globals_ok(global_entries(gs, env), names)
    &&& funcs_ok(gs, env, names)
}

/// `p` holds the signatures the definitions `gs` declare, with constants `env`.
pub open spec fn built(p: SemanticProgram, gs: Seq<GlobalDef>, env: Seq<(String, i32)>) -> bool {
    &&& p.constants.entries@ == env
    &&& forall|n: Seq<char>| #[trigger] assoc(p.structs.entries@, n) is Some <==> ast_struct_names(gs).contains(n)
    &&& forall|i: int| 0 <= i < gs.len() && #[trigger] gs[i] is StructDef ==>
        (assoc(p.structs.entries@, gs[i]->StructDef_0.name@) matches Some(sig)
            && sig_matches_fields(sig, field_entries(gs[i]->StructDef_0.fields@, env)))
    &&& p.globals.entries@ == globals_table(global_entries(gs, env))
    &&& forall|n: Seq<char>| #[trigger] assoc(p.funcs.entries@, n) is Some <==>
        (is_builtin(n) || exists|i: int| 0 <= i < gs.len() && #[trigger] defines_func(gs[i], n))
    &&& forall|n: Seq<char>| is_builtin(n) ==>
        (#[trigger] assoc(p.funcs.entries@, n) matches Some(sig) && sig_matches_builtin(sig, n))
    &&& forall|i: int| 0 <= i < gs.len() && #[trigger] gs[i] is FuncDef ==>
        (assoc(p.funcs.entries@, gs[i]->FuncDef_0.ident@) matches Some(sig)
            && sig_matches_func(sig, gs[i]->FuncDef_0, env))
}

fn builtin(name: &str, ret: BType, params: Vec<BType>) -> (e: (String, FunctionSig))
    ensures
        e.0@ == name@,
        !e.1.is_async,
        e.1.ret == ret,
        e.1.params@ == params@,
        e.1.param_count == params@.len(),
{
    let param_count = params.len();
    (String::from_str(name), FunctionSig { is_async: false, ret, param_count, params })
}

/// The signatures of the runtime's functions.
fn builtin_function_sigs() -> (t: Table<FunctionSig>)
    ensures
        forall|n: Seq<char>| #[trigger] assoc(t.entries@, n) is Some <==> is_builtin(n),
        forall|n: Seq<char>| is_builtin(n) ==>
            (#[trigger] assoc(t.entries@, n) matches Some(sig) && sig_matches_builtin(sig, n)),
{
    proof {
        reveal_strlit("getint");
        reveal_strlit("getch");
        reveal_strlit("getarray");
        reveal_strlit("putint");
        reveal_strlit("putch");
        reveal_strlit("putarray");
        reveal_strlit("starttime");
        reveal_strlit("stoptime");
        assert("getint"@.len() == 6 && "getint"@[0] == 'g');
        assert("getch"@.len() == 5 && "getch"@[0] == 'g');
        assert("getarray"@.len() == 8 && "getarray"@[0] == 'g');
        assert("putint"@.len() == 6 && "putint"@[0] == 'p');
        assert("putch"@.len() == 5 && "putch"@[0] == 'p');
        assert("putarray"@.len() == 8 && "putarray"@[0] == 'p');
        assert("starttime"@.len() == 9 && "starttime"@[0] == 's');
        assert("stoptime"@.len() == 8 && "stoptime"@[0] == 's');
    }
    let mut t: Table<FunctionSig> = Table::new();
    let mut one_ptr: Vec<BType> = Vec::new();
    one_ptr.push(BType::Ptr(Box::new(BType::I32)));
    let mut one_int: Vec<BType> = Vec::new();
    one_int.push(BType::I32);
    let mut one_int2: Vec<BType> = Vec::new();
    one_int2.push(BType::I32);
    let mut int_ptr: Vec<BType> = Vec::new();
    int_ptr.push(BType::I32);
    int_ptr.push(BType::Ptr(Box::new(BType::I32)));
    let e = builtin("getint", BType::I32, Vec::new());
    let ghost s0 = e.1;
    t.insert(e.0, e.1);
    let e = builtin("getch", BType::I32, Vec::new());
    let ghost s1 = e.1;
    t.insert(e.0, e.1);
    assert(t.get_spec("getint"@) == Some(s0));
    let e = builtin("getarray", BType::I32, one_ptr);
    let ghost s2 = e.1;
    t.insert(e.0, e.1);
    assert(t.get_spec("getint"@) == Some(s0) && t.get_spec("getch"@) == Some(s1));
    let e = builtin("putint", BType::Void, one_int);
    let ghost s3 = e.1;
    t.insert(e.0, e.1);
    assert(t.get_spec("getint"@) == Some(s0) && t.get_spec("getch"@) == Some(s1));
    let e = builtin("putch", BType::I32, one_int2);
    let ghost s4 = e.1;
    t.insert(e.0, e.1);
    assert(t.get_spec("getint"@) == Some(s0) && t.get_spec("getch"@) == Some(s1));
    let e = builtin("putarray", BType::Void, int_ptr);
    let ghost s5 = e.1;
    t.insert(e.0, e.1);
    assert(t.get_spec("getint"@) == Some(s0) && t.get_spec("getch"@) == Some(s1));
    let e = builtin("starttime", BType::Void, Vec::new());
    let ghost s6 = e.1;
    t.insert(e.0, e.1);
    assert(t.get_spec("getint"@) == Some(s0) && t.get_spec("getch"@) == Some(s1));
    let e = builtin("stoptime", BType::Void, Vec::new());
    let ghost s7 = e.1;
    t.insert(e.0, e.1);
    assert(t.get_spec("getint"@) == Some(s0) && t.get_spec("getch"@) == Some(s1));
    proof {
        assert(t.entries@.len() == 8);
        assert(t.entries@[0].0@ == "getint"@);
        assert(t.entries@[1].0@ == "getch"@);
        assert(t.entries@[2].0@ == "getarray"@);
        assert(t.entries@[3].0@ == "putint"@);
        assert(t.entries@[4].0@ == "putch"@);
        assert(t.entries@[5].0@ == "putarray"@);
        assert(t.entries@[6].0@ == "starttime"@);
        assert(t.entries@[7].0@ == "stoptime"@);
        assert forall|n: Seq<char>| #[trigger] assoc(t.entries@, n) is Some implies is_builtin(n) by {
            lemma_assoc_some(t.entries@, n);
            let j = choose|j: int| 0 <= j < t.entries@.len() && t.entries@[j].0@ == n;
            assert(j == 0 || j == 1 || j == 2 || j == 3 || j == 4 || j == 5 || j == 6 || j == 7);
        }
        assert forall|n: Seq<char>| is_builtin(n) implies
            (#[trigger] assoc(t.entries@, n) matches Some(sig) && sig_matches_builtin(sig, n)) by {
            if n == "getint"@ {
                assert(assoc(t.entries@, n) == Some(s0));
                assert(s0.params@ =~= builtin_sig(n).1);
            } else if n == "getch"@ {
                assert(assoc(t.entries@, n) == Some(s1));
                assert(s1.params@ =~= builtin_sig(n).1);
            } else if n == "getarray"@ {
                assert(assoc(t.entries@, n) == Some(s2));
                assert(s2.params@ =~= builtin_sig(n).1);
            } else if n == "putint"@ {
                assert(assoc(t.entries@, n) == Some(s3));
                assert(s3.params@ =~= builtin_sig(n).1);
            } else if n == "putch"@ {
                assert(assoc(t.entries@, n) == Some(s4));
                assert(s4.params@ =~= builtin_sig(n).1);
            } else if n == "putarray"@ {
                assert(assoc(t.entries@, n) == Some(s5));
                assert(s5.params@ =~= builtin_sig(n).1);
            } else if n == "starttime"@ {
                assert(assoc(t.entries@, n) == Some(s6));
                assert(s6.params@ =~= builtin_sig(n).1);
            } else if n == "stoptime"@ {
                assert(assoc(t.entries@, n) == Some(s7));
                assert(s7.params@ =~= builtin_sig(n).1);
            }
        }
    }
    t
}

// ---------------------------------------------------------------------------
// Building the tables.

/// The signatures of the struct definitions.
fn build_structs(gs: &Vec<GlobalDef>, constants: &Table<i32>, names: &NameSet) -> (r: Result<Table<StructSig>, Diagnostic>)
    requires
        names.view_set() == ast_struct_names(gs@),
        structs_distinct(gs@),
    ensures
        match r {
            Ok(t) => {
                &&& forall|i: int| 0 <= i < gs@.len() && #[trigger] gs@[i] is StructDef ==>
                    fields_ok(field_entries(gs@[i]->StructDef_0.fields@, constants.entries@), names.view_set())
                &&& forall|n: Seq<char>| #[trigger] assoc(t.entries@, n) is Some <==> ast_struct_names(gs@).contains(n)
                &&& forall|i: int| 0 <= i < gs@.len() && #[trigger] gs@[i] is StructDef ==>
                    (assoc(t.entries@, gs@[i]->StructDef_0.name@) matches Some(sig)
                        && sig_matches_fields(sig, field_entries(gs@[i]->StructDef_0.fields@, constants.entries@)))
            },
            Err(_) => exists|i: int| 0 <= i < gs@.len() && #[trigger] gs@[i] is StructDef
                && !fields_ok(field_entries(gs@[i]->StructDef_0.fields@, constants.entries@), names.view_set()),
        },
{
    let ghost env = constants.entries@;
    let mut t: Table<StructSig> = Table::new();
    let mut g: usize = 0;
    while g < gs.len()
        invariant
            g <= gs@.len(),
            env == constants.entries@,
            names.view_set() == ast_struct_names(gs@),
            structs_distinct(gs@),
            forall|i: int| 0 <= i < g && #[trigger] gs@[i] is StructDef ==>
                fields_ok(field_entries(gs@[i]->StructDef_0.fields@, env), names.view_set()),
            forall|n: Seq<char>| #[trigger] assoc(t.entries@, n) is Some <==>
                exists|i: int| 0 <= i < g && #[trigger] defines_struct(gs@[i], n),
            forall|i: int| 0 <= i < g && #[trigger] gs@[i] is StructDef ==>
                (assoc(t.entries@, gs@[i]->StructDef_0.name@) matches Some(sig)
                    && sig_matches_fields(sig, field_entries(gs@[i]->StructDef_0.fields@, env))),
        decreases gs.len() - g,
    {
        match &gs[g] {
            GlobalDef::StructDef(def) => {
                let sig = match struct_sig_of(def, constants, names) {
                    Ok(sig) => sig,
                    Err(e) => {
                        return Err(e);
                    }
                };
                let ghost told = t.entries@;
                let ghost sg = sig;
                t.insert(def.name.clone(), sig);
                proof {
                    assert(t.get_spec(def.name@) == Some(sg));
                    assert(gs@[g as int]->StructDef_0 == *def);
                }
                proof {
                    assert forall|n: Seq<char>| #[trigger] assoc(t.entries@, n) is Some <==>
                        exists|i: int| 0 <= i < g + 1 && #[trigger] defines_struct(gs@[i], n) by {
                        if n == def.name@ {
                            assert(defines_struct(gs@[g as int], n));
                        } else {
                            assert(t.get_spec(n) == Some::<StructSig>(assoc(told, n)->Some_0) || assoc(told, n) is None);
                            if exists|i: int| 0 <= i < g + 1 && #[trigger] defines_struct(gs@[i], n) {
                                let i = choose|i: int| 0 <= i < g + 1 && #[trigger] defines_struct(gs@[i], n);
                                assert(i != g);
                            }
                        }
                    }
                    assert forall|i: int| 0 <= i < g + 1 && #[trigger] gs@[i] is StructDef implies
                        (assoc(t.entries@, gs@[i]->StructDef_0.name@) matches Some(sig)
                            && sig_matches_fields(sig, field_entries(gs@[i]->StructDef_0.fields@, env))) by {
                        if i < g {
                            assert(gs@[i]->StructDef_0.name@ != def.name@);
                            assert(assoc(told, gs@[i]->StructDef_0.name@) matches Some(sig)
                                && sig_matches_fields(sig, field_entries(gs@[i]->StructDef_0.fields@, env)));
                            assert(t.get_spec(gs@[i]->StructDef_0.name@) == assoc(told, gs@[i]->StructDef_0.name@));
                        } else {
                            assert(i == g);
                            assert(sig_matches_fields(sg, field_entries(def.fields@, env)));
                        }
                    }
                }
            }
            _ => {
                proof {
                    assert forall|n: Seq<char>| #[trigger] assoc(t.entries@, n) is Some <==>
                        exists|i: int| 0 <= i < g + 1 && #[trigger] defines_struct(gs@[i], n) by {
                        if exists|i: int| 0 <= i < g + 1 && #[trigger] defines_struct(gs@[i], n) {
                            let i = choose|i: int| 0 <= i < g + 1 && #[trigger] defines_struct(gs@[i], n);
                            assert(i != g);
                        }
                    }
                }
            }
        }
        g = g + 1;
    }
    Ok(t)
}

/// Global entry lists only grow as more definitions are added.
proof fn lemma_global_entries_prefix(gs: Seq<GlobalDef>, k: int, env: Seq<(String, i32)>)
    requires
        0 <= k <= gs.len(),
    ensures
        global_entries(gs.take(k), env).len() <= global_entries(gs, env).len(),
        forall|j: int| 0 <= j < global_entries(gs.take(k), env).len() ==>
            #[trigger] global_entries(gs, env)[j] == global_entries(gs.take(k), env)[j],
    decreases gs.len() - k,
{
    if k < gs.len() {
        lemma_global_entries_prefix(gs.drop_last(), k, env);
        assert(gs.drop_last().take(k) =~= gs.take(k));
    } else {
        assert(gs.take(k) =~= gs);
    }
}

proof fn lemma_globals_not_ok(es: Seq<(String, Option<BType>, Option<Span>)>, k: int, structs: Set<Seq<char>>)
    requires
        0 <= k < es.len(),
        es[k].1 is None || object_type_error(es[k].1->Some_0@, structs, "Global variable"@) is Some
            || is_builtin(es[k].0@),
    ensures
        !globals_ok(es, structs),
{
}

proof fn lemma_globals_dup(es: Seq<(String, Option<BType>, Option<Span>)>, a: int, b: int, structs: Set<Seq<char>>)
    requires
        0 <= a < b < es.len(),
        es[a].0@ == es[b].0@,
    ensures
        !globals_ok(es, structs),
{
}

/// The table of global variables, checking their types and names.
#[verifier::rlimit(40)]
fn build_globals(gs: &Vec<GlobalDef>, constants: &Table<i32>, names: &NameSet, builtins: &Table<FunctionSig>) -> (r: Result<Table<BType>, Diagnostic>)
    requires
        forall|n: Seq<char>| #[trigger] assoc(builtins.entries@, n) is Some <==> is_builtin(n),
    ensures
        match r {
            Ok(t) => globals_ok(global_entries(gs@, constants.entries@), names.view_set())
                && t.entries@ == globals_table(global_entries(gs@, constants.entries@)),
            Err(_) => !globals_ok(global_entries(gs@, constants.entries@), names.view_set()),
        },
{
    let ghost env = constants.entries@;
    let ghost all = global_entries(gs@, env);
    let mut t: Table<BType> = Table::new();
    let mut g: usize = 0;
    proof {
        assert(gs@.take(0) =~= Seq::<GlobalDef>::empty());
        assert(t.entries@ =~= globals_table(global_entries(gs@.take(0), env)));
    }
    while g < gs.len()
        invariant
            g <= gs@.len(),
            env == constants.entries@,
            all == global_entries(gs@, env),
            forall|n: Seq<char>| #[trigger] assoc(builtins.entries@, n) is Some <==> is_builtin(n),
            globals_ok(global_entries(gs@.take(g as int), env), names.view_set()),
            t.entries@ == globals_table(global_entries(gs@.take(g as int), env)),
        decreases gs.len() - g,
    {
        proof {
            assert(gs@.take(g + 1).drop_last() =~= gs@.take(g as int));
            assert(gs@.take(g + 1).last() == gs@[g as int]);
            lemma_global_entries_prefix(gs@, g + 1, env);
        }
        match &gs[g] {
            GlobalDef::GlobalDecl(ty, decls) => {
                let ghost es0 = global_entries(gs@.take(g as int), env);
                let ghost more = Seq::new(decls@.len(), |m: int|
                    (decl_name_string(decls@[m].var), decl_type_under(*ty, decls@[m].var, env), decls@[m].span));
                proof {
                    assert(global_entries(gs@.take(g + 1), env) == es0 + more);
                    assert(es0 + more.take(0) =~= es0);
                }
                let mut m: usize = 0;
                while m < decls.len()
                    invariant
                        m <= decls@.len(),
                        g < gs@.len(),
                        env == constants.entries@,
                        all == global_entries(gs@, env),
                        forall|n: Seq<char>| #[trigger] assoc(builtins.entries@, n) is Some <==> is_builtin(n),
                        more == Seq::new(decls@.len(), |q: int|
                            (decl_name_string(decls@[q].var), decl_type_under(*ty, decls@[q].var, env), decls@[q].span)),
                        global_entries(gs@.take(g + 1), env) == es0 + more,
                        global_entries(gs@.take(g + 1), env).len() <= all.len(),
                        forall|j: int| 0 <= j < global_entries(gs@.take(g + 1), env).len() ==>
                            #[trigger] all[j] == global_entries(gs@.take(g + 1), env)[j],
                        globals_ok(es0 + more.take(m as int), names.view_set()),
                        t.entries@ == globals_table(es0 + more.take(m as int)),
                    decreases decls@.len() - m,
                {
                    let decl = &decls[m];
                    let ghost es = es0 + more.take(m as int);
                    let ghost es1 = es0 + more.take(m + 1);
                    let ghost idx = es0.len() + m;
                    proof {
                        assert(es1 =~= es.push(more[m as int]));
                        assert(all[idx] == more[m as int]);
                    }
                    let name = var_decl_name(&decl.var);
                    let decl_ty = match decl_btype(ty, &decl.var, constants) {
                        Ok(t) => t,
                        Err(e) => {
                            proof {
                                lemma_globals_not_ok(all, idx, names.view_set());
                            }
                            return Err(diagnostic_at(decl.span, e));
                        }
                    };
                    match validate_object_type(&decl_ty, names, "Global variable") {
                        Ok(()) => {}
                        Err(e) => {
                            proof {
                                lemma_globals_not_ok(all, idx, names.view_set());
                            }
                            return Err(diagnostic_at(decl.span, e));
                        }
                    }
                    if builtins.contains_key(name.as_str()) || t.contains_key(name.as_str()) {
                        proof {
                            if is_builtin(name@) {
                                lemma_globals_not_ok(all, idx, names.view_set());
                            } else {
                                lemma_assoc_some(t.entries@, name@);
                                let j = choose|j: int| 0 <= j < t.entries@.len() && t.entries@[j].0@ == name@;
                                assert(all[j] == es[j]);
                                lemma_globals_dup(all, j, idx, names.view_set());
                            }
                        }
                        return Err(diagnostic_at(decl.span, cat("Duplicate global definition: ", name.as_str())));
                    }
                    let ghost told = t.entries@;
                    t.insert(name, decl_ty);
                    proof {
                        assert(t.entries@ =~= globals_table(es1)) by {
                            assert forall|q: int| 0 <= q < es1.len() implies #[trigger] t.entries@[q] == globals_table(es1)[q] by {
                                if q < es.len() {
                                    assert(es1[q] == es[q]);
                                    assert(told[q] == globals_table(es)[q]);
                                }
                            }
                        }
                        assert forall|k: int, l: int| 0 <= k < l < es1.len() implies (#[trigger] es1[k]).0@ != (#[trigger] es1[l]).0@ by {
                            if l == es.len() {
                                assert(es1[k] == es[k]);
                                assert(told[k].0@ == es[k].0@);
                                if es[k].0@ == name@ {
                                    lemma_assoc_some(told, name@);
                                }
                            } else {
                                assert(es1[k] == es[k] && es1[l] == es[l]);
                            }
                        }
                        assert forall|k: int| 0 <= k < es1.len() implies (#[trigger] es1[k]).1 is Some
                            && object_type_error(es1[k].1->Some_0@, names.view_set(), "Global variable"@) is None
                            && !is_builtin(es1[k].0@) by {
                            if k < es.len() {
                                assert(es1[k] == es[k]);
                            }
                        }
                    }
                    m = m + 1;
                }
                proof {
                    assert(more.take(m as int) =~= more);
                }
            }
            _ => {
                proof {
                    assert(global_entries(gs@.take(g + 1), env) == global_entries(gs@.take(g as int), env));
                }
            }
        }
        g = g + 1;
    }
    proof {
        assert(gs@.take(g as int) =~= gs@);
    }
    Ok(t)
}

/// The signature of a function definition, checking its return and parameter types.
#[verifier::rlimit(30)]
fn func_sig(f: &FuncDef, constants: &Table<i32>, names: &NameSet) -> (r: Result<FunctionSig, Diagnostic>)
    ensures
        match r {
            Ok(sig) => func_sig_ok(*f, constants.entries@, names.view_set()) && sig_matches_func(sig, *f, constants.entries@),
            Err(_) => !func_sig_ok(*f, constants.entries@, names.view_set()),
        },
{
    let ghost env = constants.entries@;
    let ghost ps = f.func_params@;
    let ret = type_base_btype(&f.func_type);
    match validate_type_refs(ret, names) {
        Ok(()) => {}
        Err(e) => {
            return Err(diagnostic_at(f.span, e));
        }
    }
    let mut params: Vec<BType> = Vec::new();
    let mut seen = NameSet::new();
    let mut i: usize = 0;
    while i < f.func_params.len()
        invariant
            i <= ps.len(),
            ps == f.func_params@,
            env == constants.entries@,
            first_unknown_struct(spec_type_base(f.func_type)@, names.view_set()) is None,
            seen.wf(),
            forall|n: Seq<char>| #[trigger] seen.view_set().contains(n) <==> exists|a: int| 0 <= a < i && ps[a].name@ == n,
            forall|a: int, b: int| 0 <= a < b < i ==> (#[trigger] ps[a]).name@ != (#[trigger] ps[b]).name@,
            params@.len() == i,
            forall|a: int| 0 <= a < i ==> {
                let t = param_sem_type(#[trigger] ps[a], env);
                t is Some && object_type_error(t->Some_0@, names.view_set(), "Function parameter"@) is None
                    && params@[a] == t->Some_0
            },
        decreases ps.len() - i,
    {
        let param = &f.func_params[i];
        let ghost before = seen.view_set();
        if !seen.insert(param.name.clone()) {
            proof {
                let a = choose|a: int| 0 <= a < i && ps[a].name@ == param.name@;
                assert(ps[i as int] == *param);
            }
            return Err(diagnostic_at(f.span, cat4("Duplicate parameter ", param.name.as_str(), " in function ", f.ident.as_str())));
        }
        let param_ty = match func_param_semantic_btype(param, constants) {
            Ok(t) => t,
            Err(e) => {
                proof {
                    assert(ps[i as int] == *param);
                }
                return Err(diagnostic_at(f.span, e));
            }
        };
        match validate_object_type(&param_ty, names, "Function parameter") {
            Ok(()) => {}
            Err(e) => {
                proof {
                    assert(ps[i as int] == *param);
                }
                return Err(diagnostic_at(f.span, e));
            }
        }
        params.push(param_ty);
        proof {
            assert(ps[i as int] == *param);
            assert forall|n: Seq<char>| #[trigger] seen.view_set().contains(n) <==> exists|a: int| 0 <= a < i + 1 && ps[a].name@ == n by {
                if seen.view_set().contains(n) && n != param.name@ {
                    assert(before.contains(n));
                }
                if exists|a: int| 0 <= a < i + 1 && ps[a].name@ == n {
                    let a = choose|a: int| 0 <= a < i + 1 && ps[a].name@ == n;
                    if a < i {
                        assert(before.contains(n));
                    }
                }
            }
            assert forall|a: int, b: int| 0 <= a < b < i + 1 implies (#[trigger] ps[a]).name@ != (#[trigger] ps[b]).name@ by {
                if b == i {
                    if ps[a].name@ == param.name@ {
                        assert(before.contains(ps[a].name@));
                    }
                }
            }
        }
        i = i + 1;
    }
    Ok(FunctionSig { is_async: f.is_async, ret: ret.copy(), param_count: f.func_params.len(), params })
}

/// The table of all functions: the runtime's, then the program's.
#[verifier::rlimit(40)]
fn build_funcs(gs: &Vec<GlobalDef>, constants: &Table<i32>, names: &NameSet, globals: &Table<BType>, builtins: Table<FunctionSig>) -> (r: Result<Table<FunctionSig>, Diagnostic>)
    requires
        globals.entries@ == globals_table(global_entries(gs@, constants.entries@)),
        forall|n: Seq<char>| #[trigger] assoc(builtins.entries@, n) is Some <==> is_builtin(n),
        forall|n: Seq<char>| is_builtin(n) ==>
            (#[trigger] assoc(builtins.entries@, n) matches Some(sig) && sig_matches_builtin(sig, n)),
    ensures
        match r {
            Ok(t) => {
                &&& funcs_ok(gs@, constants.entries@, names.view_set())
                &&& forall|n: Seq<char>| #[trigger] assoc(t.entries@, n) is Some <==>
                    (is_builtin(n) || exists|i: int| 0 <= i < gs@.len() && #[trigger] defines_func(gs@[i], n))
                &&& forall|n: Seq<char>| is_builtin(n) ==>
                    (#[trigger] assoc(t.entries@, n) matches Some(sig) && sig_matches_builtin(sig, n))
                &&& forall|i: int| 0 <= i < gs@.len() && #[trigger] gs@[i] is FuncDef ==>
                    (assoc(t.entries@, gs@[i]->FuncDef_0.ident@) matches Some(sig)
                        && sig_matches_func(sig, gs@[i]->FuncDef_0, constants.entries@))
            },
            Err(_) => !funcs_ok(gs@, constants.entries@, names.view_set()),
        },
{
    let ghost env = constants.entries@;
    let ghost ge = global_entries(gs@, env);
    let mut t = builtins;
    let mut g: usize = 0;
    while g < gs.len()
        invariant
            g <= gs@.len(),
            env == constants.entries@,
            ge == global_entries(gs@, env),
            globals.entries@ == globals_table(ge),
            forall|i: int| 0 <= i < g && #[trigger] gs@[i] is FuncDef ==> {
                let f = gs@[i]->FuncDef_0;
                func_sig_ok(f, env, names.view_set()) && !is_builtin(f.ident@)
                    && forall|k: int| 0 <= k < ge.len() ==> (#[trigger] ge[k]).0@ != f.ident@
            },
            forall|i: int, j: int| 0 <= i < j < g && gs@[i] is FuncDef && gs@[j] is FuncDef
                ==> #[trigger] gs@[i]->FuncDef_0.ident@ != #[trigger] gs@[j]->FuncDef_0.ident@,
            forall|n: Seq<char>| #[trigger] assoc(t.entries@, n) is Some <==>
                (is_builtin(n) || exists|i: int| 0 <= i < g && #[trigger] defines_func(gs@[i], n)),
            forall|n: Seq<char>| is_builtin(n) ==>
                (#[trigger] assoc(t.entries@, n) matches Some(sig) && sig_matches_builtin(sig, n)),
            forall|i: int| 0 <= i < g && #[trigger] gs@[i] is FuncDef ==>
                (assoc(t.entries@, gs@[i]->FuncDef_0.ident@) matches Some(sig)
                    && sig_matches_func(sig, gs@[i]->FuncDef_0, env)),
        decreases gs.len() - g,
    {
        match &gs[g] {
            GlobalDef::FuncDef(func) => {
                proof {
                    assert(gs@[g as int]->FuncDef_0 == *func);
                }
                let sig = match func_sig(func, constants, names) {
                    Ok(sig) => sig,
                    Err(e) => {
                        return Err(e);
                    }
                };
                if globals.contains_key(func.ident.as_str()) {
                    proof {
                        lemma_assoc_some(globals.entries@, func.ident@);
                        let k = choose|k: int| 0 <= k < globals.entries@.len() && globals.entries@[k].0@ == func.ident@;
                        assert(ge[k].0@ == func.ident@);
                    }
                    return Err(diagnostic_at(func.span, cat("Duplicate global definition: ", func.ident.as_str())));
                }
                if t.contains_key(func.ident.as_str()) {
                    proof {
                        if !is_builtin(func.ident@) {
                            let i = choose|i: int| 0 <= i < g && #[trigger] defines_func(gs@[i], func.ident@);
                            assert(gs@[i]->FuncDef_0.ident@ == gs@[g as int]->FuncDef_0.ident@);
                        }
                    }
                    return Err(diagnostic_at(func.span, cat("Duplicate function definition: ", func.ident.as_str())));
                }
                proof {
                    assert forall|k: int| 0 <= k < ge.len() implies (#[trigger] ge[k]).0@ != func.ident@ by {
                        if ge[k].0@ == func.ident@ {
                            assert(globals.entries@[k].0@ == func.ident@);
                            lemma_assoc_some(globals.entries@, func.ident@);
                        }
                    }
                }
                let ghost told = t.entries@;
                let ghost sg = sig;
                t.insert(func.ident.clone(), sig);
                proof {
                    assert(t.get_spec(func.ident@) == Some(sg));
                    assert forall|n: Seq<char>| #[trigger] assoc(t.entries@, n) is Some <==>
                        (is_builtin(n) || exists|i: int| 0 <= i < g + 1 && #[trigger] defines_func(gs@[i], n)) by {
                        if n == func.ident@ {
                            assert(defines_func(gs@[g as int], n));
                        } else {
                            assert(t.get_spec(n) == assoc(told, n));
                            if exists|i: int| 0 <= i < g + 1 && #[trigger] defines_func(gs@[i], n) {
                                let i = choose|i: int| 0 <= i < g + 1 && #[trigger] defines_func(gs@[i], n);
                                assert(i != g);
                            }
                        }
                    }
                    assert forall|n: Seq<char>| is_builtin(n) implies
                        (#[trigger] assoc(t.entries@, n) matches Some(sig) && sig_matches_builtin(sig, n)) by {
                        assert(n != func.ident@);
                        assert(t.get_spec(n) == assoc(told, n));
                    }
                    assert forall|i: int| 0 <= i < g + 1 && #[trigger] gs@[i] is FuncDef implies
                        (assoc(t.entries@, gs@[i]->FuncDef_0.ident@) matches Some(sig)
                            && sig_matches_func(sig, gs@[i]->FuncDef_0, env)) by {
                        if i < g {
                            assert(gs@[i]->FuncDef_0.ident@ != func.ident@) by {
                                assert(defines_func(gs@[i], gs@[i]->FuncDef_0.ident@));
                                assert(assoc(told, gs@[i]->FuncDef_0.ident@) is Some);
                            }
                            assert(t.get_spec(gs@[i]->FuncDef_0.ident@) == assoc(told, gs@[i]->FuncDef_0.ident@));
                        } else {
                            assert(i == g);
                        }
                    }
                    assert forall|i: int, j: int| 0 <= i < j < g + 1 && gs@[i] is FuncDef && gs@[j] is FuncDef
                        implies #[trigger] gs@[i]->FuncDef_0.ident@ != #[trigger] gs@[j]->FuncDef_0.ident@ by {
                        if j == g {
                            assert(defines_func(gs@[i], gs@[i]->FuncDef_0.ident@));
                            assert(assoc(told, gs@[i]->FuncDef_0.ident@) is Some);
                        }
                    }
                }
            }
            _ => {
                proof {
                    assert forall|n: Seq<char>| #[trigger] assoc(t.entries@, n) is Some <==>
                        (is_builtin(n) || exists|i: int| 0 <= i < g + 1 && #[trigger] defines_func(gs@[i], n)) by {
                        if exists|i: int| 0 <= i < g + 1 && #[trigger] defines_func(gs@[i], n) {
                            let i = choose|i: int| 0 <= i < g + 1 && #[trigger] defines_func(gs@[i], n);
                            assert(i != g);
                        }
                    }
                }
            }
        }
        g = g + 1;
    }
    Ok(t)
}

// ---------------------------------------------------------------------------
// Structs that hold themselves.

/// Some field of struct `a` holds a value of `b`, directly or in an array.
pub open spec fn field_holds(structs: Seq<(String, StructSig)>, a: Seq<char>, b: Seq<char>) -> bool {
    match assoc(structs, a) {
        Some(sig) => exists|k: int| 0 <= k < sig.field_order@.len()
            && #[trigger] spec_struct_value_dependencies(sig.field_order@[k].ty@).contains(b),
        None => false,
    }
}

/// Struct `a` holds a value of struct `b`.
pub open spec fn holds_struct(structs: Seq<(String, StructSig)>, a: Seq<char>, b: Seq<char>) -> bool {
    assoc(structs, b) is Some && field_holds(structs, a, b)
}

/// Each struct of `order` comes after every struct it holds.
pub open spec fn holds_earlier(structs: Seq<(String, StructSig)>, order: Seq<Seq<char>>) -> bool {
    forall|i: int, b: Seq<char>| 0 <= i < order.len() && #[trigger] holds_struct(structs, order[i], b)
        ==> exists|j: int| 0 <= j < i && order[j] == b
}

/// `order` lists every struct once, each after the structs it holds: the
/// structs can be laid out one after the other, so none holds itself.
pub open spec fn value_order(structs: Seq<(String, StructSig)>, order: Seq<Seq<char>>) -> bool {
    &&& order.no_duplicates()
    &&& forall|n: Seq<char>| #[trigger] assoc(structs, n) is Some <==> order.contains(n)
    &&& holds_earlier(structs, order)
}

/// Step `k` of `c` goes from a struct to one it holds.
pub open spec fn holds_step(structs: Seq<(String, StructSig)>, c: Seq<Seq<char>>, k: int) -> bool {
    holds_struct(structs, c[k], c[k + 1])
}

/// `c` is a cycle of structs, each holding the next, back to the first.
pub open spec fn value_cycle(structs: Seq<(String, StructSig)>, c: Seq<Seq<char>>) -> bool {
    &&& c.len() >= 2
    &&& c[0] == c.last()
    &&& forall|k: int| 0 <= k < c.len() - 1 ==> #[trigger] holds_step(structs, c, k)
}

/// The path of the search: distinct structs, each holding the next.
pub open spec fn path_ok(structs: Seq<(String, StructSig)>, path: Seq<Seq<char>>) -> bool {
    &&& path.no_duplicates()
    &&& forall|k: int| 0 <= k < path.len() ==> assoc(structs, #[trigger] path[k]) is Some
    &&& forall|k: int| 0 <= k < path.len() - 1 ==> #[trigger] holds_step(structs, path, k)
}

/// The finished structs: distinct structs, each after the structs it holds.
pub open spec fn done_ok(structs: Seq<(String, StructSig)>, done: Seq<Seq<char>>) -> bool {
    &&& done.no_duplicates()
    &&& forall|k: int| 0 <= k < done.len() ==> assoc(structs, #[trigger] done[k]) is Some
    &&& holds_earlier(structs, done)
}

/// No struct is both on the path and finished.
pub open spec fn disjoint(path: Seq<Seq<char>>, done: Seq<Seq<char>>) -> bool {
    forall|k: int| 0 <= k < path.len() ==> !done.contains(#[trigger] path[k])
}

/// The position of `name` in `path`, if it is there.
fn position_in(path: &Vec<String>, name: &String) -> (r: Option<usize>)
    ensures
        match r {
            Some(i) => i < path@.len() && path@[i as int]@ == name@,
            None => !views_of(path@).contains(name@),
        },
{
    let mut i: usize = 0;
    while i < path.len()
        invariant
            i <= path@.len(),
            forall|j: int| 0 <= j < i ==> path@[j]@ != name@,
        decreases path.len() - i,
    {
        if crate::table::str_eq(path[i].as_str(), name.as_str()) {
            return Some(i);
        }
        i = i + 1;
    }
    proof {
        if views_of(path@).contains(name@) {
            let j = choose|j: int| 0 <= j < views_of(path@).len() && views_of(path@)[j] == name@;
            assert(path@[j]@ == name@);
        }
    }
    None
}

/// The text of a cycle found on the path: the path from `start` on, then `dep`.
fn cycle_text(path: &Vec<String>, start: usize, dep: &String) -> (s: String)
    requires
        start < path@.len(),
    ensures
        s@ == join_texts(string_views(path@).subrange(start as int, path@.len() as int).push(dep@), " -> "@),
{
    let mut parts: Vec<String> = Vec::new();
    let mut i = start;
    while i < path.len()
        invariant
            start <= i <= path@.len(),
            string_views(parts@) == string_views(path@).subrange(start as int, i as int),
        decreases path.len() - i,
    {
        let p = path[i].clone();
        parts.push(p);
        proof {
            assert(string_views(parts@) =~= string_views(path@).subrange(start as int, i + 1));
        }
        i = i + 1;
    }
    let d = dep.clone();
    parts.push(d);
    proof {
        assert(string_views(parts@) =~= string_views(path@).subrange(start as int, path@.len() as int).push(dep@));
    }
    join(&parts, " -> ")
}

proof fn lemma_cycle_found(structs: Seq<(String, StructSig)>, path: Seq<Seq<char>>, start: int, dep: Seq<char>)
    requires
        path_ok(structs, path),
        0 <= start < path.len(),
        path[start] == dep,
        field_holds(structs, path.last(), dep),
    ensures
        value_cycle(structs, path.subrange(start, path.len() as int).push(dep)),
{
    let c = path.subrange(start, path.len() as int).push(dep);
    assert forall|k: int| 0 <= k < c.len() - 1 implies #[trigger] holds_step(structs, c, k) by {
        if k < c.len() - 2 {
            assert(holds_step(structs, path, start + k));
            assert(c[k] == path[start + k] && c[k + 1] == path[start + k + 1]);
        } else {
            assert(c[k] == path.last());
            assert(c[k + 1] == dep);
            assert(assoc(structs, path[start]) is Some);
        }
    }
}

/// Searches the structs that `name` holds, depth first, and finishes `name`.
#[verifier::spinoff_prover]
#[verifier::rlimit(80)]
fn visit_struct_value_graph(name: &String, structs: &Table<StructSig>, done: &mut NameSet, path: &mut Vec<String>) -> (r: Result<(), Diagnostic>)
    requires
        old(done).wf(),
        done_ok(structs.entries@, views_of(old(done).names@)),
        path_ok(structs.entries@, views_of(old(path)@)),
        disjoint(views_of(old(path)@), views_of(old(done).names@)),
        !views_of(old(path)@).contains(name@),
        old(path)@.len() > 0 ==> field_holds(structs.entries@, views_of(old(path)@).last(), name@),
    ensures
        r is Ok ==> {
            &&& final(path)@ == old(path)@
            &&& final(done).wf()
            &&& done_ok(structs.entries@, views_of(final(done).names@))
            &&& views_of(old(done).names@).is_prefix_of(views_of(final(done).names@))
            &&& disjoint(views_of(old(path)@), views_of(final(done).names@))
            &&& (assoc(structs.entries@, name@) is Some ==> views_of(final(done).names@).contains(name@))
        },
        r is Err ==> exists|c: Seq<Seq<char>>| value_cycle(structs.entries@, c),
    decreases structs.entries@.len() - old(path)@.len(),
{
    let ghost st = structs.entries@;
    let ghost d0 = views_of(done.names@);
    let ghost p0 = path@;
    proof {
        assert(views_of(path@).no_duplicates());
        assert forall|i: int| 0 <= i < views_of(path@).len() implies
            crate::table::keys_of(st).contains(#[trigger] views_of(path@)[i]) by {
            crate::table::lemma_assoc_some(st, views_of(path@)[i]);
            let j = choose|j: int| 0 <= j < st.len() && st[j].0@ == views_of(path@)[i];
            assert(crate::table::keys_of(st)[j] == views_of(path@)[i]);
        }
        lemma_distinct_names_bounded(views_of(path@), crate::table::keys_of(st));
        assert(d0.is_prefix_of(d0));
    }
    if done.contains(name.as_str()) {
        proof {
            let i = choose|i: int| 0 <= i < done.names@.len() && done.names@[i]@ == name@;
            assert(views_of(done.names@)[i] == name@);
        }
        return Ok(());
    }
    let sig = match structs.get(name.as_str()) {
        Some(sig) => sig,
        None => {
            return Ok(());
        }
    };
    path.push(name.clone());
    let ghost p1 = path@;
    proof {
        assert(views_of(p1) =~= views_of(p0).push(name@));
        assert(path_ok(st, views_of(p1))) by {
            let v = views_of(p1);
            assert forall|k: int| 0 <= k < v.len() - 1 implies #[trigger] holds_step(st, v, k) by {
                if k < v.len() - 2 {
                    assert(holds_step(st, views_of(p0), k));
                } else {
                    assert(v[k] == views_of(p0).last());
                }
            }
            assert forall|a: int, b: int| 0 <= a < b < v.len() implies v[a] != v[b] by {
                if b == v.len() - 1 {
                    assert(views_of(p0).contains(v[a]));
                }
            }
        }
        assert(disjoint(views_of(p1), d0));
    }
    let mut k: usize = 0;
    while k < sig.field_order.len()
        invariant
            k <= sig.field_order@.len(),
            st == structs.entries@,
            assoc(st, name@) == Some(*sig),
            path@ == p1,
            views_of(p1) == views_of(p0).push(name@),
            path_ok(st, views_of(p1)),
            done.wf(),
            done_ok(st, views_of(done.names@)),
            d0.is_prefix_of(views_of(done.names@)),
            disjoint(views_of(p1), views_of(done.names@)),
            forall|q: int, b: Seq<char>| 0 <= q < k && #[trigger] spec_struct_value_dependencies(sig.field_order@[q].ty@).contains(b)
                && assoc(st, b) is Some ==> views_of(done.names@).contains(b),
        decreases sig.field_order@.len() - k,
    {
        let field = &sig.field_order[k];
        let deps = struct_value_dependencies(&field.ty);
        let ghost dv = spec_struct_value_dependencies(field.ty@);
        let mut d: usize = 0;
        while d < deps.len()
            invariant
                k < sig.field_order@.len(),
                field == sig.field_order@[k as int],
                dv == spec_struct_value_dependencies(field.ty@),
                deps@.len() == dv.len(),
                forall|i: int| 0 <= i < deps@.len() ==> deps@[i]@ == dv[i],
                d <= deps@.len(),
                st == structs.entries@,
                assoc(st, name@) == Some(*sig),
                path@ == p1,
                views_of(p1) == views_of(p0).push(name@),
                path_ok(st, views_of(p1)),
                done.wf(),
                done_ok(st, views_of(done.names@)),
                d0.is_prefix_of(views_of(done.names@)),
                disjoint(views_of(p1), views_of(done.names@)),
                forall|q: int, b: Seq<char>| 0 <= q < k && #[trigger] spec_struct_value_dependencies(sig.field_order@[q].ty@).contains(b)
                    && assoc(st, b) is Some ==> views_of(done.names@).contains(b),
                forall|i: int| 0 <= i < d && assoc(st, #[trigger] dv[i]) is Some ==> views_of(done.names@).contains(dv[i]),
            decreases deps@.len() - d,
        {
            let dep = &deps[d];
            proof {
                assert(dv.contains(dep@)) by {
                    assert(dv[d as int] == dep@);
                }
                assert(field_holds(st, name@, dep@));
            }
            match position_in(path, dep) {
                Some(start) => {
                    proof {
                        assert(views_of(p1)[start as int] == dep@);
                        assert(views_of(p1).last() == name@);
                        lemma_cycle_found(st, views_of(p1), start as int, dep@);
                    }
                    let cycle = cycle_text(path, start, dep);
                    let head = cat4("Cyclic struct definition detected through field ", name.as_str(), ".", field.name.as_str());
                    let message = cat4(head.as_str(), ": ", cycle.as_str(), "");
                    return Err(diagnostic_at(field.span, message));
                }
                None => {}
            }
            let ghost dbefore = views_of(done.names@);
            proof {
                assert forall|i: int| 0 <= i < views_of(path@).len() implies
                    crate::table::keys_of(st).contains(#[trigger] views_of(path@)[i]) by {
                    crate::table::lemma_assoc_some(st, views_of(path@)[i]);
                    let j = choose|j: int| 0 <= j < st.len() && st[j].0@ == views_of(path@)[i];
                    assert(crate::table::keys_of(st)[j] == views_of(path@)[i]);
                }
                lemma_distinct_names_bounded(views_of(path@), crate::table::keys_of(st));
                assert(path@.len() <= structs.entries@.len());
                assert(path@.len() == p0.len() + 1);
            }
            match visit_struct_value_graph(dep, structs, done, path) {
                Ok(()) => {}
                Err(e) => {
                    return Err(e);
                }
            }
            proof {
                assert(views_of(p1).last() == name@);
                assert(d0.is_prefix_of(views_of(done.names@))) by {
                    let dn = views_of(done.names@);
                    assert forall|j: int| 0 <= j < d0.len() implies d0[j] == dn[j] by {
                        assert(d0[j] == d0.subrange(0, d0.len() as int)[j]);
                        assert(dbefore[j] == dn.subrange(0, dbefore.len() as int)[j]);
                        assert(d0[j] == dbefore[j]) by {
                            assert(d0 =~= dbefore.subrange(0, d0.len() as int));
                        }
                    }
                    assert(d0 =~= dn.subrange(0, d0.len() as int));
                }
                assert forall|q: int, b: Seq<char>| 0 <= q < k && #[trigger] spec_struct_value_dependencies(sig.field_order@[q].ty@).contains(b)
                    && assoc(st, b) is Some implies views_of(done.names@).contains(b) by {
                    assert(dbefore.contains(b));
                    let j = choose|j: int| 0 <= j < dbefore.len() && dbefore[j] == b;
                    assert(views_of(done.names@)[j] == b);
                }
                assert forall|i: int| 0 <= i < d + 1 && assoc(st, #[trigger] dv[i]) is Some implies views_of(done.names@).contains(dv[i]) by {
                    if i < d {
                        assert(dbefore.contains(dv[i]));
                        let j = choose|j: int| 0 <= j < dbefore.len() && dbefore[j] == dv[i];
                        assert(views_of(done.names@)[j] == dv[i]);
                    } else {
                        assert(dv[i] == dep@);
                    }
                }
            }
            d = d + 1;
        }
        proof {
            assert forall|q: int, b: Seq<char>| 0 <= q < k + 1 && #[trigger] spec_struct_value_dependencies(sig.field_order@[q].ty@).contains(b)
                && assoc(st, b) is Some implies views_of(done.names@).contains(b) by {
                if q == k {
                    let i = choose|i: int| 0 <= i < dv.len() && dv[i] == b;
                    assert(assoc(st, dv[i]) is Some);
                }
            }
        }
        k = k + 1;
    }
    path.pop();
    let ghost dlast = views_of(done.names@);
    proof {
        assert(path@ =~= p0) by {
            assert(p1 =~= p0.push(p1.last()));
        }
        assert(!dlast.contains(name@)) by {
            assert(views_of(p1)[views_of(p1).len() - 1] == name@);
        }
    }
    proof {
        if done.view_set().contains(name@) {
            let i = choose|i: int| 0 <= i < done.names@.len() && done.names@[i]@ == name@;
            assert(dlast[i] == name@);
        }
    }
    done.insert(name.clone());
    proof {
        let dn = views_of(done.names@);
        assert(dn =~= dlast.push(name@));
        assert(done_ok(st, dn)) by {
            assert forall|a: int, b: int| 0 <= a < b < dn.len() implies dn[a] != dn[b] by {
                if b == dn.len() - 1 {
                    assert(dlast.contains(dn[a]));
                }
            }
            assert forall|i: int, b: Seq<char>| 0 <= i < dn.len() && #[trigger] holds_struct(st, dn[i], b)
                implies exists|j: int| 0 <= j < i && dn[j] == b by {
                if i < dlast.len() {
                    assert(dn[i] == dlast[i]);
                    assert(holds_struct(st, dlast[i], b));
                    let j = choose|j: int| 0 <= j < i && dlast[j] == b;
                    assert(dn[j] == b);
                } else {
                    assert(dn[i] == name@);
                    let q = choose|q: int| 0 <= q < sig.field_order@.len()
                        && #[trigger] spec_struct_value_dependencies(sig.field_order@[q].ty@).contains(b);
                    assert(dlast.contains(b));
                    let j = choose|j: int| 0 <= j < dlast.len() && dlast[j] == b;
                    assert(dn[j] == b);
                }
            }
        }
        assert(d0.is_prefix_of(dn)) by {
            assert forall|j: int| 0 <= j < d0.len() implies d0[j] == dn[j] by {
                assert(d0 =~= dlast.subrange(0, d0.len() as int));
                assert(d0[j] == dlast[j]);
            }
            assert(d0 =~= dn.subrange(0, d0.len() as int));
        }
        assert(disjoint(views_of(p0), dn)) by {
            assert forall|q: int| 0 <= q < views_of(p0).len() implies !dn.contains(#[trigger] views_of(p0)[q]) by {
                assert(views_of(p1)[q] == views_of(p0)[q]);
                assert(!dlast.contains(views_of(p1)[q]));
                if dn.contains(views_of(p0)[q]) {
                    let j = choose|j: int| 0 <= j < dn.len() && dn[j] == views_of(p0)[q];
                    if j < dlast.len() {
                        assert(dlast[j] == dn[j]);
                    } else {
                        assert(views_of(p1)[views_of(p1).len() - 1] == name@);
                    }
                }
            }
        }
        assert(dn[dn.len() - 1] == name@);
    }
    Ok(())
}

/// Checks that no struct holds itself, through any chain of by-value fields,
/// searching the structs in the order of their names.
pub fn validate_struct_value_cycles(structs: &Table<StructSig>) -> (r: Result<(), Diagnostic>)
    ensures
        r is Ok ==> exists|order: Seq<Seq<char>>| value_order(structs.entries@, order),
        r is Err ==> exists|c: Seq<Seq<char>>| value_cycle(structs.entries@, c),
{
    let ghost st = structs.entries@;
    let mut names: Vec<String> = Vec::new();
    let mut i: usize = 0;
    while i < structs.entries.len()
        invariant
            i <= st.len(),
            st == structs.entries@,
            strictly_sorted(views_of(names@)),
            forall|x: Seq<char>| #[trigger] views_of(names@).contains(x) <==> exists|j: int| 0 <= j < i && st[j].0@ == x,
        decreases st.len() - i,
    {
        let ghost before = views_of(names@);
        insert_sorted(&mut names, structs.entries[i].0.clone());
        proof {
            assert forall|x: Seq<char>| #[trigger] views_of(names@).contains(x) <==> exists|j: int| 0 <= j < i + 1 && st[j].0@ == x by {
                if exists|j: int| 0 <= j < i + 1 && st[j].0@ == x {
                    let j = choose|j: int| 0 <= j < i + 1 && st[j].0@ == x;
                    if j < i {
                        assert(before.contains(x));
                    }
                }
            }
        }
        i = i + 1;
    }
    let mut done = NameSet::new();
    proof {
        assert(views_of(done.names@) =~= Seq::<Seq<char>>::empty());
    }
    let mut k: usize = 0;
    while k < names.len()
        invariant
            k <= names@.len(),
            st == structs.entries@,
            forall|x: Seq<char>| #[trigger] views_of(names@).contains(x) <==> exists|j: int| 0 <= j < st.len() && st[j].0@ == x,
            done.wf(),
            done_ok(st, views_of(done.names@)),
            forall|j: int| 0 <= j < k ==> views_of(done.names@).contains(#[trigger] names@[j]@),
        decreases names@.len() - k,
    {
        let mut path: Vec<String> = Vec::new();
        let ghost dbefore = views_of(done.names@);
        proof {
            assert(views_of(path@) =~= Seq::<Seq<char>>::empty());
            crate::table::lemma_assoc_some(st, names@[k as int]@);
            assert(views_of(names@)[k as int] == names@[k as int]@);
            assert(views_of(names@).contains(names@[k as int]@));
        }
        match visit_struct_value_graph(&names[k], structs, &mut done, &mut path) {
            Ok(()) => {}
            Err(e) => {
                return Err(e);
            }
        }
        proof {
            assert forall|j: int| 0 <= j < k + 1 implies views_of(done.names@).contains(#[trigger] names@[j]@) by {
                if j < k {
                    assert(dbefore.contains(names@[j]@));
                    let q = choose|q: int| 0 <= q < dbefore.len() && dbefore[q] == names@[j]@;
                    assert(dbefore =~= views_of(done.names@).subrange(0, dbefore.len() as int));
                    assert(views_of(done.names@)[q] == names@[j]@);
                }
            }
        }
        k = k + 1;
    }
    proof {
        let order = views_of(done.names@);
        assert forall|n: Seq<char>| #[trigger] assoc(st, n) is Some <==> order.contains(n) by {
            if assoc(st, n) is Some {
                crate::table::lemma_assoc_some(st, n);
                assert(views_of(names@).contains(n));
                let j = choose|j: int| 0 <= j < views_of(names@).len() && views_of(names@)[j] == n;
                assert(order.contains(names@[j]@));
            }
            if order.contains(n) {
                let j = choose|j: int| 0 <= j < order.len() && order[j] == n;
                assert(assoc(st, order[j]) is Some);
            }
        }
        assert(value_order(st, order));
    }
    Ok(())
}

// ---------------------------------------------------------------------------
// The whole program.

/// The global constants are those the program's constant declarations
/// resolve to, each evaluated with those bound before it, until no further
/// one resolves.
pub open spec fn constants_of(c: Seq<(String, i32)>, ast: CompUnit) -> bool {
    constants_closed(c, const_candidates(ast@), const_candidates(ast@).len() as int)
        && constants_justified(c, const_candidates(ast@))
}

/// Every definition of the program is accepted against the signatures `p`.
/// The diagnostic of the first rejected definition, where it is a function
/// whose parameters and body are accepted.
pub open spec fn first_func_diag(gs: Seq<GlobalDef>, p: SemanticProgram, r: Result<(), Diagnostic>) -> bool {
    forall|k: int| 0 <= k < gs.len() && (forall|j: int| 0 <= j < k ==> #[trigger] global_ok(gs[j], p))
        && #[trigger] gs[k] is FuncDef ==> crate::validate::func_diag(gs[k]->FuncDef_0, p, r)
}

pub open spec fn definitions_ok(gs: Seq<GlobalDef>, p: SemanticProgram) -> bool {
    forall|i: int| 0 <= i < gs.len() ==> #[trigger] global_ok(gs[i], p)
}

impl CompUnit {
    /// The signatures of the program's functions, structs and globals, with
    /// `constants` for the global constants; fails on the first definition
    /// that clashes or has an invalid type, or on a struct that holds itself.
    pub fn semantic_program_with(&self, constants: Table<i32>) -> (r: Result<SemanticProgram, Diagnostic>)
        ensures
            match r {
                Ok(p) => program_ok(self.global_defs@, constants.entries@)
                    && built(p, self.global_defs@, constants.entries@)
                    && exists|order: Seq<Seq<char>>| value_order(p.structs.entries@, order),
                Err(_) => !program_ok(self.global_defs@, constants.entries@)
                    || exists|p: SemanticProgram, c: Seq<Seq<char>>|
                        built(p, self.global_defs@, constants.entries@) && value_cycle(p.structs.entries@, c),
            },
            !structs_distinct(self.global_defs@) ==> (r matches Err(d) && repeated_struct_diag(self.global_defs@, d)),
    {
        let gs = &self.global_defs;
        let ghost env = constants.entries@;
        let names = match collect_struct_names(gs) {
            Ok(n) => n,
            Err(e) => {
                return Err(e);
            }
        };
        let structs = match build_structs(gs, &constants, &names) {
            Ok(t) => t,
            Err(e) => {
                return Err(e);
            }
        };
        let builtins = builtin_function_sigs();
        let globals = match build_globals(gs, &constants, &names, &builtins) {
            Ok(t) => t,
            Err(e) => {
                return Err(e);
            }
        };
        let funcs = match build_funcs(gs, &constants, &names, &globals, builtins) {
            Ok(t) => t,
            Err(e) => {
                return Err(e);
            }
        };
        let program = SemanticProgram { funcs, structs, globals, constants };
        proof {
            assert(program_ok(gs@, env));
            assert(built(program, gs@, env));
        }
        match validate_struct_value_cycles(&program.structs) {
            Ok(()) => Ok(program),
            Err(e) => Err(e),
        }
    }

    /// Checks every definition against the signatures of `program`.
    pub fn validate_definitions(&self, program: &SemanticProgram) -> (r: Result<(), Diagnostic>)
        ensures
            r is Ok <==> definitions_ok(self.global_defs@, *program),
            first_func_diag(self.global_defs@, *program, r),
    {
        let mut i: usize = 0;
        while i < self.global_defs.len()
            invariant
                i <= self.global_defs@.len(),
                forall|j: int| 0 <= j < i ==> #[trigger] global_ok(self.global_defs@[j], *program),
            decreases self.global_defs@.len() - i,
        {
            match self.global_defs[i].validate_semantics(program) {
                Ok(()) => {}
                Err(e) => {
                    proof {
                        let gs = self.global_defs@;
                        assert forall|k: int| 0 <= k < gs.len() && (forall|j: int| 0 <= j < k ==> #[trigger] global_ok(gs[j], *program))
                            && #[trigger] gs[k] is FuncDef implies crate::validate::func_diag(gs[k]->FuncDef_0, *program, Err::<(), Diagnostic>(e)) by {
                            if k < i {
                                assert(global_ok(gs[k], *program));
                                crate::validate::lemma_func_diag_ok(gs[k]->FuncDef_0, *program, Err::<(), Diagnostic>(e));
                            } else if k > i {
                                assert(global_ok(gs[i as int], *program));
                            }
                        }
                    }
                    return Err(e);
                }
            }
            i = i + 1;
        }
        proof {
            let gs = self.global_defs@;
            assert forall|k: int| 0 <= k < gs.len() && (forall|j: int| 0 <= j < k ==> #[trigger] global_ok(gs[j], *program))
                && #[trigger] gs[k] is FuncDef implies crate::validate::func_diag(gs[k]->FuncDef_0, *program, Ok::<(), Diagnostic>(())) by {
                assert(global_ok(gs[k], *program));
                crate::validate::lemma_func_diag_ok(gs[k]->FuncDef_0, *program, Ok::<(), Diagnostic>(()));
            }
        }
        Ok(())
    }

    /// Checks the program's definitions and every function body.
    pub fn validate_semantics(&self) -> (r: Result<(), Diagnostic>)
        ensures
            r is Ok ==> semantics_accepted(*self),
            r is Err ==> semantics_rejected(*self),
            !structs_distinct(self.global_defs@) ==> (r matches Err(d) && repeated_struct_diag(self.global_defs@, d)),
            signatures_rejected(*self) || definitions_diag(*self, r),
    {
        let constants = precollect_global_constants(self);
        let ghost c = constants.entries@;
        let ghost gs = self.global_defs@;
        let program = match self.semantic_program_with(constants) {
            Ok(p) => p,
            Err(e) => {
                proof {
                    if program_ok(gs, c) {
                        let (p, cy) = choose|p: SemanticProgram, cy: Seq<Seq<char>>| built(p, gs, c) && value_cycle(p.structs.entries@, cy);
                        assert(value_cycle(p.structs.entries@, cy));
                        assert(exists|cy2: Seq<Seq<char>>| value_cycle(p.structs.entries@, cy2));
                        assert(built(p, gs, c));
                        assert(constants_of(c, *self));
                        assert(rejected_with(*self, c));
                    }
                    assert(rejected_with(*self, c));
                    assert(constants_of(c, *self));
                    if program_ok(gs, c) {
                        let (p, cy) = choose|p: SemanticProgram, cy: Seq<Seq<char>>| built(p, gs, c) && value_cycle(p.structs.entries@, cy);
                        assert(built(p, gs, c));
                    }
                    assert(signatures_rejected(*self));
                }
                return Err(e);
            }
        };
        let r = self.validate_definitions(&program);
        proof {
            assert(constants_of(c, *self));
            assert(built(program, gs, program.constants.entries@));
            assert(definitions_diag(*self, r));
        }
        match r {
            Ok(()) => {
                proof {
                    assert(accepted_by(*self, program));
                }
                Ok(())
            }
            Err(e) => {
                proof {
                    assert(rejected_with(*self, c));
                }
                Err(e)
            }
        }
    }

    /// Async syntax is checked together with the rest of the semantics.
    pub fn validate_async_syntax(&self) -> (r: Result<(), Diagnostic>)
        ensures
            r is Ok ==> semantics_accepted(*self),
            r is Err ==> semantics_rejected(*self),
            !structs_distinct(self.global_defs@) ==> (r matches Err(d) && repeated_struct_diag(self.global_defs@, d)),
            signatures_rejected(*self) || definitions_diag(*self, r),
    {
        self.validate_semantics()
    }
}

/// The program is accepted with signatures `p`: its constants are those of
/// its constant declarations, its definitions are valid, no struct holds
/// itself and every definition is accepted.
pub open spec fn accepted_by(ast: CompUnit, p: SemanticProgram) -> bool {
    &&& constants_of(p.constants.entries@, ast)
    &&& program_ok(ast.global_defs@, p.constants.entries@)
    &&& built(p, ast.global_defs@, p.constants.entries@)
    &&& exists|order: Seq<Seq<char>>| value_order(p.structs.entries@, order)
    &&& definitions_ok(ast.global_defs@, p)
}

pub open spec fn semantics_accepted(ast: CompUnit) -> bool {
    exists|p: SemanticProgram| #[trigger] accepted_by(ast, p)
}

/// With global constants `c`, the program's definitions are invalid, or a
/// struct holds itself, or some definition is rejected.
pub open spec fn rejected_with(ast: CompUnit, c: Seq<(String, i32)>) -> bool {
    &&& constants_of(c, ast)
    &&& {
        ||| !program_ok(ast.global_defs@, c)
        ||| exists|p: SemanticProgram| #[trigger] built(p, ast.global_defs@, c) && {
            ||| exists|cy: Seq<Seq<char>>| value_cycle(p.structs.entries@, cy)
            ||| !definitions_ok(ast.global_defs@, p)
        }
    }
}

/// The program's signatures cannot be built: its definitions clash or have
/// invalid types, or a struct holds itself.
pub open spec fn signatures_rejected(ast: CompUnit) -> bool {
    exists|c: Seq<(String, i32)>| #[trigger] constants_of(c, ast) && {
        ||| !program_ok(ast.global_defs@, c)
        ||| exists|p: SemanticProgram| #[trigger] built(p, ast.global_defs@, c) && exists|cy: Seq<Seq<char>>| value_cycle(p.structs.entries@, cy)
    }
}

/// With signatures `p` built from the program, the result reports the first
/// rejected definition where that is a function whose body is accepted.
pub open spec fn definitions_diag(ast: CompUnit, r: Result<(), Diagnostic>) -> bool {
    exists|p: SemanticProgram| #[trigger] built(p, ast.global_defs@, p.constants.entries@)
        && constants_of(p.constants.entries@, ast)
        && program_ok(ast.global_defs@, p.constants.entries@)
        && first_func_diag(ast.global_defs@, p, r)
}

pub open spec fn semantics_rejected(ast: CompUnit) -> bool {
    exists|c: Seq<(String, i32)>| #[trigger] rejected_with(ast, c)
}

/// The position of `x` in a list without repetitions.
pub open spec fn index_of_name(order: Seq<Seq<char>>, x: Seq<char>) -> int {
    choose|i: int| 0 <= i < order.len() && order[i] == x
}

proof fn lemma_cycle_descends(structs: Seq<(String, StructSig)>, order: Seq<Seq<char>>, c: Seq<Seq<char>>, m: int)
    requires
        value_order(structs, order),
        value_cycle(structs, c),
        0 <= m < c.len(),
    ensures
        order.contains(c[m]),
        index_of_name(order, c[m]) <= index_of_name(order, c[0]) - m,
    decreases m,
{
    if m == 0 {
        assert(holds_step(structs, c, 0));
        assert(assoc(structs, c[0]) is Some);
        assert(order.contains(c[0]));
    } else {
        lemma_cycle_descends(structs, order, c, m - 1);
        assert(holds_step(structs, c, m - 1));
        assert(holds_struct(structs, c[m - 1], c[m]));
        let a = index_of_name(order, c[m - 1]);
        assert(0 <= a < order.len() && order[a] == c[m - 1]);
        assert(holds_struct(structs, order[a], c[m]));
        let j = choose|j: int| 0 <= j < a && order[j] == c[m];
        assert(order.contains(c[m]));
        let b = index_of_name(order, c[m]);
        assert(order[b] == c[m]);
        assert(b == j) by {
            if b != j {
                assert(order[b] == order[j]);
            }
        }
    }
}

/// A struct cycle and an order of the structs that puts each after the
/// structs it holds cannot both exist, so the cycle check answers exactly.
pub proof fn lemma_order_excludes_cycle(structs: Seq<(String, StructSig)>, order: Seq<Seq<char>>, c: Seq<Seq<char>>)
    requires
        value_order(structs, order),
    ensures
        !value_cycle(structs, c),
{
    if value_cycle(structs, c) {
        lemma_cycle_descends(structs, order, c, c.len() - 1);
        assert(c[c.len() - 1] == c[0]);
    }
}

} // verus!
