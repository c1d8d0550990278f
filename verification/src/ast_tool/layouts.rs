use vstd::prelude::*;
use crate::ast_tool::background::{value_align, value_size, Background, WORD_SIZE};
use crate::ast_tool::symbols::{declared_dims, declared_type, folded, flatten_var_decl, resolve_decl_value_type, type_btype};
use crate::ast_tool::{mentions_void, spec_value_type, SValueType, StructFieldLayout, StructLayout, ValueType};
use crate::lalr::{SDecl, SExp, SField, SStruct, SType, SVarDecl, StructDef};
use crate::llvm::layout::spec_align_up;
use crate::syntax::spec_var_decl_name;
use crate::table::{assoc, Table};

verus! {

broadcast use vstd::std_specs::vec::group_vec_axioms;

// ---------------------------------------------------------------------------
// Laying out structs.

/// A struct layout as plain values: fields with name, type and offset, then
/// size and alignment.
pub struct LayoutView {
    pub fields: Seq<(Seq<char>, SValueType, nat)>,
    pub size: nat,
    pub align: nat,
}

pub open spec fn fields_view(fs: Seq<StructFieldLayout>) -> Seq<(Seq<char>, SValueType, nat)> {
    fs.map_values(|f: StructFieldLayout| (f.name@, f.ty@, f.offset as nat))
}

pub open spec fn layout_view(l: StructLayout) -> LayoutView {
    LayoutView {
        fields: fields_view(l.fields@),
        size: l.size as nat,
        align: l.align as nat,
    }
}

pub open spec fn layouts_view(ls: Seq<(String, StructLayout)>) -> Seq<(Seq<char>, LayoutView)> {
    ls.map_values(|e: (String, StructLayout)| (e.0@, layout_view(e.1)))
}

pub open spec fn find_layout(lv: Seq<(Seq<char>, LayoutView)>, n: Seq<char>) -> Option<LayoutView>
    decreases lv.len(),
{
    if lv.len() == 0 {
        None
    } else if lv.last().0 == n {
        Some(lv.last().1)
    } else {
        find_layout(lv.drop_last(), n)
    }
}

proof fn lemma_find_layout(ls: Seq<(String, StructLayout)>, n: Seq<char>)
    ensures
        match assoc(ls, n) {
            Some(l) => find_layout(layouts_view(ls), n) == Some(layout_view(l)),
            None => find_layout(layouts_view(ls), n) is None,
        },
    decreases ls.len(),
{
    if ls.len() > 0 {
        assert(layouts_view(ls).drop_last() =~= layouts_view(ls.drop_last()));
        lemma_find_layout(ls.drop_last(), n);
    }
}

pub open spec fn align_of(v: SValueType, lv: Seq<(Seq<char>, LayoutView)>) -> Option<nat>
    decreases v,
{
    match v {
        SValueType::Int => Some(WORD_SIZE as nat),
        SValueType::Pointer(_) => Some(WORD_SIZE as nat),
        SValueType::Array(_, inner) => align_of(*inner, lv),
        SValueType::Struct(n) => match find_layout(lv, n) {
            Some(l) => Some(l.align),
            None => None,
        },
    }
}

pub open spec fn size_of(v: SValueType, lv: Seq<(Seq<char>, LayoutView)>) -> Option<nat>
    decreases v,
{
    match v {
        SValueType::Int => Some(WORD_SIZE as nat),
        SValueType::Pointer(_) => Some(WORD_SIZE as nat),
        SValueType::Array(len, inner) => match size_of(*inner, lv) {
            Some(s) => Some(s * (len as nat)),
            None => None,
        },
        SValueType::Struct(n) => match find_layout(lv, n) {
            Some(l) => Some(l.size),
            None => None,
        },
    }
}

proof fn lemma_sizes_view(v: SValueType, ls: Seq<(String, StructLayout)>)
    ensures
        value_align(v, ls) == align_of(v, layouts_view(ls)),
        value_size(v, ls) == size_of(v, layouts_view(ls)),
    decreases v,
{
    match v {
        SValueType::Array(_, inner) => {
            lemma_sizes_view(*inner, ls);
        },
        SValueType::Struct(n) => {
            lemma_find_layout(ls, n);
        },
        _ => {},
    }
}

/// Fields laid out so far: name, type and offset of each, the offset where
/// the next one may start, and the alignment so far.
pub type LayState = (Seq<(Seq<char>, SValueType, nat)>, nat, nat);

/// `value` rounded up to a multiple of `align`, where that fits in a `usize`.
pub open spec fn checked_align_up(value: nat, align: nat) -> Option<nat> {
    if align == 0 {
        Some(value)
    } else if value + align - 1 <= usize::MAX {
        Some(spec_align_up(value, align))
    } else {
        None
    }
}

/// The next field, declared by `d` with type `ty`: aligned after the fields
/// before it. `None` where the compiler stops: a `void` field, a dimension
/// that is no constant, a struct not laid out yet, a size past `usize`.
pub open spec fn lay_decl(ty: SType, d: SDecl, st: LayState, lv: Seq<(Seq<char>, LayoutView)>, bg: Background) -> Option<LayState> {
    if mentions_void(type_btype(ty)) {
        None
    } else {
        match declared_type(d.var, spec_value_type(type_btype(ty)), bg) {
            Some(Some(t)) => match declared_dims(d.var, bg) {
                Some(Some(_)) => match align_of(t, lv) {
                    Some(fa) => match size_of(t, lv) {
                        Some(fs) => if fs <= usize::MAX {
                            match checked_align_up(st.1, fa) {
                                Some(o) => if o + fs <= usize::MAX {
                                    Some((st.0.push((spec_var_decl_name(d.var), t, o)), o + fs, if st.2 < fa { fa } else { st.2 }))
                                } else {
                                    None
                                },
                                None => None,
                            }
                        } else {
                            None
                        },
                        None => None,
                    },
                    None => None,
                },
                _ => None,
            },
            _ => None,
        }
    }
}

pub open spec fn lay_decls(ty: SType, ds: Seq<SDecl>, k: int, st: LayState, lv: Seq<(Seq<char>, LayoutView)>, bg: Background) -> Option<LayState>
    decreases k,
{
    if k <= 0 || k > ds.len() {
        Some(st)
    } else {
        match lay_decls(ty, ds, k - 1, st, lv, bg) {
            Some(s1) => lay_decl(ty, ds[k - 1], s1, lv, bg),
            None => None,
        }
    }
}

pub open spec fn lay_fields(fs: Seq<SField>, k: int, st: LayState, lv: Seq<(Seq<char>, LayoutView)>, bg: Background) -> Option<LayState>
    decreases k,
{
    if k <= 0 || k > fs.len() {
        Some(st)
    } else {
        match lay_fields(fs, k - 1, st, lv, bg) {
            Some(s1) => lay_decls(fs[k - 1].ty, fs[k - 1].decls, fs[k - 1].decls.len() as int, s1, lv, bg),
            None => None,
        }
    }
}

/// The layout of a struct: its fields one after another, each at the next
/// offset its alignment allows, the whole aligned as its most aligned field
/// and at least a word.
pub open spec fn def_layout(def: SStruct, lv: Seq<(Seq<char>, LayoutView)>, bg: Background) -> Option<LayoutView> {
    match lay_fields(def.fields, def.fields.len() as int, (Seq::empty(), 0, WORD_SIZE as nat), lv, bg) {
        Some((fields, offset, align)) => match checked_align_up(offset, align) {
            Some(size) => Some(LayoutView { fields, size, align }),
            None => None,
        },
        None => None,
    }
}

/// The layouts after laying out, in turn, the first `k` structs defined,
/// skipping those laid out already.
pub open spec fn resolve_run(defs: Seq<(String, StructDef)>, k: int, lv: Seq<(Seq<char>, LayoutView)>, bg: Background) -> Option<Seq<(Seq<char>, LayoutView)>>
    decreases k,
{
    if k <= 0 || k > defs.len() {
        Some(lv)
    } else {
        match resolve_run(defs, k - 1, lv, bg) {
            Some(l1) => {
                let name = defs[k - 1].0@;
                if find_layout(l1, name) is Some {
                    Some(l1)
                } else {
                    match assoc(defs, name) {
                        Some(def) => match def_layout(def@, l1, bg) {
                            Some(l) => Some(l1.push((name, l))),
                            None => None,
                        },
                        None => None,
                    }
                }
            },
            None => None,
        }
    }
}

// ---------------------------------------------------------------------------
// Frames: folding constants reads the scopes and the constants alone.

proof fn lemma_folded_frame(e: SExp, b1: Background, b2: Background)
    requires
        b1.rename_manager == b2.rename_manager,
        b1.constant_map == b2.constant_map,
    ensures
        folded(e, b1) == folded(e, b2),
    decreases e,
{
    match e {
        SExp::Spanned(inner, _) => lemma_folded_frame(*inner, b1, b2),
        SExp::UnaryExp(_, inner) => lemma_folded_frame(*inner, b1, b2),
        SExp::BinaryExp(_, l, r) => {
            lemma_folded_frame(*l, b1, b2);
            lemma_folded_frame(*r, b1, b2);
        },
        _ => {},
    }
}

proof fn lemma_declared_frame(v: SVarDecl, base: SValueType, b1: Background, b2: Background)
    requires
        b1.rename_manager == b2.rename_manager,
        b1.constant_map == b2.constant_map,
    ensures
        declared_type(v, base, b1) == declared_type(v, base, b2),
        declared_dims(v, b1) == declared_dims(v, b2),
    decreases v,
{
    if let SVarDecl::Array(inner, len) = v {
        lemma_folded_frame(len, b1, b2);
        lemma_declared_frame(*inner, base, b1, b2);
    }
}

proof fn lemma_lay_decls_prefix(ty: SType, ds: Seq<SDecl>, j: int, k: int, st: LayState, lv: Seq<(Seq<char>, LayoutView)>, bg: Background)
    requires
        0 <= j <= k <= ds.len(),
        lay_decls(ty, ds, k, st, lv, bg) is Some,
    ensures
        lay_decls(ty, ds, j, st, lv, bg) is Some,
    decreases k - j,
{
    if j < k {
        lemma_lay_decls_prefix(ty, ds, j, k - 1, st, lv, bg);
    }
}

proof fn lemma_lay_fields_prefix(fs: Seq<SField>, j: int, k: int, st: LayState, lv: Seq<(Seq<char>, LayoutView)>, bg: Background)
    requires
        0 <= j <= k <= fs.len(),
        lay_fields(fs, k, st, lv, bg) is Some,
    ensures
        lay_fields(fs, j, st, lv, bg) is Some,
    decreases k - j,
{
    if j < k {
        lemma_lay_fields_prefix(fs, j, k - 1, st, lv, bg);
    }
}

fn align_up_exact(value: usize, align: usize) -> (r: usize)
    requires
        align == 0 || value + align - 1 <= usize::MAX,
    ensures
        checked_align_up(value as nat, align as nat) == Some(r as nat),
{
    if align == 0 {
        value
    } else {
        let n = value + (align - 1);
        proof {
            assert(n / align * align <= n) by (nonlinear_arith)
                requires align > 0;
        }
        n / align * align
    }
}

fn copy_layout(l: &StructLayout) -> (r: StructLayout)
    ensures
        r.name@ == l.name@,
        layout_view(r) == layout_view(*l),
{
    let mut fields: Vec<StructFieldLayout> = Vec::new();
    let mut i: usize = 0;
    while i < l.fields.len()
        invariant
            i <= l.fields@.len(),
            fields@.len() == i,
            forall|k: int| 0 <= k < i ==> (#[trigger] fields@[k]).name@ == l.fields@[k].name@
                && fields@[k].ty@ == l.fields@[k].ty@ && fields@[k].offset == l.fields@[k].offset,
        decreases l.fields.len() - i,
    {
        let f = &l.fields[i];
        fields.push(StructFieldLayout { name: f.name.clone(), ty: f.ty.copy(), offset: f.offset });
        i = i + 1;
    }
    let r = StructLayout { name: l.name.clone(), fields, size: l.size, align: l.align };
    proof {
        assert(layout_view(r).fields =~= layout_view(*l).fields);
    }
    r
}

impl Background {
    /// Lays out struct `name` from its definition, unless it is laid out
    /// already; a struct being laid out may not be met again.
    fn ensure_struct_layout(&mut self, name: &str, visiting: &mut Vec<String>) -> (r: StructLayout)
        requires
            find_layout(layouts_view(old(self).struct_layouts.entries@), name@) is None ==> {
                &&& forall|i: int| 0 <= i < old(visiting)@.len() ==> (#[trigger] old(visiting)@[i])@ != name@
                &&& assoc(old(self).struct_defs.entries@, name@) matches Some(def)
                    && def_layout(def@, layouts_view(old(self).struct_layouts.entries@), *old(self)) is Some
            },
        ensures
            final(visiting)@ == old(visiting)@,
            final(self).rename_manager == old(self).rename_manager,
            final(self).constant_map == old(self).constant_map,
            final(self).struct_defs == old(self).struct_defs,
            final(self).global_symbols == old(self).global_symbols,
            final(self).variable_types == old(self).variable_types,
            final(self).temp_counter == old(self).temp_counter,
            final(self).branch_counter == old(self).branch_counter,
            final(self).next_bb == old(self).next_bb,
            final(self).loop_next == old(self).loop_next,
            final(self).loop_entry == old(self).loop_entry,
            match find_layout(layouts_view(old(self).struct_layouts.entries@), name@) {
                Some(l) => final(self).struct_layouts == old(self).struct_layouts && layout_view(r) == l,
                None => {
                    let def = assoc(old(self).struct_defs.entries@, name@)->Some_0;
                    &&& Some(layout_view(r)) == def_layout(def@, layouts_view(old(self).struct_layouts.entries@), *old(self))
                    &&& layouts_view(final(self).struct_layouts.entries@)
                        == layouts_view(old(self).struct_layouts.entries@).push((name@, layout_view(r)))
                },
            },
    {
        let ghost lv = layouts_view(self.struct_layouts.entries@);
        let ghost bg0 = *self;
        proof {
            lemma_find_layout(self.struct_layouts.entries@, name@);
        }
        if let Some(layout) = self.struct_layouts.get(name) {
            return copy_layout(layout);
        }
        visiting.push(name.to_owned());
        let def = match self.struct_defs.get(name) {
            Some(d) => d.copy(),
            None => {
                proof {
                    assert(false);
                }
                return copy_layout(&self.struct_layouts.entries[0].1);
            }
        };
        let ghost sdef = def@;
        let mut fields: Vec<StructFieldLayout> = Vec::new();
        let mut offset: usize = 0;
        let mut align: usize = WORD_SIZE;
        let mut i: usize = 0;
        proof {
            assert(fields_view(fields@) =~= Seq::<(Seq<char>, SValueType, nat)>::empty());
        }
        while i < def.fields.len()
            invariant
                i <= sdef.fields.len(),
                sdef == def@,
                *self == bg0,
                lv == layouts_view(self.struct_layouts.entries@),
                lay_fields(sdef.fields, sdef.fields.len() as int, (Seq::empty(), 0, WORD_SIZE as nat), lv, bg0) is Some,
                lay_fields(sdef.fields, i as int, (Seq::empty(), 0, WORD_SIZE as nat), lv, bg0)
                    == Some((fields_view(fields@), offset as nat, align as nat)),
            decreases sdef.fields.len() - i,
        {
            proof {
                lemma_lay_fields_prefix(sdef.fields, i + 1, sdef.fields.len() as int, (Seq::empty(), 0, WORD_SIZE as nat), lv, bg0);
            }
            let field = &def.fields[i];
            let ghost sf = sdef.fields[i as int];
            let ghost st_i = (fields_view(fields@), offset as nat, align as nat);
            proof {
                assert(field@ == sf);
                assert(lay_fields(sdef.fields, i + 1, (Seq::empty(), 0, WORD_SIZE as nat), lv, bg0)
                    == lay_decls(sf.ty, sf.decls, sf.decls.len() as int, st_i, lv, bg0));
            }
            let mut j: usize = 0;
            while j < field.decls.len()
                invariant
                    j <= sf.decls.len(),
                    field@ == sf,
                    *self == bg0,
                    lv == layouts_view(self.struct_layouts.entries@),
                    lay_decls(sf.ty, sf.decls, sf.decls.len() as int, st_i, lv, bg0) is Some,
                    lay_decls(sf.ty, sf.decls, j as int, st_i, lv, bg0) == Some((fields_view(fields@), offset as nat, align as nat)),
                decreases sf.decls.len() - j,
            {
                proof {
                    lemma_lay_decls_prefix(sf.ty, sf.decls, j + 1, sf.decls.len() as int, st_i, lv, bg0);
                }
                let decl = &field.decls[j];
                let ghost sd = sf.decls[j as int];
                let ghost cur = (fields_view(fields@), offset as nat, align as nat);
                proof {
                    assert(decl@ == sd);
                    assert(lay_decls(sf.ty, sf.decls, j + 1, st_i, lv, bg0) == lay_decl(sf.ty, sd, cur, lv, bg0));
                    let t = declared_type(sd.var, spec_value_type(type_btype(sf.ty)), bg0)->Some_0->Some_0;
                    lemma_sizes_view(t, self.struct_layouts.entries@);
                }
                let field_ty = resolve_decl_value_type(&field.ty, &decl.var, self);
                let field_name = match flatten_var_decl(&decl.var, self) {
                    Some((n, _)) => n,
                    None => {
                        proof {
                            assert(false);
                        }
                        String::new()
                    }
                };
                let field_align = field_ty.align(self);
                let field_size = field_ty.size(self);
                if align < field_align {
                    align = field_align;
                }
                offset = align_up_exact(offset, field_align);
                let ghost before = fields@;
                fields.push(StructFieldLayout { name: field_name, ty: field_ty, offset });
                proof {
                    assert(fields_view(fields@) =~= fields_view(before).push((spec_var_decl_name(sd.var), fields@.last().ty@, offset as nat)));
                }
                offset = offset + field_size;
                j = j + 1;
            }
            i = i + 1;
        }
        proof {
            lemma_sizes_view(SValueType::Int, self.struct_layouts.entries@);
        }
        let size = align_up_exact(offset, align);
        visiting.pop();
        let layout = StructLayout { name: name.to_owned(), fields, size, align };
        let copy = copy_layout(&layout);
        self.struct_layouts.insert(name.to_owned(), copy);
        layout
    }
}

proof fn lemma_lay_decls_frame(ty: SType, ds: Seq<SDecl>, k: int, st: LayState, lv: Seq<(Seq<char>, LayoutView)>, b1: Background, b2: Background)
    requires
        b1.rename_manager == b2.rename_manager,
        b1.constant_map == b2.constant_map,
    ensures
        lay_decls(ty, ds, k, st, lv, b1) == lay_decls(ty, ds, k, st, lv, b2),
    decreases k,
{
    if 0 < k <= ds.len() {
        lemma_lay_decls_frame(ty, ds, k - 1, st, lv, b1, b2);
        lemma_declared_frame(ds[k - 1].var, spec_value_type(type_btype(ty)), b1, b2);
    }
}

proof fn lemma_lay_fields_frame(fs: Seq<SField>, k: int, st: LayState, lv: Seq<(Seq<char>, LayoutView)>, b1: Background, b2: Background)
    requires
        b1.rename_manager == b2.rename_manager,
        b1.constant_map == b2.constant_map,
    ensures
        lay_fields(fs, k, st, lv, b1) == lay_fields(fs, k, st, lv, b2),
    decreases k,
{
    if 0 < k <= fs.len() {
        lemma_lay_fields_frame(fs, k - 1, st, lv, b1, b2);
        let s1 = lay_fields(fs, k - 1, st, lv, b1);
        if s1 is Some {
            lemma_lay_decls_frame(fs[k - 1].ty, fs[k - 1].decls, fs[k - 1].decls.len() as int, s1->Some_0, lv, b1, b2);
        }
    }
}

proof fn lemma_resolve_run_prefix(defs: Seq<(String, StructDef)>, j: int, k: int, lv: Seq<(Seq<char>, LayoutView)>, bg: Background)
    requires
        0 <= j <= k <= defs.len(),
        resolve_run(defs, k, lv, bg) is Some,
    ensures
        resolve_run(defs, j, lv, bg) is Some,
    decreases k - j,
{
    if j < k {
        lemma_resolve_run_prefix(defs, j, k - 1, lv, bg);
    }
}

impl Background {
    /// Lays out every struct defined, in the order of definition; a struct
    /// that holds another by value must come after it.
    pub fn resolve_struct_layouts(&mut self)
        requires
            resolve_run(old(self).struct_defs.entries@, old(self).struct_defs.entries@.len() as int,
                layouts_view(old(self).struct_layouts.entries@), *old(self)) is Some,
        ensures
            layouts_view(final(self).struct_layouts.entries@) == resolve_run(old(self).struct_defs.entries@,
                old(self).struct_defs.entries@.len() as int, layouts_view(old(self).struct_layouts.entries@), *old(self))->Some_0,
            final(self).rename_manager == old(self).rename_manager,
            final(self).constant_map == old(self).constant_map,
            final(self).struct_defs == old(self).struct_defs,
            final(self).global_symbols == old(self).global_symbols,
            final(self).variable_types == old(self).variable_types,
            final(self).temp_counter == old(self).temp_counter,
            final(self).branch_counter == old(self).branch_counter,
            final(self).next_bb == old(self).next_bb,
            final(self).loop_next == old(self).loop_next,
            final(self).loop_entry == old(self).loop_entry,
    {
        let ghost defs = self.struct_defs.entries@;
        let ghost lv0 = layouts_view(self.struct_layouts.entries@);
        let ghost bg0 = *self;
        let mut names: Vec<String> = Vec::new();
        let mut k: usize = 0;
        while k < self.struct_defs.entries.len()
            invariant
                k <= defs.len(),
                defs == self.struct_defs.entries@,
                names@.len() == k,
                forall|m: int| 0 <= m < k ==> (#[trigger] names@[m])@ == defs[m].0@,
            decreases defs.len() - k,
        {
            names.push(self.struct_defs.entries[k].0.clone());
            k = k + 1;
        }
        let mut visiting: Vec<String> = Vec::new();
        let mut i: usize = 0;
        proof {
            assert(resolve_run(defs, 0, lv0, bg0) == Some(lv0));
        }
        while i < names.len()
            invariant
                i <= defs.len(),
                names@.len() == defs.len(),
                forall|m: int| 0 <= m < defs.len() ==> (#[trigger] names@[m])@ == defs[m].0@,
                visiting@.len() == 0,
                defs == self.struct_defs.entries@,
                self.struct_defs == bg0.struct_defs,
                self.rename_manager == bg0.rename_manager,
                self.constant_map == bg0.constant_map,
                self.global_symbols == bg0.global_symbols,
                self.variable_types == bg0.variable_types,
                self.temp_counter == bg0.temp_counter,
                self.branch_counter == bg0.branch_counter,
                self.next_bb == bg0.next_bb,
                self.loop_next == bg0.loop_next,
                self.loop_entry == bg0.loop_entry,
                resolve_run(defs, defs.len() as int, lv0, bg0) is Some,
                resolve_run(defs, i as int, lv0, bg0) == Some(layouts_view(self.struct_layouts.entries@)),
            decreases defs.len() - i,
        {
            proof {
                lemma_resolve_run_prefix(defs, i + 1, defs.len() as int, lv0, bg0);
                let l1 = layouts_view(self.struct_layouts.entries@);
                if let Some(def) = assoc(defs, defs[i as int].0@) {
                    lemma_lay_fields_frame(def@.fields, def@.fields.len() as int, (Seq::empty(), 0, WORD_SIZE as nat), l1, bg0, *self);
                }
            }
            self.ensure_struct_layout(names[i].as_str(), &mut visiting);
            i = i + 1;
        }
    }
}

// ---------------------------------------------------------------------------
// What a layout guarantees.

/// The fields laid out so far come one after another without overlap, each
/// at an offset its alignment divides, all before the next free offset.
pub open spec fn lay_ordered(st: LayState, lv: Seq<(Seq<char>, LayoutView)>) -> bool {
    let fs = st.0;
    &&& st.2 >= WORD_SIZE
    &&& forall|i: int| 0 <= i < fs.len() ==> (#[trigger] size_of(fs[i].1, lv)) is Some && align_of(fs[i].1, lv) is Some
    &&& forall|i: int| 0 <= i < fs.len() ==> #[trigger] fs[i].2 + size_of(fs[i].1, lv)->Some_0 <= st.1
    &&& forall|i: int, j: int| 0 <= i < j < fs.len() ==> #[trigger] fs[i].2 + size_of(fs[i].1, lv)->Some_0 <= #[trigger] fs[j].2
    &&& forall|i: int| 0 <= i < fs.len() ==> #[trigger] align_of(fs[i].1, lv)->Some_0 > 0
        ==> fs[i].2 % align_of(fs[i].1, lv)->Some_0 == 0
}

proof fn lemma_align_up_facts(value: nat, align: nat)
    requires
        align > 0,
    ensures
        value <= spec_align_up(value, align),
        spec_align_up(value, align) % align == 0,
{
    let n = (value + align - 1) as nat;
    assert(n / align * align > n - align) by (nonlinear_arith)
        requires align > 0;
    assert((n / align * align) % align == 0) by (nonlinear_arith)
        requires align > 0;
}

proof fn lemma_lay_decl_ordered(ty: SType, d: SDecl, st: LayState, lv: Seq<(Seq<char>, LayoutView)>, bg: Background)
    requires
        lay_ordered(st, lv),
        lay_decl(ty, d, st, lv, bg) is Some,
    ensures
        lay_ordered(lay_decl(ty, d, st, lv, bg)->Some_0, lv),
{
    let t = declared_type(d.var, spec_value_type(type_btype(ty)), bg)->Some_0->Some_0;
    let fa = align_of(t, lv)->Some_0;
    let o = checked_align_up(st.1, fa)->Some_0;
    let n = lay_decl(ty, d, st, lv, bg)->Some_0;
    if fa > 0 {
        lemma_align_up_facts(st.1, fa);
    }
    assert(st.1 <= o);
    let fs = n.0;
    assert(fs == st.0.push((spec_var_decl_name(d.var), t, o)));
    assert forall|i: int| 0 <= i < fs.len() implies #[trigger] fs[i].2 + size_of(fs[i].1, lv)->Some_0 <= n.1 by {
        if i < st.0.len() {
            assert(fs[i] == st.0[i]);
        }
    }
    assert forall|i: int, j: int| 0 <= i < j < fs.len() implies #[trigger] fs[i].2 + size_of(fs[i].1, lv)->Some_0 <= #[trigger] fs[j].2 by {
        assert(fs[i] == st.0[i]);
        if j < st.0.len() {
            assert(fs[j] == st.0[j]);
        }
    }
    assert forall|i: int| 0 <= i < fs.len() implies #[trigger] align_of(fs[i].1, lv)->Some_0 > 0
        ==> fs[i].2 % align_of(fs[i].1, lv)->Some_0 == 0 by {
        if i < st.0.len() {
            assert(fs[i] == st.0[i]);
        }
    }
    assert forall|i: int| 0 <= i < fs.len() implies (#[trigger] size_of(fs[i].1, lv)) is Some && align_of(fs[i].1, lv) is Some by {
        if i < st.0.len() {
            assert(fs[i] == st.0[i]);
        }
    }
}

proof fn lemma_lay_decls_ordered(ty: SType, ds: Seq<SDecl>, k: int, st: LayState, lv: Seq<(Seq<char>, LayoutView)>, bg: Background)
    requires
        lay_ordered(st, lv),
        lay_decls(ty, ds, k, st, lv, bg) is Some,
    ensures
        lay_ordered(lay_decls(ty, ds, k, st, lv, bg)->Some_0, lv),
    decreases k,
{
    if 0 < k <= ds.len() {
        lemma_lay_decls_ordered(ty, ds, k - 1, st, lv, bg);
        lemma_lay_decl_ordered(ty, ds[k - 1], lay_decls(ty, ds, k - 1, st, lv, bg)->Some_0, lv, bg);
    }
}

proof fn lemma_lay_fields_ordered(fs: Seq<SField>, k: int, st: LayState, lv: Seq<(Seq<char>, LayoutView)>, bg: Background)
    requires
        lay_ordered(st, lv),
        lay_fields(fs, k, st, lv, bg) is Some,
    ensures
        lay_ordered(lay_fields(fs, k, st, lv, bg)->Some_0, lv),
    decreases k,
{
    if 0 < k <= fs.len() {
        lemma_lay_fields_ordered(fs, k - 1, st, lv, bg);
        let s1 = lay_fields(fs, k - 1, st, lv, bg)->Some_0;
        lemma_lay_decls_ordered(fs[k - 1].ty, fs[k - 1].decls, fs[k - 1].decls.len() as int, s1, lv, bg);
    }
}

/// A struct's fields come one after another in the order they are declared,
/// without overlap, each at an offset that its alignment divides; the struct
/// holds them all, and its size is a multiple of its alignment, which is at
/// least a word.
pub proof fn lemma_layout_fields_apart(def: SStruct, lv: Seq<(Seq<char>, LayoutView)>, bg: Background)
    requires
        def_layout(def, lv, bg) is Some,
    ensures
        ({
            let l = def_layout(def, lv, bg)->Some_0;
            let fs = l.fields;
            &&& l.align >= WORD_SIZE
            &&& l.size % l.align == 0
            &&& forall|i: int| 0 <= i < fs.len() ==> #[trigger] fs[i].2 + size_of(fs[i].1, lv)->Some_0 <= l.size
            &&& forall|i: int, j: int| 0 <= i < j < fs.len() ==> #[trigger] fs[i].2 + size_of(fs[i].1, lv)->Some_0 <= #[trigger] fs[j].2
            &&& forall|i: int| 0 <= i < fs.len() ==> #[trigger] align_of(fs[i].1, lv)->Some_0 > 0
                ==> fs[i].2 % align_of(fs[i].1, lv)->Some_0 == 0
        }),
{
    let st0: LayState = (Seq::empty(), 0, WORD_SIZE as nat);
    assert(lay_ordered(st0, lv));
    lemma_lay_fields_ordered(def.fields, def.fields.len() as int, st0, lv, bg);
    let st = lay_fields(def.fields, def.fields.len() as int, st0, lv, bg)->Some_0;
    lemma_align_up_facts(st.1, st.2);
    let l = def_layout(def, lv, bg)->Some_0;
    assert(l.size == spec_align_up(st.1, st.2));
}

} // verus!
