use vstd::prelude::*;
use crate::ast_tool::{GlobalSymbols, RenameManager, SValueType, StructFieldLayout, StructLayout, ValueType};
use crate::koopa::KoopaType;
use crate::llvm::layout::{align_up, spec_align_up};
use crate::lalr::{BType, StructDef, Type};
use crate::table::{assoc, str_eq, Table};
use crate::text::{cat, cat3, nat_text, usize_text};

verus! {

broadcast use vstd::std_specs::vec::group_vec_axioms;

/// The storage name of the declaration of `name` with number `count`: the
/// first declaration keeps the plain name, later ones get the number.
pub open spec fn rename_text(name: Seq<char>, count: nat) -> Seq<char> {
    if count == 1 {
        "@"@ + name
    } else {
        "@"@ + name + "_"@ + nat_text(count)
    }
}

pub fn variable_rename(name: String, count: usize) -> (s: String)
    ensures
        s@ == rename_text(name@, count as nat),
{
    if count == 1 {
        cat("@", name.as_str())
    } else {
        let n = usize_text(count);
        cat3("@", name.as_str(), cat("_", n.as_str()).as_str())
    }
}

/// The name of temporary number `n`.
pub open spec fn temp_text(n: nat) -> Seq<char> {
    "%"@ + nat_text(n)
}

/// The name of basic block number `n`.
pub open spec fn bb_text(n: nat) -> Seq<char> {
    "%bb"@ + nat_text(n)
}

/// The number of the declaration of `name` that is visible now, if any.
pub open spec fn visible_number(m: RenameManager, name: Seq<char>) -> Option<usize> {
    let rec = m.records_of(name);
    if rec.len() == 0 {
        None
    } else if rec.last().0 <= m.now() {
        Some(rec.last().1)
    } else {
        None
    }
}

/// A new declaration of `name` is refused where one was made at this very time.
pub open spec fn declared_now(m: RenameManager, name: Seq<char>) -> bool {
    m.records_of(name).len() > 0 && m.records_of(name).last().0 == m.now()
}

/// What the Koopa front end knows while it walks a program: the symbols of
/// the program, the struct layouts, the counters that name temporaries and
/// blocks, the constants and variable types by storage name, the scopes of
/// the names, and the blocks that control flow goes to next.
#[derive(Debug)]
pub struct Background {
    pub global_symbols: GlobalSymbols,
    pub struct_defs: Table<StructDef>,
    pub struct_layouts: Table<StructLayout>,
    pub temp_counter: usize,
    pub branch_counter: usize,
    pub constant_map: Table<i32>,
    pub variable_types: Table<ValueType>,
    pub rename_manager: RenameManager,
    pub next_bb: Option<String>,
    pub loop_next: Option<String>,
    pub loop_entry: Option<String>,
}


/// The size of a machine word, in bytes.
pub const WORD_SIZE: usize = 4;

/// The Koopa type of a value type.
pub open spec fn koopa_of(v: ValueType) -> KoopaType
    decreases v,
{
    match v {
        ValueType::Int => KoopaType::I32,
        ValueType::Struct(n) => KoopaType::Struct(n),
        ValueType::Pointer(b) => KoopaType::Ptr(Box::new(koopa_of(*b))),
        ValueType::Array(n, b) => KoopaType::Array(Box::new(koopa_of(*b)), n),
    }
}

/// The alignment of a value, where every struct it holds by value is laid out.
pub open spec fn value_align(v: SValueType, layouts: Seq<(String, StructLayout)>) -> Option<nat>
    decreases v,
{
    match v {
        SValueType::Int => Some(WORD_SIZE as nat),
        SValueType::Pointer(_) => Some(WORD_SIZE as nat),
        SValueType::Array(_, inner) => value_align(*inner, layouts),
        SValueType::Struct(n) => match assoc(layouts, n) {
            Some(l) => Some(l.align as nat),
            None => None,
        },
    }
}

/// The size of a value, where every struct it holds by value is laid out.
pub open spec fn value_size(v: SValueType, layouts: Seq<(String, StructLayout)>) -> Option<nat>
    decreases v,
{
    match v {
        SValueType::Int => Some(WORD_SIZE as nat),
        SValueType::Pointer(_) => Some(WORD_SIZE as nat),
        SValueType::Array(len, inner) => match value_size(*inner, layouts) {
            Some(s) => Some(s * (len as nat)),
            None => None,
        },
        SValueType::Struct(n) => match assoc(layouts, n) {
            Some(l) => Some(l.size as nat),
            None => None,
        },
    }
}

impl ValueType {
    pub fn align(&self, bg: &Background) -> (r: usize)
        requires
            value_align(self@, bg.struct_layouts.entries@) is Some,
        ensures
            value_align(self@, bg.struct_layouts.entries@) == Some(r as nat),
        decreases self,
    {
        match self {
            ValueType::Int | ValueType::Pointer(_) => WORD_SIZE,
            ValueType::Array(_, inner) => inner.align(bg),
            ValueType::Struct(name) => bg.get_struct_layout(name.as_str()).align,
        }
    }

    /// The size in bytes; it must fit in a `usize`.
    pub fn size(&self, bg: &Background) -> (r: usize)
        requires
            value_size(self@, bg.struct_layouts.entries@) matches Some(s) && s <= usize::MAX,
        ensures
            value_size(self@, bg.struct_layouts.entries@) == Some(r as nat),
        decreases self,
    {
        match self {
            ValueType::Int | ValueType::Pointer(_) => WORD_SIZE,
            ValueType::Array(len, inner) => {
                let ghost ls = bg.struct_layouts.entries@;
                proof {
                    let s = value_size(inner@, ls)->Some_0;
                    if *len > 0 {
                        assert(s <= s * (*len as nat)) by (nonlinear_arith)
                            requires *len > 0;
                    } else {
                        assert(s * (*len as nat) == 0) by (nonlinear_arith)
                            requires *len == 0;
                    }
                }
                if *len == 0 {
                    proof {
                        assert(value_size(inner@, ls)->Some_0 * 0 == 0) by (nonlinear_arith);
                    }
                    0
                } else {
                    let s = inner.size(bg);
                    s * *len
                }
            }
            ValueType::Struct(name) => bg.get_struct_layout(name.as_str()).size,
        }
    }

    /// The number of words the value takes.
    pub fn slot_count(&self, bg: &Background) -> (r: usize)
        requires
            value_size(self@, bg.struct_layouts.entries@) matches Some(s) && s + WORD_SIZE <= usize::MAX,
        ensures
            r == spec_align_up(value_size(self@, bg.struct_layouts.entries@)->Some_0, WORD_SIZE as nat) / (WORD_SIZE as nat),
    {
        align_up(self.size(bg), WORD_SIZE) / WORD_SIZE
    }

    pub fn to_koopa_type(&self, _bg: &Background) -> (t: KoopaType)
        ensures
            t == koopa_of(*self),
        decreases self,
    {
        match self {
            ValueType::Int => KoopaType::I32,
            ValueType::Struct(name) => KoopaType::Struct(name.clone()),
            ValueType::Pointer(inner) => KoopaType::ptr(inner.to_koopa_type(_bg)),
            ValueType::Array(len, inner) => KoopaType::array(inner.to_koopa_type(_bg), *len),
        }
    }
}

fn copy_opt(s: &Option<String>) -> (r: Option<String>)
    ensures
        r == *s,
{
    match s {
        Some(x) => Some(x.clone()),
        None => None,
    }
}

impl Background {
    pub open spec fn wf(&self) -> bool {
        self.rename_manager.wf()
    }

    pub fn new() -> (bg: Self)
        ensures
            bg.wf(),
            bg.global_symbols.global_variable.entries@.len() == 0,
            bg.global_symbols.global_function.entries@.len() == 0,
            bg.global_symbols.static_function.entries@.len() == 0,
            bg.global_symbols.async_function.entries@.len() == 0,
            bg.struct_defs.entries@.len() == 0,
            bg.struct_layouts.entries@.len() == 0,
            bg.temp_counter == 0,
            bg.branch_counter == 0,
            bg.constant_map.entries@.len() == 0,
            bg.variable_types.entries@.len() == 0,
            bg.rename_manager.now() == 0,
            forall|name: Seq<char>| #[trigger] bg.rename_manager.count_of(name) == 0
                && bg.rename_manager.records_of(name) == Seq::<(usize, usize)>::empty(),
            bg.next_bb is None,
            bg.loop_next is None,
            bg.loop_entry is None,
    {
        Background {
            global_symbols: GlobalSymbols::new(),
            struct_defs: Table::new(),
            struct_layouts: Table::new(),
            temp_counter: 0,
            branch_counter: 0,
            constant_map: Table::new(),
            variable_types: Table::new(),
            rename_manager: RenameManager::new(),
            next_bb: None,
            loop_next: None,
            loop_entry: None,
        }
    }

    /// Forgets the blocks of the function left behind.
    pub fn clear(&mut self)
        ensures
            final(self).next_bb is None,
            final(self).loop_next is None,
            final(self).loop_entry is None,
            final(self).global_symbols == old(self).global_symbols,
            final(self).struct_defs == old(self).struct_defs,
            final(self).struct_layouts == old(self).struct_layouts,
            final(self).temp_counter == old(self).temp_counter,
            final(self).branch_counter == old(self).branch_counter,
            final(self).constant_map == old(self).constant_map,
            final(self).variable_types == old(self).variable_types,
            final(self).rename_manager == old(self).rename_manager,
    {
        self.next_bb = None;
        self.loop_next = None;
        self.loop_entry = None;
    }

    /// Records the definition of a struct; a second one of the same name is refused.
    pub fn register_struct_def(&mut self, def: StructDef)
        requires
            assoc(old(self).struct_defs.entries@, def.name@) is None,
        ensures
            final(self).struct_defs.entries@ == old(self).struct_defs.entries@.push((def.name, def)),
            final(self).global_symbols == old(self).global_symbols,
            final(self).struct_layouts == old(self).struct_layouts,
            final(self).temp_counter == old(self).temp_counter,
            final(self).branch_counter == old(self).branch_counter,
            final(self).constant_map == old(self).constant_map,
            final(self).variable_types == old(self).variable_types,
            final(self).rename_manager == old(self).rename_manager,
            final(self).next_bb == old(self).next_bb,
            final(self).loop_next == old(self).loop_next,
            final(self).loop_entry == old(self).loop_entry,
    {
        let name = def.name.clone();
        self.struct_defs.insert(name, def);
    }

    /// The layout of struct `name`, which must have been laid out.
    pub fn get_struct_layout(&self, name: &str) -> (r: &StructLayout)
        requires
            assoc(self.struct_layouts.entries@, name@) is Some,
        ensures
            assoc(self.struct_layouts.entries@, name@) == Some(*r),
    {
        match self.struct_layouts.get(name) {
            Some(l) => l,
            None => {
                proof {
                    assert(false);
                }
                &self.struct_layouts.entries[0].1
            }
        }
    }

    /// The first field called `field_name` of struct `struct_name`, which
    /// must have been laid out and have such a field.
    pub fn get_struct_field(&self, struct_name: &str, field_name: &str) -> (r: &StructFieldLayout)
        requires
            assoc(self.struct_layouts.entries@, struct_name@) matches Some(l)
                && exists|i: int| 0 <= i < l.fields@.len() && (#[trigger] l.fields@[i]).name@ == field_name@,
        ensures
            assoc(self.struct_layouts.entries@, struct_name@) matches Some(l)
                && exists|i: int| 0 <= i < l.fields@.len() && l.fields@[i] == *r
                    && r.name@ == field_name@
                    && forall|j: int| 0 <= j < i ==> (#[trigger] l.fields@[j]).name@ != field_name@,
    {
        let layout = self.get_struct_layout(struct_name);
        let mut i: usize = 0;
        while i < layout.fields.len()
            invariant
                i <= layout.fields@.len(),
                forall|j: int| 0 <= j < i ==> (#[trigger] layout.fields@[j]).name@ != field_name@,
            decreases layout.fields.len() - i,
        {
            if str_eq(layout.fields[i].name.as_str(), field_name) {
                return &layout.fields[i];
            }
            i = i + 1;
        }
        proof {
            assert(false);
        }
        &layout.fields[0]
    }

    pub fn get_global_variable(&self, name: String) -> (r: Option<&ValueType>)
        ensures
            match r {
                Some(t) => assoc(self.global_symbols.global_variable.entries@, name@) == Some(*t),
                None => assoc(self.global_symbols.global_variable.entries@, name@) is None,
            },
    {
        self.global_symbols.global_variable.get(name.as_str())
    }

    /// The signature of a function of the program, or else of the runtime.
    pub fn get_function(&self, name: String) -> (r: Option<&(Type, Vec<BType>)>)
        ensures
            match assoc(self.global_symbols.global_function.entries@, name@) {
                Some(f) => r == Some(&f),
                None => match assoc(self.global_symbols.static_function.entries@, name@) {
                    Some(f) => r == Some(&f),
                    None => r is None,
                },
            },
    {
        match self.global_symbols.global_function.get(name.as_str()) {
            Some(f) => Some(f),
            None => self.global_symbols.static_function.get(name.as_str()),
        }
    }

    pub fn is_async_function(&self, name: &str) -> (b: bool)
        ensures
            b == (assoc(self.global_symbols.async_function.entries@, name@) == Some(true)),
    {
        match self.global_symbols.async_function.get(name) {
            Some(a) => *a,
            None => false,
        }
    }

    /// The runtime functions with their signatures, in the order they were recorded.
    pub fn get_static_functions_decl(&self) -> (r: Vec<(String, Type, Vec<BType>)>)
        ensures
            r@.len() == self.global_symbols.static_function.entries@.len(),
            forall|i: int| 0 <= i < r@.len() ==> {
                let e = #[trigger] self.global_symbols.static_function.entries@[i];
                &&& r@[i].0 == e.0
                &&& r@[i].1@ == e.1.0@
                &&& r@[i].2@.len() == e.1.1@.len()
                &&& forall|k: int| 0 <= k < r@[i].2@.len() ==> (#[trigger] r@[i].2@[k])@ == e.1.1@[k]@
            },
    {
        let entries = &self.global_symbols.static_function.entries;
        let mut out: Vec<(String, Type, Vec<BType>)> = Vec::new();
        let mut i: usize = 0;
        while i < entries.len()
            invariant
                i <= entries@.len(),
                out@.len() == i,
                forall|j: int| 0 <= j < i ==> {
                    let e = #[trigger] entries@[j];
                    &&& out@[j].0 == e.0
                    &&& out@[j].1@ == e.1.0@
                    &&& out@[j].2@.len() == e.1.1@.len()
                    &&& forall|k: int| 0 <= k < out@[j].2@.len() ==> (#[trigger] out@[j].2@[k])@ == e.1.1@[k]@
                },
            decreases entries.len() - i,
        {
            let params = &entries[i].1.1;
            let mut ps: Vec<BType> = Vec::new();
            let mut k: usize = 0;
            while k < params.len()
                invariant
                    k <= params@.len(),
                    ps@.len() == k,
                    forall|m: int| 0 <= m < k ==> (#[trigger] ps@[m])@ == params@[m]@,
                decreases params.len() - k,
            {
                ps.push(params[k].copy());
                k = k + 1;
            }
            out.push((entries[i].0.clone(), entries[i].1.0.copy(), ps));
            i = i + 1;
        }
        out
    }

    /// A new temporary: `%` and the counter, declared in the current scope.
    pub fn next_temp(&mut self) -> (r: String)
        requires
            old(self).wf(),
            old(self).temp_counter < usize::MAX,
            old(self).rename_manager.count_of(temp_text(old(self).temp_counter as nat)) < usize::MAX,
            !declared_now(old(self).rename_manager, temp_text(old(self).temp_counter as nat)),
        ensures
            final(self).wf(),
            r@ == temp_text(old(self).temp_counter as nat),
            final(self).temp_counter == old(self).temp_counter + 1,
            visible_number(final(self).rename_manager, r@) == Some((old(self).rename_manager.count_of(r@) + 1) as usize),
            final(self).rename_manager.now() == old(self).rename_manager.now(),
            forall|other: Seq<char>| other != r@ ==> #[trigger] final(self).rename_manager.count_of(other) == old(self).rename_manager.count_of(other)
                && final(self).rename_manager.records_of(other) == old(self).rename_manager.records_of(other),
            final(self).global_symbols == old(self).global_symbols,
            final(self).struct_defs == old(self).struct_defs,
            final(self).struct_layouts == old(self).struct_layouts,
            final(self).branch_counter == old(self).branch_counter,
            final(self).constant_map == old(self).constant_map,
            final(self).variable_types == old(self).variable_types,
            final(self).next_bb == old(self).next_bb,
            final(self).loop_next == old(self).loop_next,
            final(self).loop_entry == old(self).loop_entry,
    {
        let n = usize_text(self.temp_counter);
        let temp_name = cat("%", n.as_str());
        let _ = self.rename_manager.new_variable(temp_name.clone());
        self.temp_counter = self.temp_counter + 1;
        temp_name
    }

    /// The storage name of the visible declaration of `name`, which must exist.
    pub fn get_variable(&self, name: String) -> (r: String)
        requires
            visible_number(self.rename_manager, name@) is Some,
        ensures
            r@ == rename_text(name@, visible_number(self.rename_manager, name@)->Some_0 as nat),
    {
        match self.rename_manager.get_current_name(&name) {
            Some(count) => variable_rename(name, count),
            None => {
                proof {
                    assert(false);
                }
                name
            }
        }
    }

    /// The type of the visible declaration of `name`, which must exist and have one.
    pub fn get_variable_type(&self, name: String) -> (r: ValueType)
        requires
            visible_number(self.rename_manager, name@) matches Some(c)
                && assoc(self.variable_types.entries@, rename_text(name@, c as nat)) is Some,
        ensures
            assoc(self.variable_types.entries@, rename_text(name@, visible_number(self.rename_manager, name@)->Some_0 as nat))
                matches Some(t) && r@ == t@,
    {
        let renamed = self.get_variable(name);
        match self.variable_types.get(renamed.as_str()) {
            Some(t) => t.copy(),
            None => {
                proof {
                    assert(false);
                }
                ValueType::Int
            }
        }
    }

    pub fn set_variable_type(&mut self, renamed: String, ty: ValueType)
        ensures
            final(self).variable_types.entries@ == old(self).variable_types.entries@.push((renamed, ty)),
            final(self).global_symbols == old(self).global_symbols,
            final(self).struct_defs == old(self).struct_defs,
            final(self).struct_layouts == old(self).struct_layouts,
            final(self).temp_counter == old(self).temp_counter,
            final(self).branch_counter == old(self).branch_counter,
            final(self).constant_map == old(self).constant_map,
            final(self).rename_manager == old(self).rename_manager,
            final(self).next_bb == old(self).next_bb,
            final(self).loop_next == old(self).loop_next,
            final(self).loop_entry == old(self).loop_entry,
    {
        self.variable_types.insert(renamed, ty);
    }

    /// Declares `name` in the current scope and gives its storage name; a
    /// second declaration in the same scope is refused.
    pub fn new_variable(&mut self, name: String) -> (r: String)
        requires
            old(self).wf(),
            old(self).rename_manager.count_of(name@) < usize::MAX,
            !declared_now(old(self).rename_manager, name@),
        ensures
            final(self).wf(),
            r@ == rename_text(name@, old(self).rename_manager.count_of(name@) + 1),
            final(self).rename_manager.count_of(name@) == old(self).rename_manager.count_of(name@) + 1,
            final(self).rename_manager.records_of(name@) == old(self).rename_manager.records_of(name@).push(
                (old(self).rename_manager.now(), (old(self).rename_manager.count_of(name@) + 1) as usize)),
            final(self).rename_manager.now() == old(self).rename_manager.now(),
            forall|other: Seq<char>| other != name@ ==> #[trigger] final(self).rename_manager.count_of(other) == old(self).rename_manager.count_of(other)
                && final(self).rename_manager.records_of(other) == old(self).rename_manager.records_of(other),
            final(self).global_symbols == old(self).global_symbols,
            final(self).struct_defs == old(self).struct_defs,
            final(self).struct_layouts == old(self).struct_layouts,
            final(self).temp_counter == old(self).temp_counter,
            final(self).branch_counter == old(self).branch_counter,
            final(self).constant_map == old(self).constant_map,
            final(self).variable_types == old(self).variable_types,
            final(self).next_bb == old(self).next_bb,
            final(self).loop_next == old(self).loop_next,
            final(self).loop_entry == old(self).loop_entry,
    {
        let ghost c = self.rename_manager.count_of(name@);
        let r = self.rename_manager.new_variable(name.clone());
        let count: usize = match r {
            Some(c) => c,
            None => 0,
        };
        variable_rename(name, count)
    }

    /// The value of the visible declaration of `name` where it is a constant.
    pub fn try_get_constant(&self, name: String) -> (r: Option<i32>)
        ensures
            r == match visible_number(self.rename_manager, name@) {
                Some(c) => assoc(self.constant_map.entries@, rename_text(name@, c as nat)),
                None => None,
            },
    {
        match self.rename_manager.get_current_name(&name) {
            Some(count) => {
                let renamed = variable_rename(name, count);
                match self.constant_map.get(renamed.as_str()) {
                    Some(v) => Some(*v),
                    None => None,
                }
            }
            None => None,
        }
    }

    /// Declares `name` in the current scope as a constant of the given value.
    pub fn set_constant(&mut self, name: String, value: i32)
        requires
            old(self).wf(),
            old(self).rename_manager.count_of(name@) < usize::MAX,
            !declared_now(old(self).rename_manager, name@),
        ensures
            final(self).wf(),
            final(self).constant_map.entries@.len() == old(self).constant_map.entries@.len() + 1,
            final(self).constant_map.entries@.last().0@ == rename_text(name@, old(self).rename_manager.count_of(name@) + 1),
            final(self).constant_map.entries@.last().1 == value,
            final(self).constant_map.entries@.drop_last() == old(self).constant_map.entries@,
            final(self).rename_manager.count_of(name@) == old(self).rename_manager.count_of(name@) + 1,
            final(self).rename_manager.records_of(name@) == old(self).rename_manager.records_of(name@).push(
                (old(self).rename_manager.now(), (old(self).rename_manager.count_of(name@) + 1) as usize)),
            final(self).rename_manager.now() == old(self).rename_manager.now(),
            forall|other: Seq<char>| other != name@ ==> #[trigger] final(self).rename_manager.count_of(other) == old(self).rename_manager.count_of(other)
                && final(self).rename_manager.records_of(other) == old(self).rename_manager.records_of(other),
            final(self).variable_types == old(self).variable_types,
            final(self).struct_layouts == old(self).struct_layouts,
            final(self).temp_counter == old(self).temp_counter,
            final(self).branch_counter == old(self).branch_counter,
    {
        let renamed = self.new_variable(name);
        self.constant_map.insert(renamed, value);
        proof {
            assert(self.constant_map.entries@.drop_last() =~= old(self).constant_map.entries@);
        }
    }

    #[verifier::spinoff_prover]
    pub fn increment_time(&mut self)
        requires
            old(self).wf(),
            old(self).rename_manager.now() < usize::MAX,
        ensures
            final(self).wf(),
            final(self).rename_manager.now() == old(self).rename_manager.now() + 1,
            forall|name: Seq<char>| #[trigger] final(self).rename_manager.count_of(name) == old(self).rename_manager.count_of(name)
                && final(self).rename_manager.records_of(name) == old(self).rename_manager.records_of(name),
            final(self).temp_counter == old(self).temp_counter,
            final(self).branch_counter == old(self).branch_counter,
            final(self).constant_map == old(self).constant_map,
            final(self).variable_types == old(self).variable_types,
            final(self).struct_layouts == old(self).struct_layouts,
    {
        self.rename_manager.increment();
    }

    pub fn record(&self) -> (t: usize)
        ensures
            t == self.rename_manager.now(),
    {
        self.rename_manager.record()
    }

    /// Leaves the scopes opened after time `timestamp`.
    #[verifier::spinoff_prover]
    pub fn rollback(&mut self, timestamp: usize)
        requires
            old(self).wf(),
        ensures
            final(self).wf(),
            final(self).rename_manager.now() == old(self).rename_manager.now(),
            forall|name: Seq<char>| #[trigger] final(self).rename_manager.count_of(name) == old(self).rename_manager.count_of(name)
                && final(self).rename_manager.records_of(name) == crate::ast_tool::trim_after(old(self).rename_manager.records_of(name), timestamp),
            final(self).temp_counter == old(self).temp_counter,
            final(self).branch_counter == old(self).branch_counter,
            final(self).constant_map == old(self).constant_map,
            final(self).variable_types == old(self).variable_types,
            final(self).struct_layouts == old(self).struct_layouts,
    {
        self.rename_manager.rollback(timestamp);
    }

    /// A new block name: `%bb` and the counter.
    pub fn new_bb(&mut self) -> (r: String)
        requires
            old(self).branch_counter < usize::MAX,
        ensures
            r@ == bb_text(old(self).branch_counter as nat),
            final(self).branch_counter == old(self).branch_counter + 1,
            final(self).global_symbols == old(self).global_symbols,
            final(self).struct_defs == old(self).struct_defs,
            final(self).struct_layouts == old(self).struct_layouts,
            final(self).temp_counter == old(self).temp_counter,
            final(self).constant_map == old(self).constant_map,
            final(self).variable_types == old(self).variable_types,
            final(self).rename_manager == old(self).rename_manager,
            final(self).next_bb == old(self).next_bb,
            final(self).loop_next == old(self).loop_next,
            final(self).loop_entry == old(self).loop_entry,
    {
        let n = usize_text(self.branch_counter);
        let name = cat("%bb", n.as_str());
        self.branch_counter = self.branch_counter + 1;
        name
    }

    pub fn next_bb(&self) -> (r: Option<String>)
        ensures
            r == self.next_bb,
    {
        copy_opt(&self.next_bb)
    }

    pub fn set_next_bb(&mut self, bb: Option<String>)
        ensures
            final(self).next_bb == bb,
            final(self).loop_next == old(self).loop_next,
            final(self).loop_entry == old(self).loop_entry,
            final(self).branch_counter == old(self).branch_counter,
            final(self).temp_counter == old(self).temp_counter,
            final(self).rename_manager == old(self).rename_manager,
    {
        self.next_bb = bb;
    }

    /// Names the block that comes next where none is named yet.
    pub fn new_next_bb_if_none(&mut self)
        requires
            old(self).next_bb is None ==> old(self).branch_counter < usize::MAX,
        ensures
            match old(self).next_bb {
                Some(b) => final(self).next_bb == Some(b) && final(self).branch_counter == old(self).branch_counter,
                None => final(self).next_bb matches Some(b) && b@ == bb_text(old(self).branch_counter as nat)
                    && final(self).branch_counter == old(self).branch_counter + 1,
            },
            final(self).loop_next == old(self).loop_next,
            final(self).loop_entry == old(self).loop_entry,
            final(self).temp_counter == old(self).temp_counter,
            final(self).rename_manager == old(self).rename_manager,
    {
        if self.next_bb.is_none() {
            let b = self.new_bb();
            self.next_bb = Some(b);
        }
    }

    pub fn get_loop_next(&self) -> (r: Option<String>)
        ensures
            r == self.loop_next,
    {
        copy_opt(&self.loop_next)
    }

    pub fn get_loop_entry(&self) -> (r: Option<String>)
        ensures
            r == self.loop_entry,
    {
        copy_opt(&self.loop_entry)
    }

    pub fn set_loop(&mut self, next: Option<String>, entry: Option<String>)
        ensures
            final(self).loop_next == next,
            final(self).loop_entry == entry,
            final(self).next_bb == old(self).next_bb,
            final(self).branch_counter == old(self).branch_counter,
            final(self).temp_counter == old(self).temp_counter,
            final(self).rename_manager == old(self).rename_manager,
    {
        self.loop_next = next;
        self.loop_entry = entry;
    }
}

} // verus!
