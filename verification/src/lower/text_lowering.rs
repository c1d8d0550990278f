use vstd::prelude::*;
use crate::ast_tool::{SValueType, StructFieldLayout, StructLayout, ValueType};
use crate::ast_tool::background::{koopa_of, Background};
use crate::koopa::{KoopaLine, KoopaLines, KoopaParam, KoopaType};
use crate::lexer::{digit_val, digits_nat, lemma_digits_monotone};
use crate::table::{assoc, str_eq, Table};
use crate::text::{join, join_texts, nat_text, push_char, string_views, usize_text};

verus! {

broadcast use vstd::std_specs::vec::group_vec_axioms;

// ---------------------------------------------------------------------------
// Types and sizes of plain Koopa.

/// The plain Koopa text of a type: a promise is its result, a struct is an
/// array of words as long as its layout, and a pointer to a struct points to
/// its first word. `None` where a struct it holds by value has no layout.
pub open spec fn lowered_type(t: KoopaType, ls: Seq<(String, StructLayout)>) -> Option<Seq<char>>
    decreases t,
{
    match t {
        KoopaType::I32 => Some("i32"@),
        KoopaType::Void => Some("void"@),
        KoopaType::Promise(inner) => lowered_type(*inner, ls),
        KoopaType::Struct(name) => match assoc(ls, name@) {
            Some(l) => Some("[i32, "@ + nat_text(l.size as nat / 4) + "]"@),
            None => None,
        },
        KoopaType::Ptr(inner) => match *inner {
            KoopaType::Struct(_) => Some("*i32"@),
            other => match lowered_type(other, ls) {
                Some(x) => Some("*"@ + x),
                None => None,
            },
        },
        KoopaType::Array(inner, len) => match lowered_type(*inner, ls) {
            Some(x) => Some("["@ + x + ", "@ + nat_text(len as nat) + "]"@),
            None => None,
        },
    }
}

fn lower_type(ty: &KoopaType, bg: &Background) -> (r: String)
    requires
        lowered_type(*ty, bg.struct_layouts.entries@) is Some,
    ensures
        lowered_type(*ty, bg.struct_layouts.entries@) == Some(r@),
    decreases ty,
{
    match ty {
        KoopaType::I32 => "i32".to_owned(),
        KoopaType::Void => "void".to_owned(),
        KoopaType::Promise(inner) => lower_type(inner, bg),
        KoopaType::Struct(name) => {
            let l = bg.get_struct_layout(name.as_str());
            let mut s = "[i32, ".to_owned();
            let n = usize_text(l.size / 4);
            s.append(n.as_str());
            s.append("]");
            s
        }
        KoopaType::Ptr(inner) => match &**inner {
            KoopaType::Struct(_) => "*i32".to_owned(),
            _ => {
                let mut s = "*".to_owned();
                let x = lower_type(inner, bg);
                s.append(x.as_str());
                s
            }
        },
        KoopaType::Array(inner, len) => {
            let mut s = "[".to_owned();
            let x = lower_type(inner, bg);
            s.append(x.as_str());
            s.append(", ");
            let n = usize_text(*len);
            s.append(n.as_str());
            s.append("]");
            s
        }
    }
}

/// Every parameter's type can be lowered.
pub open spec fn params_lowerable(ps: Seq<KoopaParam>, ls: Seq<(String, StructLayout)>) -> bool {
    forall|i: int| 0 <= i < ps.len() ==> (#[trigger] lowered_type(ps[i].ty, ls)) is Some
}

/// The parameter list of a declaration: the lowered types.
pub open spec fn decl_params_text(ps: Seq<KoopaParam>, ls: Seq<(String, StructLayout)>) -> Seq<char> {
    join_texts(Seq::new(ps.len(), |i: int| lowered_type(ps[i].ty, ls)->Some_0), ", "@)
}

/// The parameter list of a definition: names with lowered types.
pub open spec fn def_params_text(ps: Seq<KoopaParam>, ls: Seq<(String, StructLayout)>) -> Seq<char> {
    join_texts(Seq::new(ps.len(), |i: int| ps[i].name@ + ": "@ + lowered_type(ps[i].ty, ls)->Some_0), ", "@)
}

fn lower_params(ps: &Vec<KoopaParam>, bg: &Background, named: bool) -> (r: String)
    requires
        params_lowerable(ps@, bg.struct_layouts.entries@),
    ensures
        r@ == if named { def_params_text(ps@, bg.struct_layouts.entries@) } else { decl_params_text(ps@, bg.struct_layouts.entries@) },
{
    let ghost ls = bg.struct_layouts.entries@;
    let mut parts: Vec<String> = Vec::new();
    let mut i: usize = 0;
    while i < ps.len()
        invariant
            i <= ps@.len(),
            ls == bg.struct_layouts.entries@,
            params_lowerable(ps@, ls),
            parts@.len() == i,
            forall|k: int| 0 <= k < i ==> (#[trigger] parts@[k])@ == if named {
                ps@[k].name@ + ": "@ + lowered_type(ps@[k].ty, ls)->Some_0
            } else {
                lowered_type(ps@[k].ty, ls)->Some_0
            },
        decreases ps.len() - i,
    {
        proof {
            assert(lowered_type(ps@[i as int].ty, ls) is Some);
        }
        let t = lower_type(&ps[i].ty, bg);
        if named {
            let mut s = ps[i].name.clone();
            s.append(": ");
            s.append(t.as_str());
            parts.push(s);
        } else {
            parts.push(t);
        }
        i = i + 1;
    }
    let r = join(&parts, ", ");
    proof {
        let want = if named {
            Seq::new(ps@.len(), |k: int| ps@[k].name@ + ": "@ + lowered_type(ps@[k].ty, ls)->Some_0)
        } else {
            Seq::new(ps@.len(), |k: int| lowered_type(ps@[k].ty, ls)->Some_0)
        };
        assert(string_views(parts@) =~= want);
    }
    r
}

/// What a function that falls off its end returns: nothing for `void`,
/// zero for a word, `zeroinit` for an aggregate.
pub open spec fn default_ret(t: KoopaType) -> Option<Seq<char>>
    decreases t,
{
    match t {
        KoopaType::Void => None,
        KoopaType::I32 => Some("0"@),
        KoopaType::Ptr(_) => Some("0"@),
        KoopaType::Promise(inner) => default_ret(*inner),
        KoopaType::Struct(_) => Some("zeroinit"@),
        KoopaType::Array(_, _) => Some("zeroinit"@),
    }
}

fn default_ret_value(ty: &KoopaType) -> (r: Option<&'static str>)
    ensures
        match r {
            Some(s) => default_ret(*ty) == Some(s@),
            None => default_ret(*ty) is None,
        },
    decreases ty,
{
    match ty {
        KoopaType::Void => None,
        KoopaType::I32 | KoopaType::Ptr(_) => Some("0"),
        KoopaType::Promise(inner) => default_ret_value(inner),
        KoopaType::Struct(_) | KoopaType::Array(_, _) => Some("zeroinit"),
    }
}

/// The size in bytes of a value of a Koopa type, `None` where a struct it
/// holds by value has no layout.
pub open spec fn koopa_size(t: KoopaType, ls: Seq<(String, StructLayout)>) -> Option<nat>
    decreases t,
{
    match t {
        KoopaType::I32 => Some(4),
        KoopaType::Ptr(_) => Some(4),
        KoopaType::Void => Some(0),
        KoopaType::Promise(inner) => koopa_size(*inner, ls),
        KoopaType::Struct(name) => match assoc(ls, name@) {
            Some(l) => Some(l.size as nat),
            None => None,
        },
        KoopaType::Array(inner, len) => match koopa_size(*inner, ls) {
            Some(s) => Some(s * (len as nat)),
            None => None,
        },
    }
}

fn value_size(ty: &KoopaType, bg: &Background) -> (r: usize)
    requires
        koopa_size(*ty, bg.struct_layouts.entries@) matches Some(s) && s <= usize::MAX,
    ensures
        koopa_size(*ty, bg.struct_layouts.entries@) == Some(r as nat),
    decreases ty,
{
    match ty {
        KoopaType::I32 | KoopaType::Ptr(_) => 4,
        KoopaType::Void => 0,
        KoopaType::Promise(inner) => value_size(inner, bg),
        KoopaType::Struct(name) => bg.get_struct_layout(name.as_str()).size,
        KoopaType::Array(inner, len) => {
            let ghost ls = bg.struct_layouts.entries@;
            if *len == 0 {
                proof {
                    assert(koopa_size(**inner, ls)->Some_0 * 0 == 0) by (nonlinear_arith);
                }
                0
            } else {
                proof {
                    let s = koopa_size(**inner, ls)->Some_0;
                    assert(s <= s * (*len as nat)) by (nonlinear_arith)
                        requires *len > 0;
                }
                let s = value_size(inner, bg);
                s * *len
            }
        }
    }
}

// ---------------------------------------------------------------------------
// Storage names of pointer fields.

pub open spec fn ascii_alnum(c: char) -> bool {
    ('0' <= c && c <= '9') || ('a' <= c && c <= 'z') || ('A' <= c && c <= 'Z')
}

/// The ASCII letters and digits of `s`, in order.
pub open spec fn alnum_part(s: Seq<char>) -> Seq<char>
    decreases s.len(),
{
    if s.len() == 0 {
        Seq::empty()
    } else if ascii_alnum(s.last()) {
        alnum_part(s.drop_last()).push(s.last())
    } else {
        alnum_part(s.drop_last())
    }
}

/// Where a pointer field of an object is kept: a local for a local object,
/// a global for a global one, named after the object and the field.
pub open spec fn storage_name(obj: Seq<char>, field: Seq<char>) -> Seq<char> {
    (if obj.len() > 0 && obj[0] == '%' { "%"@ } else { "@"@ }) + "f"@ + alnum_part(obj) + "field"@ + field
}

fn field_storage_name(obj: &str, field_name: &str) -> (r: String)
    ensures
        r@ == storage_name(obj@, field_name@),
{
    let mut base = String::new();
    let mut local = false;
    let mut first = true;
    let ghost o = obj@;
    proof {
        assert(o.take(0) =~= Seq::<char>::empty());
    }
    for ch in it: obj.chars()
        invariant
            it.seq() == o,
            o == obj@,
            first == (it.index() == 0),
            local == (it.index() > 0 && o[0] == '%'),
            base@ == alnum_part(o.take(it.index() as int)),
    {
        let ghost k = it.index() as int;
        proof {
            assert(o.take(k + 1).drop_last() =~= o.take(k));
            assert(o.take(k + 1).last() == o[k]);
        }
        if first {
            local = ch == '%';
            first = false;
        }
        if ('0' <= ch && ch <= '9') || ('a' <= ch && ch <= 'z') || ('A' <= ch && ch <= 'Z') {
            push_char(&mut base, ch);
        }
    }
    proof {
        assert(o.take(o.len() as int) =~= o);
    }
    let mut s = if local { "%".to_owned() } else { "@".to_owned() };
    s.append("f");
    s.append(base.as_str());
    s.append("field");
    s.append(field_name);
    s
}

// ---------------------------------------------------------------------------
// What the lowering knows of the values it has met.

#[derive(Debug)]
pub struct StructBaseInfo {
    pub struct_name: String,
    pub object_symbol: Option<String>,
}

/// What a symbol stands for.
#[derive(Debug)]
pub enum ValueInfo {
    /// The address of a struct, of the object named where it is one.
    StructBase(StructBaseInfo),
    /// The storage of a pointer field and the symbol last stored in it.
    FieldStorage { field_ty: ValueType, stored_symbol: Option<String> },
    /// A pointer variable and the symbol last stored in it.
    PointerStorage { stored_symbol: Option<String> },
    /// Another name for a symbol.
    Alias(String),
}

/// The view of a value info.
pub enum SInfo {
    StructBase(Seq<char>, Option<Seq<char>>),
    FieldStorage(SValueType, Option<Seq<char>>),
    PointerStorage(Option<Seq<char>>),
    Alias(Seq<char>),
}

pub open spec fn opt_view(o: Option<String>) -> Option<Seq<char>> {
    match o {
        Some(s) => Some(s@),
        None => None,
    }
}

impl View for ValueInfo {
    type V = SInfo;

    open spec fn view(&self) -> SInfo {
        match self {
            ValueInfo::StructBase(b) => SInfo::StructBase(b.struct_name@, opt_view(b.object_symbol)),
            ValueInfo::FieldStorage { field_ty, stored_symbol } => SInfo::FieldStorage(field_ty@, opt_view(*stored_symbol)),
            ValueInfo::PointerStorage { stored_symbol } => SInfo::PointerStorage(opt_view(*stored_symbol)),
            ValueInfo::Alias(s) => SInfo::Alias(s@),
        }
    }
}

fn copy_opt(s: &Option<String>) -> (r: Option<String>)
    ensures
        r == *s,
{
    match s {
        Some(x) => Some(x.clone()),
        None => None,
    }
}

impl ValueInfo {
    fn copy(&self) -> (r: ValueInfo)
        ensures
            r@ == self@,
    {
        match self {
            ValueInfo::StructBase(b) => ValueInfo::StructBase(StructBaseInfo {
                struct_name: b.struct_name.clone(),
                object_symbol: copy_opt(&b.object_symbol),
            }),
            ValueInfo::FieldStorage { field_ty, stored_symbol } => ValueInfo::FieldStorage {
                field_ty: field_ty.copy(),
                stored_symbol: copy_opt(stored_symbol),
            },
            ValueInfo::PointerStorage { stored_symbol } => ValueInfo::PointerStorage { stored_symbol: copy_opt(stored_symbol) },
            ValueInfo::Alias(s) => ValueInfo::Alias(s.clone()),
        }
    }
}

/// The bindings of symbols to what they stand for, the latest binding of a
/// symbol being the one in force.
pub type Vals = Seq<(Seq<char>, SInfo)>;

pub open spec fn vals_view(es: Seq<(String, ValueInfo)>) -> Vals {
    es.map_values(|e: (String, ValueInfo)| (e.0@, e.1@))
}

pub open spec fn lookup(vs: Vals, k: Seq<char>) -> Option<SInfo>
    decreases vs.len(),
{
    if vs.len() == 0 {
        None
    } else if vs.last().0 == k {
        Some(vs.last().1)
    } else {
        lookup(vs.drop_last(), k)
    }
}

proof fn lemma_lookup_view(es: Seq<(String, ValueInfo)>, k: Seq<char>)
    ensures
        match assoc(es, k) {
            Some(v) => lookup(vals_view(es), k) == Some(v@),
            None => lookup(vals_view(es), k) is None,
        },
    decreases es.len(),
{
    if es.len() > 0 {
        assert(vals_view(es).drop_last() =~= vals_view(es.drop_last()));
        lemma_lookup_view(es.drop_last(), k);
    }
}

/// The symbol `s` stands for after following at most `fuel` aliases; `None`
/// where the aliases go on longer, which, with fuel for every binding,
/// means they go round in a circle.
pub open spec fn resolve(vs: Vals, s: Seq<char>, fuel: nat) -> Option<Seq<char>>
    decreases fuel,
{
    match lookup(vs, s) {
        Some(SInfo::Alias(n)) => if fuel == 0 { None } else { resolve(vs, n, (fuel - 1) as nat) },
        _ => Some(s),
    }
}

pub open spec fn res(vs: Vals, s: Seq<char>) -> Option<Seq<char>> {
    resolve(vs, s, vs.len())
}

/// What `s` stands for once its aliases are followed.
pub open spec fn info(vs: Vals, s: Seq<char>) -> Option<Option<SInfo>> {
    match res(vs, s) {
        Some(r) => Some(lookup(vs, r)),
        None => None,
    }
}


// ---------------------------------------------------------------------------
// Indices.

/// The digits of an index: the text after an optional leading `+`.
pub open spec fn index_digits(s: Seq<char>) -> Seq<char> {
    if s.len() > 0 && s[0] == '+' { s.drop_first() } else { s }
}

/// Every character is a decimal digit.
pub open spec fn all_decimal(ds: Seq<char>) -> bool {
    forall|i: int| 0 <= i < ds.len() ==> #[trigger] digit_val(ds[i]) < 10
}

/// The value of `s` read as a `usize` the way `str::parse` reads one: an
/// optional `+`, then one or more decimal digits, the value fitting.
pub open spec fn parse_usize(s: Seq<char>) -> Option<nat> {
    let ds = index_digits(s);
    if ds.len() > 0 && all_decimal(ds) && digits_nat(ds, 10) <= usize::MAX {
        Some(digits_nat(ds, 10) as nat)
    } else {
        None
    }
}

fn parse_index(s: &str) -> (r: Option<usize>)
    ensures
        match r {
            Some(v) => parse_usize(s@) == Some(v as nat),
            None => parse_usize(s@) is None,
        },
{
    let ghost t = s@;
    let ghost ds = index_digits(t);
    let mut value: usize = 0;
    let ghost mut seen: int = 0;
    let mut any_digit = false;
    let mut signed = false;
    let mut bad = false;
    let mut first = true;
    for c in it: s.chars()
        invariant
            first == (it.index() == 0),
            it.seq() == t,
            t == s@,
            ds == index_digits(t),
            signed == (it.index() > 0 && t[0] == '+'),
            !bad ==> seen == it.index() - (if signed { 1int } else { 0int }),
            !bad ==> any_digit == (seen > 0),
            !bad ==> (forall|i: int| 0 <= i < seen ==> #[trigger] digit_val(ds[i]) < 10),
            !bad ==> value as int == digits_nat(ds.take(seen), 10),
            bad ==> parse_usize(t) is None,
            bad ==> it.index() > 0,
    {
        let ghost k = it.index() as int;
        proof {
            assert(c == t[k]);
        }
        if !bad {
            if first && c == '+' {
                proof {
                    assert(t[0] == '+');
                }
                signed = true;
            } else {
                let ghost j = seen;
                proof {
                    assert(0 <= j < ds.len());
                    assert(ds[j] == t[k]);
                    assert(ds.take(j + 1).drop_last() =~= ds.take(j));
                }
                if '0' <= c && c <= '9' {
                    let d = (c as u32 - '0' as u32) as usize;
                    if value > (usize::MAX - d) / 10 {
                        proof {
                            assert(digits_nat(ds.take(j + 1), 10) == digits_nat(ds.take(j), 10) * 10 + digit_val(ds[j]));
                            assert(digits_nat(ds.take(j + 1), 10) > usize::MAX) by (nonlinear_arith)
                                requires
                                    digits_nat(ds.take(j + 1), 10) == value * 10 + d,
                                    value > (usize::MAX - d) / 10,
                                    d < 10;
                            if all_decimal(ds) {
                                lemma_digits_monotone(ds, 10, j + 1);
                            }
                            assert(parse_usize(t) is None);
                        }
                        bad = true;
                    } else {
                        proof {
                            assert(value * 10 + d <= usize::MAX) by (nonlinear_arith)
                                requires value <= (usize::MAX - d) / 10, d < 10;
                            assert(digits_nat(ds.take(j + 1), 10) == digits_nat(ds.take(j), 10) * 10 + digit_val(ds[j]));
                        }
                        value = value * 10 + d;
                        proof {
                            seen = seen + 1;
                        }
                        any_digit = true;
                    }
                } else {
                    proof {
                        assert(digit_val(ds[j]) >= 10);
                        assert(!all_decimal(ds));
                        assert(parse_usize(t) is None);
                    }
                    bad = true;
                }
            }
        }
        first = false;
    }
    if bad || !any_digit {
        return None;
    }
    proof {
        assert(seen == ds.len());
        assert(ds.take(seen) =~= ds);
    }
    Some(value)
}

// ---------------------------------------------------------------------------
// One line at a time.

/// The return type of the function being lowered and the bindings of symbols.
pub struct LState {
    pub ret: Option<KoopaType>,
    pub vals: Vals,
}

/// The first field of `fs` called `name`.
pub open spec fn field_named(fs: Seq<StructFieldLayout>, name: Seq<char>) -> Option<StructFieldLayout>
    decreases fs.len(),
{
    if fs.len() == 0 {
        None
    } else if fs[0].name@ == name {
        Some(fs[0])
    } else {
        field_named(fs.drop_first(), name)
    }
}

/// The first field of `fs` that starts at word `slot`.
pub open spec fn field_at(fs: Seq<StructFieldLayout>, slot: nat) -> Option<StructFieldLayout>
    decreases fs.len(),
{
    if fs.len() == 0 {
        None
    } else if fs[0].offset as nat / 4 == slot {
        Some(fs[0])
    } else {
        field_at(fs.drop_first(), slot)
    }
}

/// The lines and bindings for the pointer fields among the first `k` fields
/// of a new object `owner`: each gets storage of its own.
pub open spec fn field_lines(owner: Seq<char>, fs: Seq<StructFieldLayout>, k: int, ls: Seq<(String, StructLayout)>, vs: Vals, global: bool) -> Option<(Vals, Seq<Seq<char>>)>
    decreases k,
{
    if k <= 0 || k > fs.len() {
        Some((vs, Seq::empty()))
    } else {
        match field_lines(owner, fs, k - 1, ls, vs, global) {
            Some((v1, l1)) => {
                let f = fs[k - 1];
                if f.ty is Pointer {
                    match lowered_type(koopa_of(f.ty), ls) {
                        Some(t) => {
                            let st = storage_name(owner, f.name@);
                            let line = if global {
                                "global "@ + st + " = alloc "@ + t + ", zeroinit\n"@
                            } else {
                                "\t"@ + st + " = alloc "@ + t
                            };
                            Some((v1.push((st, SInfo::FieldStorage(f.ty@, None))), l1.push(line)))
                        },
                        None => None,
                    }
                } else {
                    Some((v1, l1))
                }
            },
            None => None,
        }
    }
}

/// A struct object `name`, local or (with an initializer) global.
pub open spec fn struct_alloc(name: Seq<char>, sn: Seq<char>, init: Option<Seq<char>>, ls: Seq<(String, StructLayout)>, vs: Vals) -> Option<(Vals, Seq<Seq<char>>)> {
    match assoc(ls, sn) {
        Some(l) => {
            let t = "[i32, "@ + nat_text(l.size as nat / 4) + "]"@;
            let first = match init {
                Some(i) => "global "@ + name + " = alloc "@ + t + ", "@ + i + "\n"@,
                None => "\t"@ + name + " = alloc "@ + t,
            };
            let v1 = vs.push((name, SInfo::StructBase(sn, Some(name))));
            match field_lines(name, l.fields@, l.fields@.len() as int, ls, v1, init is Some) {
                Some((v2, lines)) => Some((v2, seq![first] + lines)),
                None => None,
            }
        },
        None => None,
    }
}

/// An object on the heap: a call of `malloc` with its size.
pub open spec fn heap_alloc(name: Seq<char>, ty: KoopaType, ls: Seq<(String, StructLayout)>, vs: Vals) -> Option<(Vals, Seq<Seq<char>>)> {
    match koopa_size(ty, ls) {
        Some(sz) => if sz <= usize::MAX {
            let first = "\t"@ + name + " = call @malloc("@ + nat_text(sz) + ")"@;
            match ty {
                KoopaType::Struct(sn) => match assoc(ls, sn@) {
                    Some(l) => {
                        let v1 = vs.push((name, SInfo::StructBase(sn@, Some(name))));
                        match field_lines(name, l.fields@, l.fields@.len() as int, ls, v1, false) {
                            Some((v2, lines)) => Some((v2, seq![first] + lines)),
                            None => None,
                        }
                    },
                    None => None,
                },
                _ => Some((vs, seq![first])),
            }
        } else {
            None
        },
        None => None,
    }
}

pub open spec fn store_step(vs: Vals, value: Seq<char>, ptr: Seq<char>) -> Option<(Vals, Seq<Seq<char>>)> {
    match res(vs, value) {
        Some(v) => match res(vs, ptr) {
            Some(p) => {
                let v1 = match lookup(vs, p) {
                    Some(SInfo::PointerStorage(_)) => vs.push((p, SInfo::PointerStorage(Some(v)))),
                    _ => vs,
                };
                let v2 = match lookup(v1, p) {
                    Some(SInfo::FieldStorage(ft, _)) => v1.push((p, SInfo::FieldStorage(ft, Some(v)))),
                    _ => v1,
                };
                Some((v2, seq!["\tstore "@ + v + ", "@ + p]))
            },
            None => None,
        },
        None => None,
    }
}

/// After a load from a pointer variable that holds a struct address, the
/// loaded value is that address too.
pub open spec fn load_from_pointer(vs: Vals, dest: Seq<char>, p: Seq<char>) -> Option<Vals> {
    match info(vs, p) {
        Some(Some(SInfo::PointerStorage(Some(sym)))) => match info(vs, sym) {
            Some(Some(SInfo::StructBase(n, o))) => Some(vs.push((dest, SInfo::StructBase(n, o)))),
            Some(_) => Some(vs),
            None => None,
        },
        Some(_) => Some(vs),
        None => None,
    }
}

/// After a load from a pointer field, the loaded value is the struct address
/// stored there, or at least an address of the struct the field points to.
pub open spec fn load_from_field(vs: Vals, dest: Seq<char>, p: Seq<char>) -> Option<Vals> {
    match info(vs, p) {
        Some(Some(SInfo::FieldStorage(ft, stored))) => {
            let v1 = match stored {
                Some(sym) => match info(vs, sym) {
                    Some(Some(SInfo::StructBase(n, o))) => Some(vs.push((dest, SInfo::StructBase(n, o)))),
                    Some(_) => Some(vs),
                    None => None,
                },
                None => Some(vs),
            };
            match v1 {
                Some(v1) => match ft {
                    SValueType::Pointer(inner) => match *inner {
                        SValueType::Struct(sn) => if lookup(v1, dest) is None {
                            Some(v1.push((dest, SInfo::StructBase(sn, None))))
                        } else {
                            Some(v1)
                        },
                        _ => Some(v1),
                    },
                    _ => Some(v1),
                },
                None => None,
            }
        },
        Some(_) => Some(vs),
        None => None,
    }
}

pub open spec fn load_step(vs: Vals, dest: Seq<char>, ptr: Seq<char>) -> Option<(Vals, Seq<Seq<char>>)> {
    match res(vs, ptr) {
        Some(p) => match load_from_pointer(vs, dest, p) {
            Some(v1) => match load_from_field(v1, dest, p) {
                Some(v2) => Some((v2, seq!["\t"@ + dest + " = load "@ + p])),
                None => None,
            },
            None => None,
        },
        None => None,
    }
}

pub open spec fn pointer_field_error(p: Seq<char>) -> Seq<char> {
    "unsupported lowering: pointer field access on non-materialized struct pointer "@ + p
}

pub open spec fn field_ptr_step(vs: Vals, ls: Seq<(String, StructLayout)>, dest: Seq<char>, ptr: Seq<char>, field: Seq<char>)
    -> Option<(Vals, Result<Seq<Seq<char>>, Seq<char>>)> {
    match res(vs, ptr) {
        Some(p) => match info(vs, p) {
            Some(Some(SInfo::StructBase(sn, owner))) => match assoc(ls, sn) {
                Some(l) => match field_named(l.fields@, field) {
                    Some(f) => if f.ty is Pointer {
                        match owner {
                            Some(o) => {
                                let st = storage_name(o, field);
                                let v1 = vs.push((dest, SInfo::Alias(st)));
                                let v2 = if lookup(v1, st) is None { v1.push((st, SInfo::FieldStorage(f.ty@, None))) } else { v1 };
                                Some((v2, Ok(Seq::empty())))
                            },
                            None => Some((vs, Err(pointer_field_error(p)))),
                        }
                    } else {
                        let v1 = match f.ty {
                            ValueType::Struct(inner) => vs.push((dest, SInfo::StructBase(inner@, None))),
                            _ => vs,
                        };
                        Some((v1, Ok(seq!["\t"@ + dest + " = getptr "@ + p + ", "@ + nat_text(f.offset as nat / 4)])))
                    },
                    None => Some((vs, Err("struct "@ + sn + " has no field named "@ + field))),
                },
                None => None,
            },
            Some(_) => Some((vs, Err("unsupported lowering: field access on unknown struct base "@ + p))),
            None => None,
        },
        None => None,
    }
}

pub open spec fn get_ptr_step(vs: Vals, ls: Seq<(String, StructLayout)>, dest: Seq<char>, ptr: Seq<char>, idx: Seq<char>)
    -> Option<(Vals, Result<Seq<Seq<char>>, Seq<char>>)> {
    match res(vs, ptr) {
        Some(p) => {
            let line = "\t"@ + dest + " = getptr "@ + p + ", "@ + idx;
            match parse_usize(idx) {
                Some(slot) => match info(vs, p) {
                    Some(Some(SInfo::StructBase(sn, owner))) => match assoc(ls, sn) {
                        Some(l) => match field_at(l.fields@, slot) {
                            Some(f) => if f.ty is Pointer {
                                match owner {
                                    Some(o) => {
                                        let st = storage_name(o, f.name@);
                                        Some((vs.push((dest, SInfo::Alias(st))).push((st, SInfo::FieldStorage(f.ty@, None))), Ok(Seq::empty())))
                                    },
                                    None => Some((vs, Err(pointer_field_error(p)))),
                                }
                            } else {
                                let v1 = match f.ty {
                                    ValueType::Struct(inner) => vs.push((dest, SInfo::StructBase(inner@, None))),
                                    _ => vs,
                                };
                                Some((v1, Ok(seq![line])))
                            },
                            None => Some((vs, Ok(seq![line]))),
                        },
                        None => None,
                    },
                    Some(_) => Some((vs, Ok(seq![line]))),
                    None => None,
                },
                None => Some((vs, Ok(seq![line]))),
            }
        },
        None => None,
    }
}

pub open spec fn elem_ptr_step(vs: Vals, dest: Seq<char>, ptr: Seq<char>, idx: Seq<char>) -> Option<(Vals, Seq<Seq<char>>)> {
    match res(vs, ptr) {
        Some(p) => {
            let line = "\t"@ + dest + " = getelemptr "@ + p + ", "@ + idx;
            if idx == "0"@ {
                match info(vs, p) {
                    Some(Some(SInfo::StructBase(n, o))) => Some((vs.push((dest, SInfo::StructBase(n, o))), seq![line])),
                    Some(_) => Some((vs, seq![line])),
                    None => None,
                }
            } else {
                Some((vs, seq![line]))
            }
        },
        None => None,
    }
}

/// The text of a function header.
pub open spec fn header_text(name: Seq<char>, params: Seq<char>, ret: KoopaType, ls: Seq<(String, StructLayout)>) -> Seq<char> {
    match ret {
        KoopaType::Void => "fun @"@ + name + "("@ + params + ") {"@,
        _ => "fun @"@ + name + "("@ + params + "): "@ + lowered_type(ret, ls)->Some_0 + " {"@,
    }
}

/// The return type can be lowered where a header needs it.
pub open spec fn ret_lowerable(ret: KoopaType, ls: Seq<(String, StructLayout)>) -> bool {
    ret is Void || lowered_type(ret, ls) is Some
}

pub open spec fn unchanged(st: LState, out: Seq<Seq<char>>) -> Option<(LState, Result<Seq<Seq<char>>, Seq<char>>)> {
    Some((st, Ok(out)))
}

pub open spec fn with_vals(st: LState, r: Option<(Vals, Seq<Seq<char>>)>) -> Option<(LState, Result<Seq<Seq<char>>, Seq<char>>)> {
    match r {
        Some((vs, out)) => Some((LState { ret: st.ret, vals: vs }, Ok(out))),
        None => None,
    }
}

pub open spec fn with_vals_res(st: LState, r: Option<(Vals, Result<Seq<Seq<char>>, Seq<char>>)>) -> Option<(LState, Result<Seq<Seq<char>>, Seq<char>>)> {
    match r {
        Some((vs, out)) => Some((LState { ret: st.ret, vals: vs }, out)),
        None => None,
    }
}

/// One line of Koopa with structs and promises, lowered to plain Koopa: the
/// new state and the lines, or the reason it cannot be lowered; `None` where
/// the lowering would not come back (a struct without layout, a size past
/// `usize`, aliases in a circle).
pub open spec fn lower_step(ls: Seq<(String, StructLayout)>, st: LState, line: KoopaLine) -> Option<(LState, Result<Seq<Seq<char>>, Seq<char>>)> {
    let vs = st.vals;
    match line {
        KoopaLine::StructDecl(_, _) => unchanged(st, Seq::empty()),
        KoopaLine::PromiseDecl(_, _) => unchanged(st, Seq::empty()),
        KoopaLine::FuncDecl(name, args, ret) => if params_lowerable(args@, ls) && ret_lowerable(ret, ls) {
            match ret {
                KoopaType::Void => unchanged(st, seq!["decl @"@ + name@ + "("@ + decl_params_text(args@, ls) + ")"@]),
                _ => unchanged(st, seq!["decl @"@ + name@ + "("@ + decl_params_text(args@, ls) + "): "@ + lowered_type(ret, ls)->Some_0]),
            }
        } else {
            None
        },
        KoopaLine::FuncStart(name, args, ret) => if params_lowerable(args@, ls) && ret_lowerable(ret, ls) {
            Some((LState { ret: Some(ret), vals: vs }, Ok(seq![header_text(name@, def_params_text(args@, ls), ret, ls)])))
        } else {
            None
        },
        KoopaLine::AsyncFuncStart(name, args, ret) => if params_lowerable(args@, ls) && ret_lowerable(ret, ls) {
            Some((LState { ret: Some(ret), vals: vs }, Ok(seq![header_text(name@, def_params_text(args@, ls), ret, ls)])))
        } else {
            None
        },
        KoopaLine::FuncEnd => Some((LState { ret: None, vals: vs }, Ok(seq!["}\n"@]))),
        KoopaLine::Label(label) => unchanged(st, seq![label@ + ":"@]),
        KoopaLine::ArgLabel(label, arg, ty) => match lowered_type(ty, ls) {
            Some(t) => unchanged(st, seq!["\n"@ + label@ + "("@ + arg@ + ": "@ + t + "):"@]),
            None => None,
        },
        KoopaLine::GlobalAlloc(name, ty, init) => match ty {
            KoopaType::Struct(sn) => with_vals(st, struct_alloc(name@, sn@, Some(init@), ls, vs)),
            KoopaType::Ptr(_) => match lowered_type(ty, ls) {
                Some(t) => with_vals(st, Some((vs.push((name@, SInfo::PointerStorage(None))),
                    seq!["global "@ + name@ + " = alloc "@ + t + ", "@ + init@ + "\n"@]))),
                None => None,
            },
            _ => match lowered_type(ty, ls) {
                Some(t) => unchanged(st, seq!["global "@ + name@ + " = alloc "@ + t + ", "@ + init@ + "\n"@]),
                None => None,
            },
        },
        KoopaLine::Alloc(name, ty) => match ty {
            KoopaType::Struct(sn) => with_vals(st, struct_alloc(name@, sn@, None, ls, vs)),
            KoopaType::Ptr(_) => match lowered_type(ty, ls) {
                Some(t) => with_vals(st, Some((vs.push((name@, SInfo::PointerStorage(None))), seq!["\t"@ + name@ + " = alloc "@ + t]))),
                None => None,
            },
            _ => match lowered_type(ty, ls) {
                Some(t) => unchanged(st, seq!["\t"@ + name@ + " = alloc "@ + t]),
                None => None,
            },
        },
        KoopaLine::HeapAlloc(name, ty) => with_vals(st, heap_alloc(name@, ty, ls, vs)),
        KoopaLine::Store(value, ptr) => with_vals(st, store_step(vs, value@, ptr@)),
        KoopaLine::Load(dest, ptr) => with_vals(st, load_step(vs, dest@, ptr@)),
        KoopaLine::StructFieldPtr(dest, ptr, field) => with_vals_res(st, field_ptr_step(vs, ls, dest@, ptr@, field@)),
        KoopaLine::GetElemPtr(dest, ptr, idx) => with_vals(st, elem_ptr_step(vs, dest@, ptr@, idx@)),
        KoopaLine::GetPtr(dest, ptr, idx) => with_vals_res(st, get_ptr_step(vs, ls, dest@, ptr@, idx@)),
        KoopaLine::Binary(dest, op, lhs, rhs) => match res(vs, lhs@) {
            Some(l) => match res(vs, rhs@) {
                Some(r) => unchanged(st, seq!["\t"@ + dest@ + " = "@ + op@ + " "@ + l + ", "@ + r]),
                None => None,
            },
            None => None,
        },
        KoopaLine::AsyncCall(dest, func, arg) => unchanged(st, seq!["\t"@ + dest@ + " = call @"@ + func@ + "("@ + arg@ + ")"@]),
        KoopaLine::CallbackWrap(dest, promise, _) => match res(vs, promise@) {
            Some(p) => unchanged(st, seq!["\t"@ + dest@ + " = add 0, "@ + p]),
            None => None,
        },
        KoopaLine::Sleep(dest, _) => unchanged(st, seq!["\t"@ + dest@ + " = add 0, 0"@]),
        KoopaLine::PromiseWait(_) => unchanged(st, Seq::empty()),
        KoopaLine::Br(cond, then_bb, else_bb) => match res(vs, cond@) {
            Some(c) => unchanged(st, seq!["\tbr "@ + c + ", "@ + then_bb@ + ", "@ + else_bb@]),
            None => None,
        },
        KoopaLine::Jump(target) => unchanged(st, seq!["\tjump "@ + target@]),
        KoopaLine::ArgJump(target, arg) => match res(vs, arg@) {
            Some(a) => unchanged(st, seq!["\tjump "@ + target@ + "("@ + a + ")"@]),
            None => None,
        },
        KoopaLine::Call(dest, func, arg) => unchanged(st, seq!["\t"@ + dest@ + " = call @"@ + func@ + "("@ + arg@ + ")"@]),
        KoopaLine::VoidCall(func, arg) => unchanged(st, seq!["\tcall @"@ + func@ + "("@ + arg@ + ")"@]),
        KoopaLine::Ret(value) => match res(vs, value@) {
            Some(v) => unchanged(st, seq!["\tret "@ + v]),
            None => None,
        },
        KoopaLine::VoidRet => match st.ret {
            Some(t) => match default_ret(t) {
                Some(v) => unchanged(st, seq!["\tret "@ + v]),
                None => unchanged(st, seq!["\tret"@]),
            },
            None => unchanged(st, seq!["\tret"@]),
        },
    }
}

/// The first `k` lines lowered in turn from state `st`; `None` where a line
/// cannot be lowered or the lowering would not come back.
pub open spec fn lower_run(ls: Seq<(String, StructLayout)>, st: LState, lines: Seq<KoopaLine>, k: int) -> Option<(LState, Seq<Seq<char>>)>
    decreases k,
{
    if k <= 0 || k > lines.len() {
        Some((st, Seq::empty()))
    } else {
        match lower_run(ls, st, lines, k - 1) {
            Some((s1, out)) => match lower_step(ls, s1, lines[k - 1]) {
                Some((s2, Ok(chunk))) => Some((s2, out + chunk)),
                _ => None,
            },
            None => None,
        }
    }
}

/// The lines allocate on the heap and do not declare `malloc` themselves.
pub open spec fn needs_malloc_decl(lines: Seq<KoopaLine>) -> bool {
    &&& exists|i: int| 0 <= i < lines.len() && #[trigger] lines[i] is HeapAlloc
    &&& !exists|i: int| 0 <= i < lines.len() && (#[trigger] lines[i] matches KoopaLine::FuncDecl(n, _, _) && n@ == "malloc"@)
}

/// The plain Koopa text of a program with structs and promises, given the
/// struct layouts: a declaration of `malloc` where the program needs one,
/// then the lowered lines, one per row.
pub open spec fn lowered_program(ls: Seq<(String, StructLayout)>, lines: Seq<KoopaLine>) -> Option<Seq<char>> {
    match lower_run(ls, LState { ret: None, vals: Seq::empty() }, lines, lines.len() as int) {
        Some((_, out)) => {
            let head: Seq<Seq<char>> = if needs_malloc_decl(lines) { seq!["decl @malloc(i32): *i32"@] } else { Seq::empty() };
            Some(join_texts(head + out, "\n"@))
        },
        None => None,
    }
}

// ---------------------------------------------------------------------------
// The lowering.

proof fn lemma_field_lines_prefix(owner: Seq<char>, fs: Seq<StructFieldLayout>, j: int, k: int, ls: Seq<(String, StructLayout)>, vs: Vals, global: bool)
    requires
        0 <= j <= k <= fs.len(),
        field_lines(owner, fs, k, ls, vs, global) is Some,
    ensures
        field_lines(owner, fs, j, ls, vs, global) is Some,
    decreases k - j,
{
    if j < k {
        lemma_field_lines_prefix(owner, fs, j, k - 1, ls, vs, global);
    }
}

pub open spec fn info_view(r: Option<ValueInfo>) -> Option<SInfo> {
    match r {
        Some(v) => Some(v@),
        None => None,
    }
}

struct LowerState<'a> {
    bg: &'a Background,
    current_ret_type: Option<KoopaType>,
    values: Table<ValueInfo>,
}

impl<'a> LowerState<'a> {
    spec fn state(&self) -> LState {
        LState { ret: self.current_ret_type, vals: vals_view(self.values.entries@) }
    }

    spec fn vals(&self) -> Vals {
        vals_view(self.values.entries@)
    }

    fn new(bg: &'a Background) -> (s: Self)
        ensures
            s.bg == bg,
            s.current_ret_type is None,
            s.values.entries@.len() == 0,
    {
        LowerState { bg, current_ret_type: None, values: Table::new() }
    }

    fn bind(&mut self, key: String, v: ValueInfo)
        ensures
            final(self).bg == old(self).bg,
            final(self).current_ret_type == old(self).current_ret_type,
            final(self).vals() == old(self).vals().push((key@, v@)),
    {
        let ghost kv = key@;
        let ghost vv = v@;
        self.values.insert(key, v);
        proof {
            assert(self.vals() =~= old(self).vals().push((kv, vv)));
        }
    }

    /// What `key` itself is bound to, aliases not followed.
    fn bound(&self, key: &str) -> (r: Option<&ValueInfo>)
        ensures
            match r {
                Some(v) => lookup(self.vals(), key@) == Some(v@),
                None => lookup(self.vals(), key@) is None,
            },
    {
        proof {
            lemma_lookup_view(self.values.entries@, key@);
        }
        self.values.get(key)
    }

    fn resolve_symbol(&self, symbol: &str) -> (r: String)
        requires
            res(self.vals(), symbol@) is Some,
        ensures
            res(self.vals(), symbol@) == Some(r@),
    {
        let ghost vs = self.vals();
        let mut cur = symbol.to_owned();
        let mut fuel: usize = self.values.entries.len();
        loop
            invariant
                vs == self.vals(),
                fuel <= vs.len(),
                resolve(vs, cur@, fuel as nat) == res(vs, symbol@),
                res(vs, symbol@) is Some,
            decreases fuel,
        {
            match self.bound(cur.as_str()) {
                Some(ValueInfo::Alias(next)) => {
                    if fuel == 0 {
                        proof {
                            assert(resolve(vs, cur@, 0) is None);
                        }
                        return cur;
                    }
                    let n = next.clone();
                    fuel = fuel - 1;
                    cur = n;
                }
                _ => {
                    return cur;
                }
            }
        }
    }

    fn value_info(&self, symbol: &str) -> (r: Option<ValueInfo>)
        requires
            info(self.vals(), symbol@) is Some,
        ensures
            info(self.vals(), symbol@) == Some(info_view(r)),
    {
        let resolved = self.resolve_symbol(symbol);
        match self.bound(resolved.as_str()) {
            Some(v) => Some(v.copy()),
            None => None,
        }
    }

    /// The lines that give storage of its own to each pointer field of a new
    /// object `owner` of a struct laid out as `layout`.
    fn push_field_storage(&mut self, owner: &str, layout: &StructLayout, global: bool, lines: &mut Vec<String>)
        requires
            field_lines(owner@, layout.fields@, layout.fields@.len() as int, old(self).bg.struct_layouts.entries@, old(self).vals(), global) is Some,
        ensures
            final(self).bg == old(self).bg,
            final(self).current_ret_type == old(self).current_ret_type,
            field_lines(owner@, layout.fields@, layout.fields@.len() as int, old(self).bg.struct_layouts.entries@, old(self).vals(), global)
                == Some((final(self).vals(), string_views(final(lines)@).skip(old(lines)@.len() as int))),
            string_views(final(lines)@).take(old(lines)@.len() as int) == string_views(old(lines)@),
            final(lines)@.len() >= old(lines)@.len(),
    {
        let ghost ls = self.bg.struct_layouts.entries@;
        let ghost v0 = self.vals();
        let ghost l0 = lines@.len() as int;
        let ghost fs = layout.fields@;
        let bg = self.bg;
        let mut i: usize = 0;
        proof {
            assert(string_views(lines@).skip(l0) =~= Seq::<Seq<char>>::empty());
            assert(string_views(lines@).take(l0) =~= string_views(old(lines)@));
        }
        while i < layout.fields.len()
            invariant
                i <= fs.len(),
                fs == layout.fields@,
                bg == self.bg,
                self.bg == old(self).bg,
                self.current_ret_type == old(self).current_ret_type,
                ls == self.bg.struct_layouts.entries@,
                lines@.len() >= l0,
                l0 == old(lines)@.len(),
                string_views(lines@).take(l0) == string_views(old(lines)@),
                field_lines(owner@, fs, fs.len() as int, ls, v0, global) is Some,
                field_lines(owner@, fs, i as int, ls, v0, global) == Some((self.vals(), string_views(lines@).skip(l0))),
            decreases fs.len() - i,
        {
            proof {
                lemma_field_lines_prefix(owner@, fs, i + 1, fs.len() as int, ls, v0, global);
            }
            let field = &layout.fields[i];
            let ghost before = string_views(lines@);
            if let ValueType::Pointer(_) = &field.ty {
                let st = field_storage_name(owner, field.name.as_str());
                let kt = field.ty.to_koopa_type(bg);
                let t = lower_type(&kt, bg);
                let mut line = if global { "global ".to_owned() } else { "\t".to_owned() };
                line.append(st.as_str());
                line.append(" = alloc ");
                line.append(t.as_str());
                if global {
                    line.append(", zeroinit\n");
                }
                lines.push(line);
                self.bind(st, ValueInfo::FieldStorage { field_ty: field.ty.copy(), stored_symbol: None });
                proof {
                    assert(string_views(lines@) =~= before.push(string_views(lines@).last()));
                    assert(string_views(lines@).skip(l0) =~= before.skip(l0).push(string_views(lines@).last()));
                    assert(string_views(lines@).take(l0) =~= before.take(l0));
                }
            }
            i = i + 1;
        }
    }

    fn lower_struct_alloc(&mut self, name: &str, struct_name: &str) -> (r: Vec<String>)
        requires
            struct_alloc(name@, struct_name@, None, old(self).bg.struct_layouts.entries@, old(self).vals()) is Some,
        ensures
            final(self).bg == old(self).bg,
            final(self).current_ret_type == old(self).current_ret_type,
            struct_alloc(name@, struct_name@, None, old(self).bg.struct_layouts.entries@, old(self).vals())
                == Some((final(self).vals(), string_views(r@))),
    {
        let bg = self.bg;
        let layout = bg.get_struct_layout(struct_name);
        let mut first = "\t".to_owned();
        first.append(name);
        first.append(" = alloc ");
        first.append("[i32, ");
        let n = usize_text(layout.size / 4);
        first.append(n.as_str());
        first.append("]");
        proof {
            assert(first@ =~= "\t"@ + name@ + " = alloc "@ + ("[i32, "@ + nat_text(layout.size as nat / 4) + "]"@));
        }
        let mut lines: Vec<String> = Vec::new();
        lines.push(first);
        self.bind(name.to_owned(), ValueInfo::StructBase(StructBaseInfo {
            struct_name: struct_name.to_owned(),
            object_symbol: Some(name.to_owned()),
        }));
        let ghost one = string_views(lines@);
        self.push_field_storage(name, layout, false, &mut lines);
        proof {
            let sv = string_views(lines@);
                assert(sv =~= sv.take(1) + sv.skip(1));
        }
        lines
    }

    fn lower_struct_global_alloc(&mut self, name: &str, struct_name: &str, init: &str) -> (r: Vec<String>)
        requires
            struct_alloc(name@, struct_name@, Some(init@), old(self).bg.struct_layouts.entries@, old(self).vals()) is Some,
        ensures
            final(self).bg == old(self).bg,
            final(self).current_ret_type == old(self).current_ret_type,
            struct_alloc(name@, struct_name@, Some(init@), old(self).bg.struct_layouts.entries@, old(self).vals())
                == Some((final(self).vals(), string_views(r@))),
    {
        let bg = self.bg;
        let layout = bg.get_struct_layout(struct_name);
        let mut first = "global ".to_owned();
        first.append(name);
        first.append(" = alloc ");
        first.append("[i32, ");
        let n = usize_text(layout.size / 4);
        first.append(n.as_str());
        first.append("]");
        first.append(", ");
        first.append(init);
        first.append("\n");
        proof {
            assert(first@ =~= "global "@ + name@ + " = alloc "@ + ("[i32, "@ + nat_text(layout.size as nat / 4) + "]"@) + ", "@ + init@ + "\n"@);
        }
        let mut lines: Vec<String> = Vec::new();
        lines.push(first);
        self.bind(name.to_owned(), ValueInfo::StructBase(StructBaseInfo {
            struct_name: struct_name.to_owned(),
            object_symbol: Some(name.to_owned()),
        }));
        let ghost one = string_views(lines@);
        self.push_field_storage(name, layout, true, &mut lines);
        proof {
            let sv = string_views(lines@);
                assert(sv =~= sv.take(1) + sv.skip(1));
        }
        lines
    }

    fn lower_heap_alloc(&mut self, name: &str, ty: &KoopaType) -> (r: Vec<String>)
        requires
            heap_alloc(name@, *ty, old(self).bg.struct_layouts.entries@, old(self).vals()) is Some,
        ensures
            final(self).bg == old(self).bg,
            final(self).current_ret_type == old(self).current_ret_type,
            heap_alloc(name@, *ty, old(self).bg.struct_layouts.entries@, old(self).vals())
                == Some((final(self).vals(), string_views(r@))),
    {
        let bg = self.bg;
        let size = value_size(ty, bg);
        let mut first = "\t".to_owned();
        first.append(name);
        first.append(" = call @malloc(");
        let n = usize_text(size);
        first.append(n.as_str());
        first.append(")");
        let mut lines: Vec<String> = Vec::new();
        lines.push(first);
        if let KoopaType::Struct(struct_name) = ty {
            let layout = bg.get_struct_layout(struct_name.as_str());
            self.bind(name.to_owned(), ValueInfo::StructBase(StructBaseInfo {
                struct_name: struct_name.clone(),
                object_symbol: Some(name.to_owned()),
            }));
            let ghost one = string_views(lines@);
            self.push_field_storage(name, layout, false, &mut lines);
            proof {
                let sv = string_views(lines@);
                assert(sv =~= sv.take(1) + sv.skip(1));
            }
        } else {
            proof {
                assert(string_views(lines@) =~= seq![string_views(lines@)[0]]);
            }
        }
        lines
    }
}

fn no_lines() -> (r: Vec<String>)
    ensures
        string_views(r@) == Seq::<Seq<char>>::empty(),
{
    let v: Vec<String> = Vec::new();
    proof {
        assert(string_views(v@) =~= Seq::<Seq<char>>::empty());
    }
    v
}

fn one(line: String) -> (r: Vec<String>)
    ensures
        string_views(r@) == seq![line@],
{
    let mut v: Vec<String> = Vec::new();
    v.push(line);
    proof {
        assert(string_views(v@) =~= seq![line@]);
    }
    v
}

fn find_field_named<'b>(fields: &'b Vec<StructFieldLayout>, name: &str) -> (r: Option<&'b StructFieldLayout>)
    ensures
        match r {
            Some(f) => field_named(fields@, name@) == Some(*f),
            None => field_named(fields@, name@) is None,
        },
{
    let ghost fs = fields@;
    let mut i: usize = 0;
    proof {
        assert(fs.skip(0) =~= fs);
    }
    while i < fields.len()
        invariant
            i <= fs.len(),
            fs == fields@,
            field_named(fs, name@) == field_named(fs.skip(i as int), name@),
        decreases fs.len() - i,
    {
        proof {
            assert(fs.skip(i as int).drop_first() =~= fs.skip(i + 1));
            assert(fs.skip(i as int)[0] == fs[i as int]);
        }
        if str_eq(fields[i].name.as_str(), name) {
            return Some(&fields[i]);
        }
        i = i + 1;
    }
    None
}

fn find_field_at<'b>(fields: &'b Vec<StructFieldLayout>, slot: usize) -> (r: Option<&'b StructFieldLayout>)
    ensures
        match r {
            Some(f) => field_at(fields@, slot as nat) == Some(*f),
            None => field_at(fields@, slot as nat) is None,
        },
{
    let ghost fs = fields@;
    let mut i: usize = 0;
    proof {
        assert(fs.skip(0) =~= fs);
    }
    while i < fields.len()
        invariant
            i <= fs.len(),
            fs == fields@,
            field_at(fs, slot as nat) == field_at(fs.skip(i as int), slot as nat),
        decreases fs.len() - i,
    {
        proof {
            assert(fs.skip(i as int).drop_first() =~= fs.skip(i + 1));
            assert(fs.skip(i as int)[0] == fs[i as int]);
        }
        if fields[i].offset / 4 == slot {
            return Some(&fields[i]);
        }
        i = i + 1;
    }
    None
}

impl<'a> LowerState<'a> {
    /// The name and type of the field of struct `struct_name` that starts at word `slot`.
    fn field_at_slot(&self, struct_name: &str, slot: usize) -> (r: Option<(String, ValueType)>)
        requires
            assoc(self.bg.struct_layouts.entries@, struct_name@) is Some,
        ensures
            match field_at(assoc(self.bg.struct_layouts.entries@, struct_name@)->Some_0.fields@, slot as nat) {
                Some(f) => r matches Some((n, t)) && n@ == f.name@ && t@ == f.ty@,
                None => r is None,
            },
    {
        let layout = self.bg.get_struct_layout(struct_name);
        match find_field_at(&layout.fields, slot) {
            Some(f) => Some((f.name.clone(), f.ty.copy())),
            None => None,
        }
    }

    fn lower_store(&mut self, value: &String, ptr: &String) -> (r: Vec<String>)
        requires
            store_step(old(self).vals(), value@, ptr@) is Some,
        ensures
            final(self).bg == old(self).bg,
            final(self).current_ret_type == old(self).current_ret_type,
            store_step(old(self).vals(), value@, ptr@) == Some((final(self).vals(), string_views(r@))),
    {
        let value = self.resolve_symbol(value.as_str());
        let ptr = self.resolve_symbol(ptr.as_str());
        let is_pointer = match self.bound(ptr.as_str()) {
            Some(ValueInfo::PointerStorage { .. }) => true,
            _ => false,
        };
        if is_pointer {
            self.bind(ptr.clone(), ValueInfo::PointerStorage { stored_symbol: Some(value.clone()) });
        }
        let field_ty = match self.bound(ptr.as_str()) {
            Some(ValueInfo::FieldStorage { field_ty, .. }) => Some(field_ty.copy()),
            _ => None,
        };
        if let Some(ft) = field_ty {
            self.bind(ptr.clone(), ValueInfo::FieldStorage { field_ty: ft, stored_symbol: Some(value.clone()) });
        }
        let mut line = "\tstore ".to_owned();
        line.append(value.as_str());
        line.append(", ");
        line.append(ptr.as_str());
        one(line)
    }

    fn lower_load(&mut self, dest: &String, ptr: &String) -> (r: Vec<String>)
        requires
            load_step(old(self).vals(), dest@, ptr@) is Some,
        ensures
            final(self).bg == old(self).bg,
            final(self).current_ret_type == old(self).current_ret_type,
            load_step(old(self).vals(), dest@, ptr@) == Some((final(self).vals(), string_views(r@))),
    {
        let ghost v0 = self.vals();
        let ptr = self.resolve_symbol(ptr.as_str());
        if let Some(ValueInfo::PointerStorage { stored_symbol: Some(symbol) }) = self.value_info(ptr.as_str()) {
            if let Some(ValueInfo::StructBase(info)) = self.value_info(symbol.as_str()) {
                self.bind(dest.clone(), ValueInfo::StructBase(info));
            }
        }
        let ghost v1 = self.vals();
        proof {
            assert(load_from_pointer(v0, dest@, ptr@) == Some(v1));
        }
        let fi = self.value_info(ptr.as_str());
        if let Some(ValueInfo::FieldStorage { field_ty, stored_symbol }) = fi {
            if let Some(symbol) = stored_symbol {
                if let Some(ValueInfo::StructBase(info)) = self.value_info(symbol.as_str()) {
                    self.bind(dest.clone(), ValueInfo::StructBase(info));
                }
            }
            let ghost v2 = self.vals();
            if let ValueType::Pointer(inner) = &field_ty {
                proof {
                    assert(field_ty@ == SValueType::Pointer(Box::new((**inner)@)));
                }
                if let ValueType::Struct(struct_name) = &**inner {
                    proof {
                        assert((**inner)@ == SValueType::Struct(struct_name@));
                    }
                    if self.bound(dest.as_str()).is_none() {
                        self.bind(dest.clone(), ValueInfo::StructBase(StructBaseInfo { struct_name: struct_name.clone(), object_symbol: None }));
                    }
                }
            }
        }
        proof {
            assert(load_from_field(v1, dest@, ptr@) == Some(self.vals()));
        }
        let mut line = "\t".to_owned();
        line.append(dest.as_str());
        line.append(" = load ");
        line.append(ptr.as_str());
        one(line)
    }
}

pub open spec fn res_view(r: Result<Vec<String>, String>) -> Result<Seq<Seq<char>>, Seq<char>> {
    match r {
        Ok(v) => Ok(string_views(v@)),
        Err(e) => Err(e@),
    }
}

impl<'a> LowerState<'a> {
    fn lower_elem_ptr(&mut self, dest: &String, ptr: &String, idx: &String) -> (r: Vec<String>)
        requires
            elem_ptr_step(old(self).vals(), dest@, ptr@, idx@) is Some,
        ensures
            final(self).bg == old(self).bg,
            final(self).current_ret_type == old(self).current_ret_type,
            elem_ptr_step(old(self).vals(), dest@, ptr@, idx@) == Some((final(self).vals(), string_views(r@))),
    {
        let ptr = self.resolve_symbol(ptr.as_str());
        if str_eq(idx.as_str(), "0") {
            if let Some(ValueInfo::StructBase(info)) = self.value_info(ptr.as_str()) {
                self.bind(dest.clone(), ValueInfo::StructBase(info));
            }
        }
        let mut line = "\t".to_owned();
        line.append(dest.as_str());
        line.append(" = getelemptr ");
        line.append(ptr.as_str());
        line.append(", ");
        line.append(idx.as_str());
        one(line)
    }

    fn lower_field_ptr(&mut self, dest: &String, ptr: &String, field_name: &String) -> (r: Result<Vec<String>, String>)
        requires
            field_ptr_step(old(self).vals(), old(self).bg.struct_layouts.entries@, dest@, ptr@, field_name@) is Some,
        ensures
            final(self).bg == old(self).bg,
            final(self).current_ret_type == old(self).current_ret_type,
            field_ptr_step(old(self).vals(), old(self).bg.struct_layouts.entries@, dest@, ptr@, field_name@)
                == Some((final(self).vals(), res_view(r))),
    {
        let bg = self.bg;
        let ptr = self.resolve_symbol(ptr.as_str());
        if let Some(ValueInfo::StructBase(info)) = self.value_info(ptr.as_str()) {
            let layout = bg.get_struct_layout(info.struct_name.as_str());
            let field = match find_field_named(&layout.fields, field_name.as_str()) {
                Some(f) => f,
                None => {
                    let mut e = "struct ".to_owned();
                    e.append(info.struct_name.as_str());
                    e.append(" has no field named ");
                    e.append(field_name.as_str());
                    return Err(e);
                }
            };
            if let ValueType::Pointer(_) = &field.ty {
                if let Some(owner) = &info.object_symbol {
                    let storage = field_storage_name(owner.as_str(), field_name.as_str());
                    self.bind(dest.clone(), ValueInfo::Alias(storage.clone()));
                    if self.bound(storage.as_str()).is_none() {
                        self.bind(storage, ValueInfo::FieldStorage { field_ty: field.ty.copy(), stored_symbol: None });
                    }
                    return Ok(no_lines());
                }
                let mut e = "unsupported lowering: pointer field access on non-materialized struct pointer ".to_owned();
                e.append(ptr.as_str());
                return Err(e);
            }
            let slot = field.offset / 4;
            if let ValueType::Struct(inner_struct) = &field.ty {
                self.bind(dest.clone(), ValueInfo::StructBase(StructBaseInfo {
                    struct_name: inner_struct.clone(),
                    object_symbol: None,
                }));
            }
            let mut line = "\t".to_owned();
            line.append(dest.as_str());
            line.append(" = getptr ");
            line.append(ptr.as_str());
            line.append(", ");
            let n = usize_text(slot);
            line.append(n.as_str());
            return Ok(one(line));
        }
        let mut e = "unsupported lowering: field access on unknown struct base ".to_owned();
        e.append(ptr.as_str());
        Err(e)
    }

    fn lower_get_ptr(&mut self, dest: &String, ptr: &String, idx: &String) -> (r: Result<Vec<String>, String>)
        requires
            get_ptr_step(old(self).vals(), old(self).bg.struct_layouts.entries@, dest@, ptr@, idx@) is Some,
        ensures
            final(self).bg == old(self).bg,
            final(self).current_ret_type == old(self).current_ret_type,
            get_ptr_step(old(self).vals(), old(self).bg.struct_layouts.entries@, dest@, ptr@, idx@)
                == Some((final(self).vals(), res_view(r))),
    {
        let ptr = self.resolve_symbol(ptr.as_str());
        let mut line = "\t".to_owned();
        line.append(dest.as_str());
        line.append(" = getptr ");
        line.append(ptr.as_str());
        line.append(", ");
        line.append(idx.as_str());
        let slot = match parse_index(idx.as_str()) {
            Some(v) => v,
            None => {
                return Ok(one(line));
            }
        };
        if let Some(ValueInfo::StructBase(info)) = self.value_info(ptr.as_str()) {
            if let Some((field_name, field_ty)) = self.field_at_slot(info.struct_name.as_str(), slot) {
                if let ValueType::Pointer(_) = &field_ty {
                    if let Some(owner) = &info.object_symbol {
                        let storage = field_storage_name(owner.as_str(), field_name.as_str());
                        self.bind(dest.clone(), ValueInfo::Alias(storage.clone()));
                        self.bind(storage, ValueInfo::FieldStorage { field_ty, stored_symbol: None });
                        return Ok(no_lines());
                    }
                    let mut e = "unsupported lowering: pointer field access on non-materialized struct pointer ".to_owned();
                    e.append(ptr.as_str());
                    return Err(e);
                }
                if let ValueType::Struct(inner_struct) = &field_ty {
                    self.bind(dest.clone(), ValueInfo::StructBase(StructBaseInfo {
                        struct_name: inner_struct.clone(),
                        object_symbol: None,
                    }));
                }
            }
        }
        Ok(one(line))
    }
}

impl<'a> LowerState<'a> {
    fn lower_header(&mut self, name: &String, args: &Vec<KoopaParam>, ret_type: &KoopaType) -> (r: Vec<String>)
        requires
            params_lowerable(args@, old(self).bg.struct_layouts.entries@),
            ret_lowerable(*ret_type, old(self).bg.struct_layouts.entries@),
        ensures
            final(self).bg == old(self).bg,
            final(self).vals() == old(self).vals(),
            final(self).current_ret_type == Some(*ret_type),
            string_views(r@) == seq![header_text(name@, def_params_text(args@, old(self).bg.struct_layouts.entries@), *ret_type, old(self).bg.struct_layouts.entries@)],
    {
        let bg = self.bg;
        self.current_ret_type = Some(ret_type.copy());
        let params = lower_params(args, bg, true);
        let mut line = "fun @".to_owned();
        line.append(name.as_str());
        line.append("(");
        line.append(params.as_str());
        if let KoopaType::Void = ret_type {
            line.append(") {");
        } else {
            line.append("): ");
            let t = lower_type(ret_type, bg);
            line.append(t.as_str());
            line.append(" {");
        }
        one(line)
    }

    /// Lowers one line, or says why it cannot be lowered.
    fn lower_line(&mut self, line: &KoopaLine) -> (r: Result<Vec<String>, String>)
        requires
            lower_step(old(self).bg.struct_layouts.entries@, old(self).state(), *line) is Some,
        ensures
            final(self).bg == old(self).bg,
            lower_step(old(self).bg.struct_layouts.entries@, old(self).state(), *line) == Some((final(self).state(), res_view(r))),
    {
        let bg = self.bg;
        match line {
            KoopaLine::StructDecl(_, _) | KoopaLine::PromiseDecl(_, _) => Ok(no_lines()),
            KoopaLine::FuncDecl(name, args, ret_type) => {
                let params = lower_params(args, bg, false);
                let mut s = "decl @".to_owned();
                s.append(name.as_str());
                s.append("(");
                s.append(params.as_str());
                if let KoopaType::Void = ret_type {
                    s.append(")");
                } else {
                    s.append("): ");
                    let t = lower_type(ret_type, bg);
                    s.append(t.as_str());
                }
                Ok(one(s))
            }
            KoopaLine::FuncStart(name, args, ret_type) => Ok(self.lower_header(name, args, ret_type)),
            KoopaLine::AsyncFuncStart(name, args, ret_type) => Ok(self.lower_header(name, args, ret_type)),
            KoopaLine::FuncEnd => {
                self.current_ret_type = None;
                Ok(one("}\n".to_owned()))
            }
            KoopaLine::Label(label) => {
                let mut s = label.clone();
                s.append(":");
                Ok(one(s))
            }
            KoopaLine::ArgLabel(label, arg_name, arg_type) => {
                let mut s = "\n".to_owned();
                s.append(label.as_str());
                s.append("(");
                s.append(arg_name.as_str());
                s.append(": ");
                let t = lower_type(arg_type, bg);
                s.append(t.as_str());
                s.append("):");
                Ok(one(s))
            }
            KoopaLine::GlobalAlloc(name, ty, init) => {
                if let KoopaType::Struct(struct_name) = ty {
                    return Ok(self.lower_struct_global_alloc(name.as_str(), struct_name.as_str(), init.as_str()));
                }
                if let KoopaType::Ptr(_) = ty {
                    self.bind(name.clone(), ValueInfo::PointerStorage { stored_symbol: None });
                }
                let mut s = "global ".to_owned();
                s.append(name.as_str());
                s.append(" = alloc ");
                let t = lower_type(ty, bg);
                s.append(t.as_str());
                s.append(", ");
                s.append(init.as_str());
                s.append("\n");
                Ok(one(s))
            }
            KoopaLine::Alloc(name, ty) => {
                if let KoopaType::Struct(struct_name) = ty {
                    return Ok(self.lower_struct_alloc(name.as_str(), struct_name.as_str()));
                }
                if let KoopaType::Ptr(_) = ty {
                    self.bind(name.clone(), ValueInfo::PointerStorage { stored_symbol: None });
                }
                let mut s = "\t".to_owned();
                s.append(name.as_str());
                s.append(" = alloc ");
                let t = lower_type(ty, bg);
                s.append(t.as_str());
                Ok(one(s))
            }
            KoopaLine::HeapAlloc(name, ty) => Ok(self.lower_heap_alloc(name.as_str(), ty)),
            KoopaLine::Store(value, ptr) => Ok(self.lower_store(value, ptr)),
            KoopaLine::Load(dest, ptr) => Ok(self.lower_load(dest, ptr)),
            KoopaLine::StructFieldPtr(dest, ptr, field_name) => self.lower_field_ptr(dest, ptr, field_name),
            KoopaLine::GetElemPtr(dest, ptr, idx) => Ok(self.lower_elem_ptr(dest, ptr, idx)),
            KoopaLine::GetPtr(dest, ptr, idx) => self.lower_get_ptr(dest, ptr, idx),
            KoopaLine::Binary(dest, op, lhs, rhs) => {
                let l = self.resolve_symbol(lhs.as_str());
                let r = self.resolve_symbol(rhs.as_str());
                let mut s = "\t".to_owned();
                s.append(dest.as_str());
                s.append(" = ");
                s.append(op.as_str());
                s.append(" ");
                s.append(l.as_str());
                s.append(", ");
                s.append(r.as_str());
                Ok(one(s))
            }
            KoopaLine::AsyncCall(dest, func, arg) | KoopaLine::Call(dest, func, arg) => {
                let mut s = "\t".to_owned();
                s.append(dest.as_str());
                s.append(" = call @");
                s.append(func.as_str());
                s.append("(");
                s.append(arg.as_str());
                s.append(")");
                Ok(one(s))
            }
            KoopaLine::CallbackWrap(dest, promise, _) => {
                let p = self.resolve_symbol(promise.as_str());
                let mut s = "\t".to_owned();
                s.append(dest.as_str());
                s.append(" = add 0, ");
                s.append(p.as_str());
                Ok(one(s))
            }
            KoopaLine::Sleep(dest, _) => {
                let mut s = "\t".to_owned();
                s.append(dest.as_str());
                s.append(" = add 0, 0");
                Ok(one(s))
            }
            KoopaLine::PromiseWait(_) => Ok(no_lines()),
            KoopaLine::Br(cond, then_bb, else_bb) => {
                let c = self.resolve_symbol(cond.as_str());
                let mut s = "\tbr ".to_owned();
                s.append(c.as_str());
                s.append(", ");
                s.append(then_bb.as_str());
                s.append(", ");
                s.append(else_bb.as_str());
                Ok(one(s))
            }
            KoopaLine::Jump(target) => {
                let mut s = "\tjump ".to_owned();
                s.append(target.as_str());
                Ok(one(s))
            }
            KoopaLine::ArgJump(target, arg) => {
                let a = self.resolve_symbol(arg.as_str());
                let mut s = "\tjump ".to_owned();
                s.append(target.as_str());
                s.append("(");
                s.append(a.as_str());
                s.append(")");
                Ok(one(s))
            }
            KoopaLine::VoidCall(func, arg) => {
                let mut s = "\tcall @".to_owned();
                s.append(func.as_str());
                s.append("(");
                s.append(arg.as_str());
                s.append(")");
                Ok(one(s))
            }
            KoopaLine::Ret(value) => {
                let v = self.resolve_symbol(value.as_str());
                let mut s = "\tret ".to_owned();
                s.append(v.as_str());
                Ok(one(s))
            }
            KoopaLine::VoidRet => {
                if let Some(ret_ty) = &self.current_ret_type {
                    if let Some(value) = default_ret_value(ret_ty) {
                        let mut s = "\tret ".to_owned();
                        s.append(value);
                        return Ok(one(s));
                    }
                }
                Ok(one("\tret".to_owned()))
            }
        }
    }
}

proof fn lemma_lower_run_prefix(ls: Seq<(String, StructLayout)>, st: LState, lines: Seq<KoopaLine>, j: int, k: int)
    requires
        0 <= j <= k <= lines.len(),
        lower_run(ls, st, lines, k) is Some,
    ensures
        lower_run(ls, st, lines, j) is Some,
    decreases k - j,
{
    if j < k {
        lemma_lower_run_prefix(ls, st, lines, j, k - 1);
    }
}

fn append_all(dst: &mut Vec<String>, src: Vec<String>)
    ensures
        string_views(final(dst)@) == string_views(old(dst)@) + string_views(src@),
{
    let ghost d0 = string_views(dst@);
    let ghost sv = string_views(src@);
    let mut i: usize = 0;
    proof {
        assert(d0 + sv.take(0) =~= d0);
    }
    while i < src.len()
        invariant
            i <= src@.len(),
            sv == string_views(src@),
            d0 == string_views(old(dst)@),
            string_views(dst@) == d0 + sv.take(i as int),
        decreases src.len() - i,
    {
        let x = src[i].clone();
        let ghost before = string_views(dst@);
        dst.push(x);
        proof {
            assert(string_views(dst@) =~= before.push(sv[i as int]));
            assert(d0 + sv.take(i + 1) =~= (d0 + sv.take(i as int)).push(sv[i as int]));
        }
        i = i + 1;
    }
    proof {
        assert(sv.take(src@.len() as int) =~= sv);
    }
}

/// Lowers Koopa text with structs and promises to plain Koopa text, given
/// the struct layouts: structs become arrays of words, pointer fields get
/// storage of their own, promises their results, and heap objects calls of
/// `malloc`. Lines that cannot be lowered are refused by `requires`, as are
/// those whose lowering would not come back.
pub fn lower_lines(lines: &KoopaLines, bg: &Background) -> (r: String)
    requires
        lowered_program(bg.struct_layouts.entries@, lines@) is Some,
    ensures
        lowered_program(bg.struct_layouts.entries@, lines@) == Some(r@),
{
    let ghost ls = bg.struct_layouts.entries@;
    let input = lines.lines();
    let ghost ins = input@;
    let mut needs_malloc = false;
    let mut has_malloc_decl = false;
    let mut i: usize = 0;
    while i < input.len()
        invariant
            i <= ins.len(),
            ins == input@,
            needs_malloc == exists|k: int| 0 <= k < i && #[trigger] ins[k] is HeapAlloc,
            has_malloc_decl == exists|k: int| 0 <= k < i && (#[trigger] ins[k] matches KoopaLine::FuncDecl(n, _, _) && n@ == "malloc"@),
        decreases ins.len() - i,
    {
        match &input[i] {
            KoopaLine::HeapAlloc(_, _) => {
                needs_malloc = true;
            }
            KoopaLine::FuncDecl(name, _, _) => {
                if str_eq(name.as_str(), "malloc") {
                    has_malloc_decl = true;
                }
            }
            _ => {}
        }
        i = i + 1;
    }
    let mut state = LowerState::new(bg);
    let mut lowered: Vec<String> = Vec::new();
    if needs_malloc && !has_malloc_decl {
        lowered.push("decl @malloc(i32): *i32".to_owned());
    }
    let ghost head = string_views(lowered@);
    proof {
        assert(state.state() == LState { ret: None, vals: Seq::empty() }) by {
            assert(vals_view(state.values.entries@) =~= Seq::<(Seq<char>, SInfo)>::empty());
        }
        if needs_malloc_decl(ins) {
            assert(head =~= seq!["decl @malloc(i32): *i32"@]);
        } else {
            assert(head =~= Seq::<Seq<char>>::empty());
        }
    }
    let ghost st0 = state.state();
    let mut k: usize = 0;
    while k < input.len()
        invariant
            k <= ins.len(),
            ins == input@,
            state.bg == bg,
            ls == bg.struct_layouts.entries@,
            lower_run(ls, st0, ins, ins.len() as int) is Some,
            lower_run(ls, st0, ins, k as int) matches Some((st, out))
                && st == state.state() && string_views(lowered@) == head + out,
        decreases ins.len() - k,
    {
        proof {
            lemma_lower_run_prefix(ls, st0, ins, k + 1, ins.len() as int);
        }
        match state.lower_line(&input[k]) {
            Ok(chunk) => {
                append_all(&mut lowered, chunk);
                proof {
                    let prev = lower_run(ls, st0, ins, k as int)->Some_0.1;
                    assert(string_views(lowered@) =~= head + (prev + string_views(chunk@)));
                }
            }
            Err(_) => {
                proof {
                    assert(false);
                }
            }
        }
        k = k + 1;
    }
    proof {
        assert(string_views(lowered@) == head + lower_run(ls, st0, ins, ins.len() as int)->Some_0.1);
    }
    join(&lowered, "\n")
}

} // verus!
