use vstd::prelude::*;
use crate::text::{cat, cat3, cat4, join, join_texts, nat_text, string_views, usize_text};

verus! {

broadcast use vstd::std_specs::vec::group_vec_axioms;

/// A type of the Koopa intermediate representation.
#[derive(Debug)]
pub enum KoopaType {
    I32,
    Void,
    Promise(Box<KoopaType>),
    Struct(String),
    Ptr(Box<KoopaType>),
    Array(Box<KoopaType>, usize),
}

/// The text of a Koopa type.
pub open spec fn type_text(t: KoopaType) -> Seq<char>
    decreases t,
{
    match t {
        KoopaType::I32 => "i32"@,
        KoopaType::Void => "void"@,
        KoopaType::Promise(inner) => "promise<"@ + type_text(*inner) + ">"@,
        KoopaType::Struct(name) => "struct @"@ + name@,
        KoopaType::Ptr(inner) => "*"@ + type_text(*inner),
        KoopaType::Array(inner, len) => "["@ + type_text(*inner) + ", "@ + nat_text(len as nat) + "]"@,
    }
}

impl KoopaType {
    pub fn ptr(base: KoopaType) -> (t: Self)
        ensures
            t == KoopaType::Ptr(Box::new(base)),
    {
        KoopaType::Ptr(Box::new(base))
    }

    pub fn array(base: KoopaType, len: usize) -> (t: Self)
        ensures
            t == KoopaType::Array(Box::new(base), len),
    {
        KoopaType::Array(Box::new(base), len)
    }

    pub fn copy(&self) -> (t: Self)
        ensures
            t == *self,
        decreases self,
    {
        match self {
            KoopaType::I32 => KoopaType::I32,
            KoopaType::Void => KoopaType::Void,
            KoopaType::Promise(inner) => KoopaType::Promise(Box::new(inner.copy())),
            KoopaType::Struct(name) => KoopaType::Struct(name.clone()),
            KoopaType::Ptr(inner) => KoopaType::Ptr(Box::new(inner.copy())),
            KoopaType::Array(inner, len) => KoopaType::Array(Box::new(inner.copy()), *len),
        }
    }

    pub fn display_wrapped(&self) -> (s: String)
        ensures
            s@ == type_text(*self),
        decreases self,
    {
        match self {
            KoopaType::I32 => String::from_str("i32"),
            KoopaType::Void => String::from_str("void"),
            KoopaType::Promise(inner) => {
                let t = inner.display_wrapped();
                cat3("promise<", t.as_str(), ">")
            }
            KoopaType::Struct(name) => cat("struct @", name.as_str()),
            KoopaType::Ptr(inner) => {
                let t = inner.display_wrapped();
                cat("*", t.as_str())
            }
            KoopaType::Array(inner, len) => {
                let t = inner.display_wrapped();
                let n = usize_text(*len);
                let a = cat3("[", t.as_str(), ", ");
                cat3(a.as_str(), n.as_str(), "]")
            }
        }
    }
}

/// A named parameter of a function.
#[derive(Debug)]
pub struct KoopaParam {
    pub name: String,
    pub ty: KoopaType,
}

pub open spec fn param_text(p: KoopaParam) -> Seq<char> {
    p.name@ + ": "@ + type_text(p.ty)
}

impl KoopaParam {
    pub fn new(name: String, ty: KoopaType) -> (p: Self)
        ensures
            p.name == name,
            p.ty == ty,
    {
        KoopaParam { name, ty }
    }

    fn display_wrapped(&self) -> (s: String)
        ensures
            s@ == param_text(*self),
    {
        let t = self.ty.display_wrapped();
        cat3(self.name.as_str(), ": ", t.as_str())
    }

    fn wrapped_type(&self) -> (s: String)
        ensures
            s@ == type_text(self.ty),
    {
        self.ty.display_wrapped()
    }

    pub fn copy(&self) -> (p: Self)
        ensures
            p == *self,
    {
        KoopaParam { name: self.name.clone(), ty: self.ty.copy() }
    }
}

/// A named field of a struct type.
#[derive(Debug)]
pub struct KoopaField {
    pub name: String,
    pub ty: KoopaType,
}

pub open spec fn field_text(f: KoopaField) -> Seq<char> {
    type_text(f.ty) + " "@ + f.name@
}

impl KoopaField {
    pub fn new(name: String, ty: KoopaType) -> (f: Self)
        ensures
            f.name == name,
            f.ty == ty,
    {
        KoopaField { name, ty }
    }

    fn display_wrapped(&self) -> (s: String)
        ensures
            s@ == field_text(*self),
    {
        let t = self.ty.display_wrapped();
        cat3(t.as_str(), " ", self.name.as_str())
    }

    pub fn copy(&self) -> (f: Self)
        ensures
            f == *self,
    {
        KoopaField { name: self.name.clone(), ty: self.ty.copy() }
    }
}

/// Copies of a list of fields.
pub fn copy_fields(v: &Vec<KoopaField>) -> (r: Vec<KoopaField>)
    ensures
        r@ == v@,
{
    let mut r: Vec<KoopaField> = Vec::new();
    let mut i: usize = 0;
    while i < v.len()
        invariant
            i <= v@.len(),
            r@ == v@.take(i as int),
        decreases v.len() - i,
    {
        r.push(v[i].copy());
        proof {
            assert(v@.take(i + 1) =~= v@.take(i as int).push(v@[i as int]));
        }
        i = i + 1;
    }
    proof {
        assert(v@.take(v@.len() as int) =~= v@);
    }
    r
}

/// Copies of a list of parameters.
pub fn copy_params(v: &Vec<KoopaParam>) -> (r: Vec<KoopaParam>)
    ensures
        r@ == v@,
{
    let mut r: Vec<KoopaParam> = Vec::new();
    let mut i: usize = 0;
    while i < v.len()
        invariant
            i <= v@.len(),
            r@ == v@.take(i as int),
        decreases v.len() - i,
    {
        r.push(v[i].copy());
        proof {
            assert(v@.take(i + 1) =~= v@.take(i as int).push(v@[i as int]));
        }
        i = i + 1;
    }
    proof {
        assert(v@.take(v@.len() as int) =~= v@);
    }
    r
}

/// Two lines are the same line: equal parts, lists equal element by element.
pub open spec fn same_line(a: KoopaLine, b: KoopaLine) -> bool {
    match (a, b) {
        (KoopaLine::StructDecl(n1, f1), KoopaLine::StructDecl(n2, f2)) => n1 == n2 && f1@ == f2@,
        (KoopaLine::FuncDecl(n1, p1, t1), KoopaLine::FuncDecl(n2, p2, t2)) => n1 == n2 && p1@ == p2@ && t1 == t2,
        (KoopaLine::FuncStart(n1, p1, t1), KoopaLine::FuncStart(n2, p2, t2)) => n1 == n2 && p1@ == p2@ && t1 == t2,
        (KoopaLine::AsyncFuncStart(n1, p1, t1), KoopaLine::AsyncFuncStart(n2, p2, t2)) => n1 == n2 && p1@ == p2@ && t1 == t2,
        _ => a == b,
    }
}

/// One line of Koopa text.
#[derive(Debug)]
pub enum KoopaLine {
    StructDecl(String, Vec<KoopaField>),
    PromiseDecl(String, KoopaType),
    FuncDecl(String, Vec<KoopaParam>, KoopaType),
    FuncStart(String, Vec<KoopaParam>, KoopaType),
    AsyncFuncStart(String, Vec<KoopaParam>, KoopaType),
    FuncEnd,
    Label(String),
    ArgLabel(String, String, KoopaType),
    GlobalAlloc(String, KoopaType, String),
    Alloc(String, KoopaType),
    HeapAlloc(String, KoopaType),
    Store(String, String),
    Load(String, String),
    StructFieldPtr(String, String, String),
    GetPtr(String, String, String),
    GetElemPtr(String, String, String),
    Binary(String, String, String, String),
    AsyncCall(String, String, String),
    CallbackWrap(String, String, String),
    Sleep(String, String),
    PromiseWait(String),
    Br(String, String, String),
    Jump(String),
    ArgJump(String, String),
    Call(String, String, String),
    VoidCall(String, String),
    Ret(String),
    VoidRet,
}

pub open spec fn fields_text(fs: Seq<KoopaField>) -> Seq<char> {
    join_texts(Seq::new(fs.len(), |i: int| field_text(fs[i])), ", "@)
}

pub open spec fn params_text(ps: Seq<KoopaParam>) -> Seq<char> {
    join_texts(Seq::new(ps.len(), |i: int| param_text(ps[i])), ", "@)
}

pub open spec fn param_types_text(ps: Seq<KoopaParam>) -> Seq<char> {
    join_texts(Seq::new(ps.len(), |i: int| type_text(ps[i].ty)), ", "@)
}

/// The text of a line.
pub open spec fn line_text(l: KoopaLine) -> Seq<char> {
    match l {
        KoopaLine::StructDecl(name, fields) => "type @"@ + name@ + " = { "@ + fields_text(fields@) + " }"@,
        KoopaLine::PromiseDecl(name, ret) =>
            "promisetype @"@ + name@ + ".promise = { result: "@ + type_text(ret) + ", callback: @"@ + name@ + ".callback }"@,
        KoopaLine::FuncDecl(name, args, ret) => match ret {
            KoopaType::Void => "decl @"@ + name@ + "("@ + param_types_text(args@) + ")"@,
            _ => "decl @"@ + name@ + "("@ + param_types_text(args@) + "): "@ + type_text(ret),
        },
        KoopaLine::FuncStart(name, args, ret) => match ret {
            KoopaType::Void => "fun @"@ + name@ + "("@ + params_text(args@) + ") {"@,
            _ => "fun @"@ + name@ + "("@ + params_text(args@) + "): "@ + type_text(ret) + " {"@,
        },
        KoopaLine::AsyncFuncStart(name, args, ret) =>
            "async fun @"@ + name@ + "("@ + params_text(args@) + "): promise<"@ + type_text(ret)
                + "> callback_hole %callback_hole {"@,
        KoopaLine::FuncEnd => "}\n"@,
        KoopaLine::Label(label) => label@ + ":"@,
        KoopaLine::ArgLabel(label, arg, ty) => "\n"@ + label@ + "("@ + arg@ + ": "@ + type_text(ty) + "):"@,
        KoopaLine::GlobalAlloc(name, ty, init) => "global "@ + name@ + " = alloc "@ + type_text(ty) + ", "@ + init@ + "\n"@,
        KoopaLine::Alloc(name, ty) => "\t"@ + name@ + " = alloc "@ + type_text(ty),
        KoopaLine::HeapAlloc(name, ty) => "\t"@ + name@ + " = new "@ + type_text(ty),
        KoopaLine::Store(value, ptr) => "\tstore "@ + value@ + ", "@ + ptr@,
        KoopaLine::Load(dest, ptr) => "\t"@ + dest@ + " = load "@ + ptr@,
        KoopaLine::StructFieldPtr(dest, ptr, field) => "\t"@ + dest@ + " = structfieldptr "@ + ptr@ + ", "@ + field@,
        KoopaLine::GetPtr(dest, ptr, idx) => "\t"@ + dest@ + " = getptr "@ + ptr@ + ", "@ + idx@,
        KoopaLine::GetElemPtr(dest, ptr, idx) => "\t"@ + dest@ + " = getelemptr "@ + ptr@ + ", "@ + idx@,
        KoopaLine::Binary(dest, op, lhs, rhs) => "\t"@ + dest@ + " = "@ + op@ + " "@ + lhs@ + ", "@ + rhs@,
        KoopaLine::AsyncCall(dest, func, arg) => "\t"@ + dest@ + " = asyncnew @"@ + func@ + "("@ + arg@ + ")"@,
        KoopaLine::CallbackWrap(dest, promise, callback) =>
            "\t@"@ + callback@ + " = callback.wrap "@ + promise@ + " -> "@ + dest@
                + "\n\tcallback.hole.fill %callback_hole, @"@ + callback@,
        KoopaLine::Sleep(dest, duration) => "\t"@ + dest@ + " = sleep "@ + duration@,
        KoopaLine::PromiseWait(promise) => "\tpromise.wait "@ + promise@ + " stateful"@,
        KoopaLine::Br(cond, then_bb, else_bb) => "\tbr "@ + cond@ + ", "@ + then_bb@ + ", "@ + else_bb@,
        KoopaLine::Jump(target) => "\tjump "@ + target@,
        KoopaLine::ArgJump(target, arg) => "\tjump "@ + target@ + "("@ + arg@ + ")"@,
        KoopaLine::Call(dest, func, arg) => "\t"@ + dest@ + " = call @"@ + func@ + "("@ + arg@ + ")"@,
        KoopaLine::VoidCall(func, arg) => "\tcall @"@ + func@ + "("@ + arg@ + ")"@,
        KoopaLine::Ret(value) => "\tret "@ + value@,
        KoopaLine::VoidRet => "\tret"@,
    }
}

fn join_fields(fs: &Vec<KoopaField>) -> (s: String)
    ensures
        s@ == fields_text(fs@),
{
    let mut parts: Vec<String> = Vec::new();
    let mut i: usize = 0;
    while i < fs.len()
        invariant
            i <= fs@.len(),
            parts@.len() == i,
            forall|j: int| 0 <= j < i ==> (#[trigger] parts@[j])@ == field_text(fs@[j]),
        decreases fs.len() - i,
    {
        parts.push(fs[i].display_wrapped());
        i = i + 1;
    }
    proof {
        assert(string_views(parts@) =~= Seq::new(fs@.len(), |i: int| field_text(fs@[i])));
    }
    join(&parts, ", ")
}

fn join_params(ps: &Vec<KoopaParam>) -> (s: String)
    ensures
        s@ == params_text(ps@),
{
    let mut parts: Vec<String> = Vec::new();
    let mut i: usize = 0;
    while i < ps.len()
        invariant
            i <= ps@.len(),
            parts@.len() == i,
            forall|j: int| 0 <= j < i ==> (#[trigger] parts@[j])@ == param_text(ps@[j]),
        decreases ps.len() - i,
    {
        parts.push(ps[i].display_wrapped());
        i = i + 1;
    }
    proof {
        assert(string_views(parts@) =~= Seq::new(ps@.len(), |i: int| param_text(ps@[i])));
    }
    join(&parts, ", ")
}

fn join_param_types(ps: &Vec<KoopaParam>) -> (s: String)
    ensures
        s@ == param_types_text(ps@),
{
    let mut parts: Vec<String> = Vec::new();
    let mut i: usize = 0;
    while i < ps.len()
        invariant
            i <= ps@.len(),
            parts@.len() == i,
            forall|j: int| 0 <= j < i ==> (#[trigger] parts@[j])@ == type_text(ps@[j].ty),
        decreases ps.len() - i,
    {
        parts.push(ps[i].wrapped_type());
        i = i + 1;
    }
    proof {
        assert(string_views(parts@) =~= Seq::new(ps@.len(), |i: int| type_text(ps@[i].ty)));
    }
    join(&parts, ", ")
}

impl KoopaLine {
    pub fn to_wrapped_string(&self) -> (s: String)
        ensures
            s@ == line_text(*self),
    {
        match self {
            KoopaLine::StructDecl(name, fields) => {
                let f = join_fields(fields);
                let a = cat3("type @", name.as_str(), " = { ");
                cat3(a.as_str(), f.as_str(), " }")
            }
            KoopaLine::PromiseDecl(name, ret) => {
                let t = ret.display_wrapped();
                let a = cat3("promisetype @", name.as_str(), ".promise = { result: ");
                let b = cat4(a.as_str(), t.as_str(), ", callback: @", name.as_str());
                cat(b.as_str(), ".callback }")
            }
            KoopaLine::FuncDecl(name, args, ret) => {
                let p = join_param_types(args);
                let a = cat4("decl @", name.as_str(), "(", p.as_str());
                match ret {
                    KoopaType::Void => cat(a.as_str(), ")"),
                    _ => {
                        let t = ret.display_wrapped();
                        cat3(a.as_str(), "): ", t.as_str())
                    }
                }
            }
            KoopaLine::FuncStart(name, args, ret) => {
                let p = join_params(args);
                let a = cat4("fun @", name.as_str(), "(", p.as_str());
                match ret {
                    KoopaType::Void => cat(a.as_str(), ") {"),
                    _ => {
                        let t = ret.display_wrapped();
                        cat4(a.as_str(), "): ", t.as_str(), " {")
                    }
                }
            }
            KoopaLine::AsyncFuncStart(name, args, ret) => {
                let p = join_params(args);
                let t = ret.display_wrapped();
                let a = cat4("async fun @", name.as_str(), "(", p.as_str());
                cat4(a.as_str(), "): promise<", t.as_str(), "> callback_hole %callback_hole {")
            }
            KoopaLine::FuncEnd => String::from_str("}\n"),
            KoopaLine::Label(label) => cat(label.as_str(), ":"),
            KoopaLine::ArgLabel(label, arg, ty) => {
                let t = ty.display_wrapped();
                let a = cat4("\n", label.as_str(), "(", arg.as_str());
                cat3(a.as_str(), ": ", t.as_str()).concat("):")
            }
            KoopaLine::GlobalAlloc(name, ty, init) => {
                let t = ty.display_wrapped();
                let a = cat4("global ", name.as_str(), " = alloc ", t.as_str());
                cat3(a.as_str(), ", ", init.as_str()).concat("\n")
            }
            KoopaLine::Alloc(name, ty) => {
                let t = ty.display_wrapped();
                cat4("\t", name.as_str(), " = alloc ", t.as_str())
            }
            KoopaLine::HeapAlloc(name, ty) => {
                let t = ty.display_wrapped();
                cat4("\t", name.as_str(), " = new ", t.as_str())
            }
            KoopaLine::Store(value, ptr) => cat4("\tstore ", value.as_str(), ", ", ptr.as_str()),
            KoopaLine::Load(dest, ptr) => cat4("\t", dest.as_str(), " = load ", ptr.as_str()),
            KoopaLine::StructFieldPtr(dest, ptr, field) => {
                let a = cat4("\t", dest.as_str(), " = structfieldptr ", ptr.as_str());
                cat3(a.as_str(), ", ", field.as_str())
            }
            KoopaLine::GetPtr(dest, ptr, idx) => {
                let a = cat4("\t", dest.as_str(), " = getptr ", ptr.as_str());
                cat3(a.as_str(), ", ", idx.as_str())
            }
            KoopaLine::GetElemPtr(dest, ptr, idx) => {
                let a = cat4("\t", dest.as_str(), " = getelemptr ", ptr.as_str());
                cat3(a.as_str(), ", ", idx.as_str())
            }
            KoopaLine::Binary(dest, op, lhs, rhs) => {
                let a = cat4("\t", dest.as_str(), " = ", op.as_str());
                let b = cat4(a.as_str(), " ", lhs.as_str(), ", ");
                cat(b.as_str(), rhs.as_str())
            }
            KoopaLine::AsyncCall(dest, func, arg) => {
                let a = cat4("\t", dest.as_str(), " = asyncnew @", func.as_str());
                cat3(a.as_str(), "(", arg.as_str()).concat(")")
            }
            KoopaLine::CallbackWrap(dest, promise, callback) => {
                let a = cat4("\t@", callback.as_str(), " = callback.wrap ", promise.as_str());
                let b = cat4(a.as_str(), " -> ", dest.as_str(), "\n\tcallback.hole.fill %callback_hole, @");
                cat(b.as_str(), callback.as_str())
            }
            KoopaLine::Sleep(dest, duration) => cat4("\t", dest.as_str(), " = sleep ", duration.as_str()),
            KoopaLine::PromiseWait(promise) => cat3("\tpromise.wait ", promise.as_str(), " stateful"),
            KoopaLine::Br(cond, then_bb, else_bb) => {
                let a = cat4("\tbr ", cond.as_str(), ", ", then_bb.as_str());
                cat3(a.as_str(), ", ", else_bb.as_str())
            }
            KoopaLine::Jump(target) => cat("\tjump ", target.as_str()),
            KoopaLine::ArgJump(target, arg) => {
                let a = cat4("\tjump ", target.as_str(), "(", arg.as_str());
                cat(a.as_str(), ")")
            }
            KoopaLine::Call(dest, func, arg) => {
                let a = cat4("\t", dest.as_str(), " = call @", func.as_str());
                cat3(a.as_str(), "(", arg.as_str()).concat(")")
            }
            KoopaLine::VoidCall(func, arg) => {
                let a = cat4("\tcall @", func.as_str(), "(", arg.as_str());
                cat(a.as_str(), ")")
            }
            KoopaLine::Ret(value) => cat("\tret ", value.as_str()),
            KoopaLine::VoidRet => String::from_str("\tret"),
        }
    }

    pub fn copy(&self) -> (r: KoopaLine)
        ensures
            same_line(r, *self),
    {
        match self {
            KoopaLine::StructDecl(a0, a1) => KoopaLine::StructDecl(a0.clone(), copy_fields(a1)),
            KoopaLine::PromiseDecl(a0, a1) => KoopaLine::PromiseDecl(a0.clone(), a1.copy()),
            KoopaLine::FuncDecl(a0, a1, a2) => KoopaLine::FuncDecl(a0.clone(), copy_params(a1), a2.copy()),
            KoopaLine::FuncStart(a0, a1, a2) => KoopaLine::FuncStart(a0.clone(), copy_params(a1), a2.copy()),
            KoopaLine::AsyncFuncStart(a0, a1, a2) => KoopaLine::AsyncFuncStart(a0.clone(), copy_params(a1), a2.copy()),
            KoopaLine::FuncEnd => KoopaLine::FuncEnd,
            KoopaLine::Label(a0) => KoopaLine::Label(a0.clone()),
            KoopaLine::ArgLabel(a0, a1, a2) => KoopaLine::ArgLabel(a0.clone(), a1.clone(), a2.copy()),
            KoopaLine::GlobalAlloc(a0, a1, a2) => KoopaLine::GlobalAlloc(a0.clone(), a1.copy(), a2.clone()),
            KoopaLine::Alloc(a0, a1) => KoopaLine::Alloc(a0.clone(), a1.copy()),
            KoopaLine::HeapAlloc(a0, a1) => KoopaLine::HeapAlloc(a0.clone(), a1.copy()),
            KoopaLine::Store(a0, a1) => KoopaLine::Store(a0.clone(), a1.clone()),
            KoopaLine::Load(a0, a1) => KoopaLine::Load(a0.clone(), a1.clone()),
            KoopaLine::StructFieldPtr(a0, a1, a2) => KoopaLine::StructFieldPtr(a0.clone(), a1.clone(), a2.clone()),
            KoopaLine::GetPtr(a0, a1, a2) => KoopaLine::GetPtr(a0.clone(), a1.clone(), a2.clone()),
            KoopaLine::GetElemPtr(a0, a1, a2) => KoopaLine::GetElemPtr(a0.clone(), a1.clone(), a2.clone()),
            KoopaLine::Binary(a0, a1, a2, a3) => KoopaLine::Binary(a0.clone(), a1.clone(), a2.clone(), a3.clone()),
            KoopaLine::AsyncCall(a0, a1, a2) => KoopaLine::AsyncCall(a0.clone(), a1.clone(), a2.clone()),
            KoopaLine::CallbackWrap(a0, a1, a2) => KoopaLine::CallbackWrap(a0.clone(), a1.clone(), a2.clone()),
            KoopaLine::Sleep(a0, a1) => KoopaLine::Sleep(a0.clone(), a1.clone()),
            KoopaLine::PromiseWait(a0) => KoopaLine::PromiseWait(a0.clone()),
            KoopaLine::Br(a0, a1, a2) => KoopaLine::Br(a0.clone(), a1.clone(), a2.clone()),
            KoopaLine::Jump(a0) => KoopaLine::Jump(a0.clone()),
            KoopaLine::ArgJump(a0, a1) => KoopaLine::ArgJump(a0.clone(), a1.clone()),
            KoopaLine::Call(a0, a1, a2) => KoopaLine::Call(a0.clone(), a1.clone(), a2.clone()),
            KoopaLine::VoidCall(a0, a1) => KoopaLine::VoidCall(a0.clone(), a1.clone()),
            KoopaLine::Ret(a0) => KoopaLine::Ret(a0.clone()),
            KoopaLine::VoidRet => KoopaLine::VoidRet,
        }
    }

    pub open spec fn closes_block(&self) -> bool {
        match *self {
            KoopaLine::Ret(_) | KoopaLine::VoidRet | KoopaLine::Jump(_) | KoopaLine::Br(_, _, _) => true,
            _ => false,
        }
    }
}

/// A sequence of Koopa lines.
#[derive(Debug)]
pub struct KoopaLines {
    lines: Vec<KoopaLine>,
}

impl View for KoopaLines {
    type V = Seq<KoopaLine>;

    closed spec fn view(&self) -> Seq<KoopaLine> {
        self.lines@
    }
}

/// The lines end in a return, a jump or a branch.
pub open spec fn lines_closed(ls: Seq<KoopaLine>) -> bool {
    ls.len() > 0 && ls.last().closes_block()
}

/// The text of a sequence of lines, one per row.
pub open spec fn lines_text(ls: Seq<KoopaLine>) -> Seq<char> {
    join_texts(Seq::new(ls.len(), |i: int| line_text(ls[i])), "\n"@)
}

impl KoopaLines {
    pub fn new() -> (r: Self)
        ensures
            r@ == Seq::<KoopaLine>::empty(),
    {
        KoopaLines { lines: Vec::new() }
    }

    pub fn with_line(line: KoopaLine) -> (r: Self)
        ensures
            r@ == seq![line],
    {
        let mut lines = Vec::new();
        lines.push(line);
        proof {
            assert(lines@ =~= seq![line]);
        }
        KoopaLines { lines }
    }

    fn is_closed(&self) -> (b: bool)
        ensures
            b == lines_closed(self@),
    {
        let n = self.lines.len();
        if n == 0 {
            return false;
        }
        match &self.lines[n - 1] {
            KoopaLine::Ret(_) | KoopaLine::VoidRet | KoopaLine::Jump(_) | KoopaLine::Br(_, _, _) => true,
            _ => false,
        }
    }

    /// Ends a function body: a `ret` unless the last line already leaves the
    /// block, then the closing brace.
    pub fn close(&mut self)
        ensures
            final(self)@ == if lines_closed(old(self)@) {
                old(self)@.push(KoopaLine::FuncEnd)
            } else {
                old(self)@.push(KoopaLine::VoidRet).push(KoopaLine::FuncEnd)
            },
    {
        if !self.is_closed() {
            self.add_line(KoopaLine::VoidRet);
        }
        self.add_line(KoopaLine::FuncEnd);
    }

    /// A labelled basic block holding `origin`, ended by a jump to `next_bb`
    /// when `origin` does not leave the block itself.
    pub fn make_block(origin: KoopaLines, this_bb: String, next_bb: Option<String>) -> (r: Self)
        requires
            lines_closed(origin@) || next_bb is Some,
        ensures
            r@ == if lines_closed(seq![KoopaLine::Label(this_bb)] + origin@) {
                seq![KoopaLine::Label(this_bb)] + origin@
            } else {
                (seq![KoopaLine::Label(this_bb)] + origin@).push(KoopaLine::Jump(next_bb->Some_0))
            },
    {
        let ghost label = KoopaLine::Label(this_bb);
        let mut block_lines = Self::with_line(KoopaLine::Label(this_bb));
        block_lines.add_lines(origin);
        if !block_lines.is_closed() {
            match next_bb {
                Some(next) => block_lines.add_line(KoopaLine::Jump(next)),
                None => {
                    proof {
                        assert(origin@.len() == 0 || block_lines@.last() == origin@.last());
                    }
                }
            }
        }
        block_lines
    }

    pub fn add_line(&mut self, line: KoopaLine)
        ensures
            final(self)@ == old(self)@.push(line),
    {
        self.lines.push(line);
    }

    pub fn add_lines(&mut self, other: KoopaLines)
        ensures
            final(self)@ == old(self)@ + other@,
    {
        let mut o = other.lines;
        self.lines.append(&mut o);
    }

    pub fn lines(&self) -> (r: &[KoopaLine])
        ensures
            r@ == self@,
    {
        self.lines.as_slice()
    }

    pub fn to_wrapped_string(&self) -> (s: String)
        ensures
            s@ == lines_text(self@),
    {
        let mut parts: Vec<String> = Vec::new();
        let mut i: usize = 0;
        while i < self.lines.len()
            invariant
                i <= self.lines@.len(),
                parts@.len() == i,
                forall|j: int| 0 <= j < i ==> (#[trigger] parts@[j])@ == line_text(self.lines@[j]),
            decreases self.lines.len() - i,
        {
            parts.push(self.lines[i].to_wrapped_string());
            i = i + 1;
        }
        proof {
            assert(string_views(parts@) =~= Seq::new(self.lines@.len(), |i: int| line_text(self.lines@[i])));
        }
        join(&parts, "\n")
    }
}

} // verus!
