use vstd::prelude::*;
use crate::koopa::{KoopaLine, KoopaLines, KoopaParam, KoopaType};

pub mod text_lowering;
pub use text_lowering::lower_lines;


verus! {

broadcast use vstd::std_specs::vec::group_vec_axioms;

/// A type with every promise replaced by its result type.
pub open spec fn strip_type(t: KoopaType) -> KoopaType
    decreases t,
{
    match t {
        KoopaType::Promise(inner) => strip_type(*inner),
        KoopaType::Ptr(inner) => KoopaType::Ptr(Box::new(strip_type(*inner))),
        KoopaType::Array(inner, len) => KoopaType::Array(Box::new(strip_type(*inner)), len),
        other => other,
    }
}

pub open spec fn strip_params(ps: Seq<KoopaParam>) -> Seq<KoopaParam> {
    Seq::new(ps.len(), |i: int| KoopaParam { name: ps[i].name, ty: strip_type(ps[i].ty) })
}

fn strip_async_type(ty: &KoopaType) -> (r: KoopaType)
    ensures
        r == strip_type(*ty),
    decreases ty,
{
    match ty {
        KoopaType::Promise(inner) => strip_async_type(inner),
        KoopaType::Ptr(inner) => KoopaType::Ptr(Box::new(strip_async_type(inner))),
        KoopaType::Array(inner, len) => KoopaType::Array(Box::new(strip_async_type(inner)), *len),
        KoopaType::I32 => KoopaType::I32,
        KoopaType::Void => KoopaType::Void,
        KoopaType::Struct(name) => KoopaType::Struct(name.clone()),
    }
}

fn strip_async_params(params: &Vec<KoopaParam>) -> (r: Vec<KoopaParam>)
    ensures
        r@ == strip_params(params@),
{
    let mut r: Vec<KoopaParam> = Vec::new();
    let mut i: usize = 0;
    while i < params.len()
        invariant
            i <= params@.len(),
            r@ == strip_params(params@.take(i as int)),
        decreases params.len() - i,
    {
        r.push(KoopaParam::new(params[i].name.clone(), strip_async_type(&params[i].ty)));
        proof {
            assert(strip_params(params@.take(i + 1)) =~= strip_params(params@.take(i as int)).push(
                KoopaParam { name: params@[i as int].name, ty: strip_type(params@[i as int].ty) }));
        }
        i = i + 1;
    }
    proof {
        assert(params@.take(params@.len() as int) =~= params@);
    }
    r
}

/// A line that survives lowering: promise declarations and waits vanish.
pub open spec fn kept(l: KoopaLine) -> bool {
    !(l is PromiseDecl) && !(l is PromiseWait)
}

/// `out` is the synchronous form of the kept line `inp`: promises stand for
/// their results, async functions become plain ones, an async call a call,
/// a callback wrap or a sleep a copy through `add`.
pub open spec fn lowered_line(out: KoopaLine, inp: KoopaLine) -> bool {
    match inp {
        KoopaLine::FuncDecl(name, ps, t) =>
            out matches KoopaLine::FuncDecl(n2, ps2, t2) && n2 == name && ps2@ == strip_params(ps@) && t2 == strip_type(t),
        KoopaLine::FuncStart(name, ps, t) =>
            out matches KoopaLine::FuncStart(n2, ps2, t2) && n2 == name && ps2@ == strip_params(ps@) && t2 == strip_type(t),
        KoopaLine::AsyncFuncStart(name, ps, t) =>
            out matches KoopaLine::FuncStart(n2, ps2, t2) && n2 == name && ps2@ == strip_params(ps@) && t2 == strip_type(t),
        KoopaLine::ArgLabel(label, arg, t) => out == KoopaLine::ArgLabel(label, arg, strip_type(t)),
        KoopaLine::GlobalAlloc(name, t, init) => out == KoopaLine::GlobalAlloc(name, strip_type(t), init),
        KoopaLine::Alloc(name, t) => out == KoopaLine::Alloc(name, strip_type(t)),
        KoopaLine::HeapAlloc(name, t) => out == KoopaLine::HeapAlloc(name, strip_type(t)),
        KoopaLine::AsyncCall(dest, func, args) => out == KoopaLine::Call(dest, func, args),
        KoopaLine::CallbackWrap(dest, promise, _) =>
            out matches KoopaLine::Binary(d, op, l, r) && d == dest && op@ == "add"@ && l@ == "0"@ && r == promise,
        KoopaLine::Sleep(dest, _) =>
            out matches KoopaLine::Binary(d, op, l, r) && d == dest && op@ == "add"@ && l@ == "0"@ && r@ == "0"@,
        other => crate::koopa::same_line(out, other),
    }
}

/// `out` lowers `inp` line by line, dropping the lines that do not survive.
pub open spec fn lowers(inp: Seq<KoopaLine>, out: Seq<KoopaLine>) -> bool
    decreases inp.len(),
{
    if inp.len() == 0 {
        out.len() == 0
    } else if kept(inp.last()) {
        out.len() > 0 && lowered_line(out.last(), inp.last()) && lowers(inp.drop_last(), out.drop_last())
    } else {
        lowers(inp.drop_last(), out)
    }
}

/// Rewrites async Koopa into plain Koopa.
pub fn lower_async_sugar_lines(lines: &KoopaLines) -> (r: KoopaLines)
    ensures
        lowers(lines@, r@),
{
    let mut lowered = KoopaLines::new();
    let src = lines.lines();
    let mut i: usize = 0;
    while i < src.len()
        invariant
            i <= src@.len(),
            src@ == lines@,
            lowers(src@.take(i as int), lowered@),
        decreases src.len() - i,
    {
        proof {
            assert(src@.take(i + 1).drop_last() =~= src@.take(i as int));
            assert(src@.take(i + 1).last() == src@[i as int]);
        }
        let ghost before = lowered@;
        match &src[i] {
            KoopaLine::PromiseDecl(_, _) => {}
            KoopaLine::FuncDecl(name, params, ret_ty) => {
                lowered.add_line(KoopaLine::FuncDecl(name.clone(), strip_async_params(params), strip_async_type(ret_ty)));
            }
            KoopaLine::FuncStart(name, params, ret_ty) => {
                lowered.add_line(KoopaLine::FuncStart(name.clone(), strip_async_params(params), strip_async_type(ret_ty)));
            }
            KoopaLine::AsyncFuncStart(name, params, ret_ty) => {
                lowered.add_line(KoopaLine::FuncStart(name.clone(), strip_async_params(params), strip_async_type(ret_ty)));
            }
            KoopaLine::ArgLabel(label, arg_name, arg_type) => {
                lowered.add_line(KoopaLine::ArgLabel(label.clone(), arg_name.clone(), strip_async_type(arg_type)));
            }
            KoopaLine::GlobalAlloc(name, ty, init) => {
                lowered.add_line(KoopaLine::GlobalAlloc(name.clone(), strip_async_type(ty), init.clone()));
            }
            KoopaLine::Alloc(name, ty) => {
                lowered.add_line(KoopaLine::Alloc(name.clone(), strip_async_type(ty)));
            }
            KoopaLine::HeapAlloc(name, ty) => {
                lowered.add_line(KoopaLine::HeapAlloc(name.clone(), strip_async_type(ty)));
            }
            KoopaLine::AsyncCall(dest, func, args) => {
                lowered.add_line(KoopaLine::Call(dest.clone(), func.clone(), args.clone()));
            }
            KoopaLine::CallbackWrap(dest, promise, _) => {
                lowered.add_line(KoopaLine::Binary(dest.clone(), String::from_str("add"), String::from_str("0"), promise.clone()));
            }
            KoopaLine::Sleep(dest, _) => {
                lowered.add_line(KoopaLine::Binary(dest.clone(), String::from_str("add"), String::from_str("0"), String::from_str("0")));
            }
            KoopaLine::PromiseWait(_) => {}
            other => lowered.add_line(other.copy()),
        }
        proof {
            if kept(src@[i as int]) {
                assert(lowered@.drop_last() =~= before);
            }
        }
        i = i + 1;
    }
    proof {
        assert(src@.take(src@.len() as int) =~= src@);
    }
    lowered
}

/// A line that belongs to async Koopa only.
pub open spec fn async_only(l: KoopaLine) -> bool {
    ||| l is PromiseDecl
    ||| l is PromiseWait
    ||| l is AsyncFuncStart
    ||| l is AsyncCall
    ||| l is CallbackWrap
    ||| l is Sleep
}

/// Lowering leaves no async-only line, and never more lines than it was given.
pub proof fn lemma_lowered_lines_are_sync(inp: Seq<KoopaLine>, out: Seq<KoopaLine>)
    requires
        lowers(inp, out),
    ensures
        out.len() <= inp.len(),
        forall|i: int| 0 <= i < out.len() ==> !async_only(#[trigger] out[i]),
    decreases inp.len(),
{
    if inp.len() > 0 {
        if kept(inp.last()) {
            lemma_lowered_lines_are_sync(inp.drop_last(), out.drop_last());
            assert forall|i: int| 0 <= i < out.len() implies !async_only(#[trigger] out[i]) by {
                if i < out.len() - 1 {
                    assert(out[i] == out.drop_last()[i]);
                }
            }
        } else {
            lemma_lowered_lines_are_sync(inp.drop_last(), out);
        }
    }
}

} // verus!
