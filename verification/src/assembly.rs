use vstd::prelude::*;
use crate::riscv::{asm_line_text, AsmLine, AsmValue, RegName};
use crate::table::str_eq;
use crate::text::{join, join_texts, push_char, string_views};

verus! {

broadcast use vstd::std_specs::vec::group_vec_axioms;

/// An assembly program under construction.
#[derive(Debug)]
pub struct Asm {
    content: Vec<AsmLine>,
}

impl View for Asm {
    type V = Seq<AsmLine>;

    closed spec fn view(&self) -> Seq<AsmLine> {
        self.content@
    }
}

/// `content` with every placeholder named `p` replaced by `rep`.
pub open spec fn replace_placeholder(content: Seq<AsmLine>, p: Seq<char>, rep: Seq<AsmLine>) -> Seq<AsmLine>
    decreases content.len(),
{
    if content.len() == 0 {
        Seq::empty()
    } else {
        let prev = replace_placeholder(content.drop_last(), p, rep);
        match content.last() {
            AsmLine::PlaceHold(q) => if q@ == p { prev + rep } else { prev.push(content.last()) },
            other => prev.push(other),
        }
    }
}

/// No line is a placeholder.
pub open spec fn no_placeholders(content: Seq<AsmLine>) -> bool {
    forall|i: int| 0 <= i < content.len() ==> !(#[trigger] content[i] is PlaceHold)
}

/// The program text: one line per instruction, ended by a newline unless empty.
pub open spec fn asm_text(content: Seq<AsmLine>) -> Seq<char> {
    let body = join_texts(Seq::new(content.len(), |i: int| asm_line_text(content[i])), "\n"@);
    if body.len() == 0 { body } else { body + "\n"@ }
}

impl Asm {
    pub fn new() -> (a: Self)
        ensures
            a@ == Seq::<AsmLine>::empty(),
    {
        Asm { content: Vec::new() }
    }

    pub fn add_asm(&mut self, func_asm: Asm)
        ensures
            final(self)@ == old(self)@ + func_asm@,
    {
        let mut other = func_asm.content;
        self.content.append(&mut other);
    }

    pub fn add_line(&mut self, line: AsmLine)
        ensures
            final(self)@ == old(self)@.push(line),
    {
        self.content.push(line);
    }

    /// Replaces every placeholder named `placeholder` by the lines of `replacement`.
    pub fn convert_placehold(&mut self, placeholder: String, replacement: Vec<AsmLine>)
        ensures
            final(self)@ == replace_placeholder(old(self)@, placeholder@, replacement@),
    {
        let mut result: Vec<AsmLine> = Vec::new();
        let mut i: usize = 0;
        while i < self.content.len()
            invariant
                i <= self.content@.len(),
                self.content@ == old(self)@,
                result@ == replace_placeholder(self.content@.take(i as int), placeholder@, replacement@),
            decreases self.content.len() - i,
        {
            proof {
                assert(self.content@.take(i + 1).drop_last() =~= self.content@.take(i as int));
            }
            let is_target = match &self.content[i] {
                AsmLine::PlaceHold(q) => str_eq(q.as_str(), placeholder.as_str()),
                _ => false,
            };
            if is_target {
                let mut k: usize = 0;
                let ghost base = result@;
                while k < replacement.len()
                    invariant
                        k <= replacement@.len(),
                        result@ == base + replacement@.take(k as int),
                    decreases replacement.len() - k,
                {
                    result.push(replacement[k].copy());
                    proof {
                        assert(base + replacement@.take(k + 1) =~= (base + replacement@.take(k as int)).push(replacement@[k as int]));
                    }
                    k = k + 1;
                }
                proof {
                    assert(replacement@.take(replacement@.len() as int) =~= replacement@);
                }
            } else {
                result.push(self.content[i].copy());
            }
            i = i + 1;
        }
        proof {
            assert(self.content@.take(self.content@.len() as int) =~= self.content@);
        }
        self.content = result;
    }

    /// The program text; every placeholder must have been replaced.
    pub fn to_string(&self) -> (s: String)
        requires
            no_placeholders(self@),
        ensures
            s@ == asm_text(self@),
    {
        let mut parts: Vec<String> = Vec::new();
        let mut i: usize = 0;
        while i < self.content.len()
            invariant
                i <= self.content@.len(),
                no_placeholders(self.content@),
                parts@.len() == i,
                forall|j: int| 0 <= j < i ==> (#[trigger] parts@[j])@ == asm_line_text(self.content@[j]),
            decreases self.content.len() - i,
        {
            parts.push(self.content[i].to_string());
            i = i + 1;
        }
        proof {
            assert(string_views(parts@) =~= Seq::new(self.content@.len(), |i: int| asm_line_text(self.content@[i])));
        }
        let rendered = join(&parts, "\n");
        if rendered.unicode_len() == 0 {
            rendered
        } else {
            rendered.concat("\n")
        }
    }
}

/// A placeholder named `p` among the lines.
pub open spec fn mentions_placeholder(content: Seq<AsmLine>, p: Seq<char>) -> bool {
    exists|i: int| 0 <= i < content.len() && (#[trigger] content[i] matches AsmLine::PlaceHold(q) && q@ == p)
}

/// Replacing placeholder `p` by lines that name no placeholder `p` leaves no
/// placeholder `p`, and keeps every other line, placeholders of other names
/// included.
pub proof fn lemma_replacement_removes_placeholder(content: Seq<AsmLine>, p: Seq<char>, rep: Seq<AsmLine>)
    requires
        !mentions_placeholder(rep, p),
    ensures
        !mentions_placeholder(replace_placeholder(content, p, rep), p),
        forall|l: AsmLine| !(l matches AsmLine::PlaceHold(q) && q@ == p) && !rep.contains(l) ==>
            (content.contains(l) <==> replace_placeholder(content, p, rep).contains(l)),
    decreases content.len(),
{
    if content.len() > 0 {
        let prev = replace_placeholder(content.drop_last(), p, rep);
        lemma_replacement_removes_placeholder(content.drop_last(), p, rep);
        let r = replace_placeholder(content, p, rep);
        assert forall|i: int| 0 <= i < r.len() implies !(#[trigger] r[i] matches AsmLine::PlaceHold(q) && q@ == p) by {
            if i < prev.len() {
                assert(r[i] == prev[i]);
            } else {
                match content.last() {
                    AsmLine::PlaceHold(q) => {
                        if q@ == p {
                            assert(r[i] == rep[i - prev.len()]);
                        }
                    }
                    _ => {}
                }
            }
        }
        assert forall|l: AsmLine| !(l matches AsmLine::PlaceHold(q) && q@ == p) && !rep.contains(l) implies
            (content.contains(l) <==> r.contains(l)) by {
            if content.contains(l) {
                let i = choose|i: int| 0 <= i < content.len() && content[i] == l;
                if i < content.len() - 1 {
                    assert(content.drop_last()[i] == l);
                    let j = choose|j: int| 0 <= j < prev.len() && prev[j] == l;
                    assert(r[j] == l);
                } else {
                    assert(r[r.len() - 1] == l);
                }
            }
            if r.contains(l) {
                let j = choose|j: int| 0 <= j < r.len() && r[j] == l;
                if j < prev.len() {
                    assert(r[j] == prev[j]);
                    assert(prev.contains(l));
                    let i = choose|i: int| 0 <= i < content.drop_last().len() && content.drop_last()[i] == l;
                    assert(content[i] == l);
                } else {
                    match content.last() {
                        AsmLine::PlaceHold(q) => {
                            if q@ == p {
                                assert(r[j] == rep[j - prev.len()]);
                                assert(rep.contains(l));
                            } else {
                                assert(content[content.len() - 1] == l);
                            }
                        }
                        _ => {
                            assert(content[content.len() - 1] == l);
                        }
                    }
                }
            }
        }
    }
}

// ---------------------------------------------------------------------------
// Addresses at offsets from a register.

/// A global's assembler symbol: its Koopa name without the leading `@`.
pub open spec fn symbol_of(name: Seq<char>) -> Seq<char> {
    if name.len() > 0 && name[0] == '@' { name.drop_first() } else { name }
}

pub fn name_to_symbol(name: &str) -> (r: String)
    ensures
        r@ == symbol_of(name@),
{
    let mut s = String::new();
    let mut first = true;
    let ghost n = name@;
    proof {
        assert(n.take(0) =~= Seq::<char>::empty());
    }
    for c in it: name.chars()
        invariant
            it.seq() == n,
            n == name@,
            first == (it.index() == 0),
            s@ == if it.index() > 0 && n[0] == '@' { n.take(it.index() as int).drop_first() } else { n.take(it.index() as int) },
    {
        let ghost k = it.index() as int;
        proof {
            assert(n.take(k + 1) =~= n.take(k).push(n[k]));
            if k > 0 {
                assert(n.take(k + 1).drop_first() =~= n.take(k).drop_first().push(n[k]));
            }
        }
        if !(first && c == '@') {
            push_char(&mut s, c);
        }
        first = false;
    }
    proof {
        assert(n.take(n.len() as int) =~= n);
    }
    s
}

/// The range of a signed 12-bit immediate.
pub const IMM12_MIN: i32 = -2048;
pub const IMM12_MAX: i32 = 2047;

pub fn fits_imm12(value: i32) -> (b: bool)
    ensures
        b == (IMM12_MIN <= value <= IMM12_MAX),
{
    IMM12_MIN <= value && value <= IMM12_MAX
}

/// The lines that put `base + offset` in `dest`: one `addi` where the offset
/// fits an immediate, else the offset loaded into `scratch` and added.
pub open spec fn offset_addr_lines(dest: RegName, base: RegName, offset: i32, scratch: RegName) -> Seq<AsmLine> {
    if IMM12_MIN <= offset <= IMM12_MAX {
        seq![AsmLine::Addi(dest, base, offset)]
    } else {
        seq![AsmLine::Li(scratch, offset), AsmLine::Add(dest, base, scratch)]
    }
}

pub fn emit_offset_addr_to_reg(code: &mut Asm, dest: RegName, base: RegName, offset: i32, scratch: RegName)
    ensures
        final(code)@ == old(code)@ + offset_addr_lines(dest, base, offset, scratch),
{
    if fits_imm12(offset) {
        code.add_line(AsmLine::Addi(dest, base, offset));
    } else {
        code.add_line(AsmLine::Li(scratch, offset));
        code.add_line(AsmLine::Add(dest, base, scratch));
    }
    proof {
        assert(code@ =~= old(code)@ + offset_addr_lines(dest, base, offset, scratch));
    }
}

/// Loads the word at `base + offset` into `dest`, through `scratch` where the
/// offset does not fit an immediate.
pub fn emit_load_from_offset(code: &mut Asm, dest: RegName, base: RegName, offset: i32, scratch: RegName)
    ensures
        final(code)@ == old(code)@ + if IMM12_MIN <= offset <= IMM12_MAX {
            seq![AsmLine::Load(dest, AsmValue::Offset(offset, base))]
        } else {
            offset_addr_lines(scratch, base, offset, scratch) + seq![AsmLine::Load(dest, AsmValue::Offset(0, scratch))]
        },
{
    if fits_imm12(offset) {
        code.add_line(AsmLine::Load(dest, AsmValue::Offset(offset, base)));
    } else {
        emit_offset_addr_to_reg(code, scratch, base, offset, scratch);
        code.add_line(AsmLine::Load(dest, AsmValue::Offset(0, scratch)));
    }
    proof {
        if IMM12_MIN <= offset <= IMM12_MAX {
            assert(code@ =~= old(code)@ + seq![AsmLine::Load(dest, AsmValue::Offset(offset, base))]);
        } else {
            assert(code@ =~= old(code)@ + (offset_addr_lines(scratch, base, offset, scratch) + seq![AsmLine::Load(dest, AsmValue::Offset(0, scratch))]));
        }
    }
}

/// Stores `src` to the word at `base + offset`, through `scratch` where the
/// offset does not fit an immediate.
pub fn emit_store_to_offset(code: &mut Asm, base: RegName, offset: i32, src: RegName, scratch: RegName)
    ensures
        final(code)@ == old(code)@ + if IMM12_MIN <= offset <= IMM12_MAX {
            seq![AsmLine::Store(AsmValue::Offset(offset, base), src)]
        } else {
            offset_addr_lines(scratch, base, offset, scratch) + seq![AsmLine::Store(AsmValue::Offset(0, scratch), src)]
        },
{
    if fits_imm12(offset) {
        code.add_line(AsmLine::Store(AsmValue::Offset(offset, base), src));
    } else {
        emit_offset_addr_to_reg(code, scratch, base, offset, scratch);
        code.add_line(AsmLine::Store(AsmValue::Offset(0, scratch), src));
    }
    proof {
        if IMM12_MIN <= offset <= IMM12_MAX {
            assert(code@ =~= old(code)@ + seq![AsmLine::Store(AsmValue::Offset(offset, base), src)]);
        } else {
            assert(code@ =~= old(code)@ + (offset_addr_lines(scratch, base, offset, scratch) + seq![AsmLine::Store(AsmValue::Offset(0, scratch), src)]));
        }
    }
}

/// The save slot of a caller-saved temporary register `t0` to `t6`.
pub fn caller_saved_slot(reg: &RegName) -> (r: Option<usize>)
    ensures
        r == match *reg {
            RegName::TempT(i) => if i < 7 { Some(i) } else { None },
            _ => None,
        },
{
    match reg {
        RegName::TempT(i) => if *i < 7 { Some(*i) } else { None },
        _ => None,
    }
}

/// Every line followed by a newline.
pub open spec fn lines_text(content: Seq<AsmLine>) -> Seq<char>
    decreases content.len(),
{
    if content.len() == 0 {
        Seq::empty()
    } else {
        lines_text(content.drop_last()) + asm_line_text(content.last()) + "\n"@
    }
}

proof fn lemma_join_lines(parts: Seq<Seq<char>>, content: Seq<AsmLine>)
    requires
        parts.len() == content.len(),
        parts.len() > 0,
        forall|i: int| 0 <= i < parts.len() ==> #[trigger] parts[i] == asm_line_text(content[i]),
        forall|i: int| 0 <= i < content.len() ==> (#[trigger] asm_line_text(content[i])).len() > 0,
    ensures
        join_texts(parts, "\n"@) + "\n"@ == lines_text(content),
        join_texts(parts, "\n"@).len() > 0,
    decreases parts.len(),
{
    assert(parts.last() == asm_line_text(content.last()));
    if parts.len() > 1 {
        let p = parts.drop_last();
        let c = content.drop_last();
        assert forall|i: int| 0 <= i < p.len() implies #[trigger] p[i] == asm_line_text(c[i]) by {
            assert(p[i] == parts[i]);
        }
        assert forall|i: int| 0 <= i < c.len() implies (#[trigger] asm_line_text(c[i])).len() > 0 by {
            assert(c[i] == content[i]);
        }
        lemma_join_lines(p, c);
        assert(join_texts(parts, "\n"@) + "\n"@ =~= (join_texts(p, "\n"@) + "\n"@) + parts.last() + "\n"@);
    } else {
        assert(lines_text(content.drop_last()) =~= Seq::<char>::empty());
        assert(join_texts(parts, "\n"@) + "\n"@ =~= lines_text(content.drop_last()) + asm_line_text(content.last()) + "\n"@);
    }
}

proof fn lemma_asm_text_lines(content: Seq<AsmLine>)
    requires
        forall|i: int| 0 <= i < content.len() ==> (#[trigger] asm_line_text(content[i])).len() > 0,
    ensures
        asm_text(content) == lines_text(content),
{
    let parts = Seq::new(content.len(), |i: int| asm_line_text(content[i]));
    if content.len() > 0 {
        lemma_join_lines(parts, content);
    } else {
        assert(join_texts(parts, "\n"@) =~= Seq::<char>::empty());
    }
}

proof fn lemma_lines_concat(a: Seq<AsmLine>, b: Seq<AsmLine>)
    ensures
        lines_text(a + b) == lines_text(a) + lines_text(b),
    decreases b.len(),
{
    if b.len() == 0 {
        assert(a + b =~= a);
        assert(lines_text(a) + lines_text(b) =~= lines_text(a));
    } else {
        lemma_lines_concat(a, b.drop_last());
        assert((a + b).drop_last() =~= a + b.drop_last());
        assert((a + b).last() == b.last());
        assert(lines_text(a + b) =~= lines_text(a) + lines_text(b));
    }
}

/// The text of two programs joined is the two texts one after the other,
/// when no line has an empty text.
pub proof fn lemma_asm_text_concat(a: Seq<AsmLine>, b: Seq<AsmLine>)
    requires
        forall|i: int| 0 <= i < a.len() ==> (#[trigger] asm_line_text(a[i])).len() > 0,
        forall|i: int| 0 <= i < b.len() ==> (#[trigger] asm_line_text(b[i])).len() > 0,
    ensures
        asm_text(a + b) == asm_text(a) + asm_text(b),
{
    assert forall|i: int| 0 <= i < (a + b).len() implies (#[trigger] asm_line_text((a + b)[i])).len() > 0 by {
        if i < a.len() {
            assert((a + b)[i] == a[i]);
        } else {
            assert((a + b)[i] == b[i - a.len()]);
        }
    }
    lemma_asm_text_lines(a);
    lemma_asm_text_lines(b);
    lemma_asm_text_lines(a + b);
    lemma_lines_concat(a, b);
}

} // verus!
