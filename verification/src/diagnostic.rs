use vstd::prelude::*;
use vstd::utf8::{encode_scalar, encode_utf8};
use crate::lexer::{byte_off, lemma_encode_monotone, lemma_encode_push, utf8_width};
use crate::text::{cat, join, join_texts, str_byte_len, string_views};

verus! {

/// The line that follows the text `s`, counting from one: one more than the
/// number of newlines in `s`.
pub open spec fn line_after(s: Seq<char>) -> nat
    decreases s.len(),
{
    if s.len() == 0 {
        1
    } else {
        line_after(s.drop_last()) + if s.last() == '\n' { 1nat } else { 0nat }
    }
}

/// The index, in characters, at which the last line of `s` starts: just after
/// its last newline, or zero where it has none.
pub open spec fn line_start(s: Seq<char>) -> int
    decreases s.len(),
{
    if s.len() == 0 {
        0
    } else if s.last() == '\n' {
        s.len() as int
    } else {
        line_start(s.drop_last())
    }
}

/// The line and the column, both counted from one, of the character that
/// starts `k` characters into `s`; the column counts characters.
pub open spec fn position_at(s: Seq<char>, k: int) -> (int, int) {
    (line_after(s.take(k)) as int, k - line_start(s.take(k)) + 1)
}

proof fn lemma_line_start_bounds(s: Seq<char>)
    ensures
        0 <= line_start(s) <= s.len(),
        line_after(s) <= s.len() + 1,
    decreases s.len(),
{
    if s.len() > 0 {
        lemma_line_start_bounds(s.drop_last());
    }
}

proof fn lemma_byte_off_strict(a: Seq<char>, i: int, j: int)
    requires
        0 <= i < j <= a.len(),
    ensures
        byte_off(a, i) < byte_off(a, j),
{
    lemma_encode_monotone(a, i, j - 1);
    assert(a.take(j) =~= a.take(j - 1).push(a[j - 1]));
    lemma_encode_push(a.take(j - 1), a[j - 1]);
    assert(encode_scalar(a[j - 1] as u32).len() >= 1);
}

/// The line and column of byte `byte_offset` of `input`, an offset past the
/// end standing for the end. The offset starts a character where it is not
/// past the end.
pub fn line_column(input: &str, byte_offset: usize) -> (r: (usize, usize))
    requires
        input@.len() < usize::MAX,
        byte_offset >= encode_utf8(input@).len()
            || exists|k: int| 0 <= k <= input@.len() && byte_off(input@, k) == byte_offset,
    ensures
        forall|k: int| 0 <= k <= input@.len()
            && byte_off(input@, k) == (if byte_offset < encode_utf8(input@).len() { byte_offset as int } else { encode_utf8(input@).len() as int })
            ==> #[trigger] position_at(input@, k) == (r.0 as int, r.1 as int),
{
    let total = str_byte_len(input);
    let clamped = if byte_offset < total { byte_offset } else { total };
    let ghost s = input@;
    proof {
        assert(s.take(s.len() as int) =~= s);
        assert(s.take(0) =~= Seq::<char>::empty());
        assert(encode_utf8(Seq::<char>::empty()) =~= Seq::<u8>::empty());
    }
    let mut line: usize = 1;
    let mut start: usize = 0;
    let mut k: usize = 0;
    let mut off: usize = 0;
    let mut stopped = false;
    for c in it: input.chars()
        invariant
            it.seq() == s,
            s == input@,
            s.len() < usize::MAX,
            k <= it.index() <= s.len(),
            stopped ==> off >= clamped,
            !stopped ==> k == it.index(),
            off == byte_off(s, k as int),
            clamped <= total,
            total == encode_utf8(s).len(),
            byte_off(s, s.len() as int) == total,
            line as int == line_after(s.take(k as int)),
            start as int == line_start(s.take(k as int)),
            forall|j: int| 0 <= j < k ==> byte_off(s, j) < clamped,
    {
        if stopped || off >= clamped {
            stopped = true;
        } else {
            let ghost kk = k as int;
            proof {
                assert(s.take(kk + 1).drop_last() =~= s.take(kk));
                assert(s.take(kk + 1).last() == c);
                lemma_line_start_bounds(s.take(kk));
                assert(s.take(kk + 1) =~= s.take(kk).push(s[kk]));
                lemma_encode_push(s.take(kk), s[kk]);
                lemma_encode_monotone(s, kk + 1, s.len() as int);
            }
            if c == '\n' {
                line = line + 1;
                start = k + 1;
            }
            off = off + utf8_width(c);
            k = k + 1;
        }
    }
    proof {
        if !stopped {
            assert(k == s.len());
            assert(s.take(k as int) =~= s);
        }
        assert forall|k0: int| 0 <= k0 <= s.len() && byte_off(s, k0) == clamped
            implies #[trigger] position_at(s, k0) == (line as int, (k - start + 1) as int) by {
            if k0 < k {
            } else if k0 > k {
                lemma_byte_off_strict(s, k as int, k0);
            }
        }
        lemma_line_start_bounds(s.take(k as int));
    }
    (line, k - start + 1)
}

/// The tail of a parse error's message that lists the tokens the parser
/// expected: empty where it expected none.
pub fn format_expected_tokens(expected: &Vec<String>) -> (s: String)
    ensures
        s@ == if expected@.len() == 0 {
            Seq::<char>::empty()
        } else {
            ", expected one of: "@ + join_texts(string_views(expected@), ", "@)
        },
{
    if expected.len() == 0 {
        String::new()
    } else {
        let list = join(expected, ", ");
        cat(", expected one of: ", list.as_str())
    }
}

} // verus!
