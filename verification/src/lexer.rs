use vstd::prelude::*;
use vstd::utf8::{encode_scalar, encode_utf8};
use crate::table::NameSet;
use crate::text::{push_char, str_byte_len};

verus! {

broadcast use vstd::std_specs::vec::group_vec_axioms;

/// Why the source text cannot be split into tokens.
#[derive(Debug, Clone, PartialEq, Eq)]
pub enum LexError {
    InvalidChar(char),
    UnterminatedBlockComment,
}

/// The tokens of the language.
#[derive(Debug, Clone, PartialEq, Eq)]
pub enum Tok {
    Ident(String),
    TypeIdent(String),
    IntConst(i32),
    Int,
    Void,
    Const,
    Struct,
    If,
    Else,
    While,
    Continue,
    Break,
    Return,
    New,
    Async,
    Await,
    Promise,
    Sleep,
    Wait,
    Plus,
    Minus,
    Star,
    Slash,
    Percent,
    Bang,
    Amp,
    AmpAmp,
    PipePipe,
    Eq,
    EqEq,
    Ne,
    Lt,
    Le,
    Gt,
    Ge,
    Assign,
    LParen,
    RParen,
    LBrace,
    RBrace,
    LBracket,
    RBracket,
    Comma,
    Semicolon,
    Dot,
    Arrow,
}

// ---------------------------------------------------------------------------
// Classes of characters.

/// The characters with the Unicode `White_Space` property, which is what
/// `char::is_whitespace` tests.
pub open spec fn is_ws(c: char) -> bool {
    ||| ('\u{9}' <= c && c <= '\u{d}')
    ||| c == ' '
    ||| c == '\u{85}'
    ||| c == '\u{a0}'
    ||| c == '\u{1680}'
    ||| ('\u{2000}' <= c && c <= '\u{200a}')
    ||| c == '\u{2028}'
    ||| c == '\u{2029}'
    ||| c == '\u{202f}'
    ||| c == '\u{205f}'
    ||| c == '\u{3000}'
}

pub open spec fn is_alpha(c: char) -> bool {
    ('a' <= c && c <= 'z') || ('A' <= c && c <= 'Z')
}

pub open spec fn is_digit(c: char) -> bool {
    '0' <= c && c <= '9'
}

pub open spec fn ident_start(c: char) -> bool {
    c == '_' || is_alpha(c)
}

pub open spec fn ident_char(c: char) -> bool {
    c == '_' || is_alpha(c) || is_digit(c)
}

/// The characters a number literal runs on with: hex digits and `x`.
pub open spec fn number_char(c: char) -> bool {
    is_digit(c) || ('a' <= c && c <= 'f') || ('A' <= c && c <= 'F') || c == 'x' || c == 'X'
}

fn white_space(c: char) -> (b: bool)
    ensures
        b == is_ws(c),
{
    ('\u{9}' <= c && c <= '\u{d}') || c == ' ' || c == '\u{85}' || c == '\u{a0}' || c == '\u{1680}'
        || ('\u{2000}' <= c && c <= '\u{200a}') || c == '\u{2028}' || c == '\u{2029}'
        || c == '\u{202f}' || c == '\u{205f}' || c == '\u{3000}'
}

fn is_ident_start(c: char) -> (b: bool)
    ensures
        b == ident_start(c),
{
    c == '_' || ('a' <= c && c <= 'z') || ('A' <= c && c <= 'Z')
}

fn is_ident_char(c: char) -> (b: bool)
    ensures
        b == ident_char(c),
{
    c == '_' || ('a' <= c && c <= 'z') || ('A' <= c && c <= 'Z') || ('0' <= c && c <= '9')
}

fn is_number_char(c: char) -> (b: bool)
    ensures
        b == number_char(c),
{
    ('0' <= c && c <= '9') || ('a' <= c && c <= 'f') || ('A' <= c && c <= 'F') || c == 'x' || c == 'X'
}

// ---------------------------------------------------------------------------
// Positions in the text.

/// The byte offset of character `i` of `cs` in its UTF-8 encoding.
pub open spec fn byte_off(cs: Seq<char>, i: int) -> int {
    encode_utf8(cs.take(i)).len() as int
}

pub(crate) proof fn lemma_encode_push(a: Seq<char>, c: char)
    ensures
        encode_utf8(a.push(c)).len() == encode_utf8(a).len() + encode_scalar(c as u32).len(),
    decreases a.len(),
{
    if a.len() == 0 {
        assert(a.push(c).drop_first() =~= Seq::<char>::empty());
        assert(a.push(c)[0] == c);
        assert(encode_utf8(a) =~= Seq::<u8>::empty());
        assert(encode_utf8(Seq::<char>::empty()) =~= Seq::<u8>::empty());
    } else {
        assert(a.push(c).drop_first() =~= a.drop_first().push(c));
        assert(a.push(c)[0] == a[0]);
        lemma_encode_push(a.drop_first(), c);
    }
}

pub(crate) proof fn lemma_encode_monotone(a: Seq<char>, i: int, j: int)
    requires
        0 <= i <= j <= a.len(),
    ensures
        byte_off(a, i) <= byte_off(a, j),
    decreases j - i,
{
    if i < j {
        lemma_encode_monotone(a, i, j - 1);
        assert(a.take(j) =~= a.take(j - 1).push(a[j - 1]));
        lemma_encode_push(a.take(j - 1), a[j - 1]);
    }
}

/// The number of bytes of the UTF-8 encoding of `c`.
pub(crate) fn utf8_width(c: char) -> (n: usize)
    ensures
        n == encode_scalar(c as u32).len(),
{
    let v = c as u32;
    if v <= 0x7f {
        1
    } else if v <= 0x7ff {
        2
    } else if v <= 0xffff {
        3
    } else {
        4
    }
}

/// The position after the rest of a line comment that goes on at `q`.
pub open spec fn line_end(cs: Seq<char>, q: int) -> int
    decreases cs.len() - q,
{
    if q >= cs.len() || q < 0 {
        cs.len() as int
    } else if cs[q] == '\n' || cs[q] == '\r' {
        q + 1
    } else {
        line_end(cs, q + 1)
    }
}

/// The position after the `*/` that closes a block comment going on at `q`.
pub open spec fn block_end(cs: Seq<char>, q: int) -> Option<int>
    decreases cs.len() - q,
{
    if q >= cs.len() || q < 0 {
        None
    } else if cs[q] == '*' && q + 1 < cs.len() && cs[q + 1] == '/' {
        Some(q + 2)
    } else {
        block_end(cs, q + 1)
    }
}

/// The position of the next token after white space and comments, or `None`
/// when a block comment does not end.
pub open spec fn skip(cs: Seq<char>, p: int) -> Option<int>
    decreases cs.len() - p,
{
    if p < 0 || p >= cs.len() {
        Some(p)
    } else if is_ws(cs[p]) {
        skip(cs, p + 1)
    } else if p + 1 < cs.len() && cs[p] == '/' && cs[p + 1] == '/' {
        proof {
            lemma_line_end_bounds(cs, p + 2);
        }
        skip(cs, line_end(cs, p + 2))
    } else if p + 1 < cs.len() && cs[p] == '/' && cs[p + 1] == '*' {
        proof {
            lemma_block_end_bounds(cs, p + 2);
        }
        match block_end(cs, p + 2) {
            None => None,
            Some(q) => skip(cs, q),
        }
    } else {
        Some(p)
    }
}

pub proof fn lemma_line_end_bounds(cs: Seq<char>, q: int)
    requires
        0 <= q,
    ensures
        q <= line_end(cs, q) || q > cs.len(),
        line_end(cs, q) <= cs.len(),
    decreases cs.len() - q,
{
    if 0 <= q < cs.len() && !(cs[q] == '\n' || cs[q] == '\r') {
        lemma_line_end_bounds(cs, q + 1);
    }
}

pub proof fn lemma_block_end_bounds(cs: Seq<char>, q: int)
    requires
        0 <= q,
    ensures
        block_end(cs, q) matches Some(r) ==> q + 2 <= r <= cs.len(),
    decreases cs.len() - q,
{
    if 0 <= q < cs.len() && !(cs[q] == '*' && q + 1 < cs.len() && cs[q + 1] == '/') {
        lemma_block_end_bounds(cs, q + 1);
    }
}

proof fn lemma_skip_bounds(cs: Seq<char>, p: int)
    requires
        0 <= p <= cs.len(),
    ensures
        skip(cs, p) matches Some(r) ==> p <= r <= cs.len(),
    decreases cs.len() - p,
{
    if p < cs.len() {
        if is_ws(cs[p]) {
            lemma_skip_bounds(cs, p + 1);
        } else if p + 1 < cs.len() && cs[p] == '/' && cs[p + 1] == '/' {
            lemma_line_end_bounds(cs, p + 2);
            lemma_skip_bounds(cs, line_end(cs, p + 2));
        } else if p + 1 < cs.len() && cs[p] == '/' && cs[p + 1] == '*' {
            lemma_block_end_bounds(cs, p + 2);
            if block_end(cs, p + 2) is Some {
                lemma_skip_bounds(cs, block_end(cs, p + 2)->Some_0);
            }
        }
    }
}

/// The end of the identifier characters from `q` on.
pub open spec fn ident_end(cs: Seq<char>, q: int) -> int
    decreases cs.len() - q,
{
    if q < 0 || q >= cs.len() {
        if q < 0 { q } else { cs.len() as int }
    } else if ident_char(cs[q]) {
        ident_end(cs, q + 1)
    } else {
        q
    }
}

/// The end of the number characters from `q` on.
pub open spec fn number_end(cs: Seq<char>, q: int) -> int
    decreases cs.len() - q,
{
    if q < 0 || q >= cs.len() {
        if q < 0 { q } else { cs.len() as int }
    } else if number_char(cs[q]) {
        number_end(cs, q + 1)
    } else {
        q
    }
}

// ---------------------------------------------------------------------------
// Number literals.

/// The value of a digit in bases up to sixteen; `16` for other characters.
pub open spec fn digit_val(c: char) -> int {
    if '0' <= c && c <= '9' {
        c as int - '0' as int
    } else if 'a' <= c && c <= 'f' {
        c as int - 'a' as int + 10
    } else if 'A' <= c && c <= 'F' {
        c as int - 'A' as int + 10
    } else {
        16
    }
}

/// The value of the digits `ds` in base `base`.
pub open spec fn digits_nat(ds: Seq<char>, base: int) -> int
    decreases ds.len(),
{
    if ds.len() == 0 {
        0
    } else {
        digits_nat(ds.drop_last(), base) * base + digit_val(ds.last())
    }
}

/// The `i32` that the digits `ds` denote in base `base`, as
/// `i32::from_str_radix` reads it: `None` for no digits, a character that is
/// no digit of the base, or a value above `i32::MAX`.
pub open spec fn digits_value(ds: Seq<char>, base: int) -> Option<i32> {
    if ds.len() > 0 && (forall|i: int| 0 <= i < ds.len() ==> #[trigger] digit_val(ds[i]) < base)
        && digits_nat(ds, base) <= i32::MAX {
        Some(digits_nat(ds, base) as i32)
    } else {
        None
    }
}

/// The value of a number literal: hexadecimal after `0x` or `0X`, octal after
/// another leading `0`, decimal otherwise; `None` when it does not fit or is
/// malformed.
pub open spec fn int_value(text: Seq<char>) -> Option<i32> {
    if text.len() >= 2 && text[0] == '0' && (text[1] == 'x' || text[1] == 'X') {
        digits_value(text.skip(2), 16)
    } else if text.len() > 1 && text[0] == '0' {
        digits_value(text, 8)
    } else {
        digits_value(text, 10)
    }
}

/// A digit of base sixteen in its lower-case form.
pub open spec fn hex_digit(c: char) -> bool {
    ('0' <= c && c <= '9') || ('a' <= c && c <= 'f')
}

/// Hexadecimal literals: a single digit `0`-`9` or `a`-`f` after `0x` has a
/// value below sixteen, and a digit later in that order a larger one, so the
/// sixteen of them stand for 0 to 15 in turn; an upper-case letter, after `0x`
/// or `0X`, has the value of its lower-case form; and two digits after `0x`
/// denote sixteen times the first plus the second.
pub proof fn lemma_hex_literals(c: char, d: char, u: char)
    requires
        hex_digit(c),
        hex_digit(d),
    ensures
        int_value(seq!['0', 'x', c]) matches Some(v) && 0 <= v < 16,
        c < d ==> int_value(seq!['0', 'x', c])->Some_0 < int_value(seq!['0', 'x', d])->Some_0,
        'a' <= c && c <= 'f' && u as int == c as int - ('a' as int - 'A' as int) ==>
            int_value(seq!['0', 'X', u]) == int_value(seq!['0', 'x', c])
            && int_value(seq!['0', 'x', u]) == int_value(seq!['0', 'x', c]),
        int_value(seq!['0', 'x', c, d]) matches Some(w)
            && w == 16 * int_value(seq!['0', 'x', c])->Some_0 + int_value(seq!['0', 'x', d])->Some_0,
{
    lemma_one_hex_digit('x', c);
    lemma_one_hex_digit('x', d);
    lemma_one_hex_digit('x', u);
    lemma_one_hex_digit('X', u);
    let cd = seq!['0', 'x', c, d];
    assert(cd.skip(2) =~= seq![c, d]);
    assert(seq![c, d].drop_last() =~= seq![c]);
    let one = seq![c];
    assert(one.drop_last() =~= Seq::<char>::empty());
    assert(one.last() == c);
    assert(digits_nat(Seq::<char>::empty(), 16) == 0);
    assert(digits_nat(one, 16) == digit_val(c));
    assert(digits_nat(seq![c, d], 16) == digit_val(c) * 16 + digit_val(d));
    let ds = seq![c, d];
    assert forall|i: int| 0 <= i < ds.len() implies #[trigger] digit_val(ds[i]) < 16 by {
        if i == 0 {
            assert(ds[i] == c);
        } else {
            assert(ds[i] == d);
        }
    }
}

/// A literal of one character after `0` and `x` or `X` has the value of that
/// character as a digit, when it is one.
proof fn lemma_one_hex_digit(x: char, c: char)
    requires
        x == 'x' || x == 'X',
    ensures
        digit_val(c) < 16 ==> int_value(seq!['0', x, c]) == Some(digit_val(c) as i32),
        digit_val(c) < 16 ==> 0 <= digit_val(c),
{
    let s = seq!['0', x, c];
    assert(s.skip(2) =~= seq![c]);
    let one = seq![c];
    assert(one.drop_last() =~= Seq::<char>::empty());
    assert(one.last() == c);
    assert(digits_nat(Seq::<char>::empty(), 16) == 0);
    assert(digits_nat(one, 16) == digit_val(c));
    let ds = seq![c];
    if digit_val(c) < 16 {
        assert forall|i: int| 0 <= i < ds.len() implies #[trigger] digit_val(ds[i]) < 16 by {
            assert(ds[i] == c);
        }
    }
}

pub(crate) proof fn lemma_digits_monotone(ds: Seq<char>, base: int, i: int)
    requires
        0 <= i <= ds.len(),
        base >= 2,
        forall|k: int| 0 <= k < ds.len() ==> 0 <= #[trigger] digit_val(ds[k]) < base,
    ensures
        0 <= digits_nat(ds.take(i), base) <= digits_nat(ds, base),
    decreases ds.len(),
{
    if i < ds.len() {
        lemma_digits_monotone(ds.drop_last(), base, i);
        assert(ds.drop_last().take(i) =~= ds.take(i));
        assert(digits_nat(ds, base) == digits_nat(ds.drop_last(), base) * base + digit_val(ds.last()));
        assert(digits_nat(ds.drop_last(), base) * base >= digits_nat(ds.drop_last(), base)) by (nonlinear_arith)
            requires
                digits_nat(ds.drop_last(), base) >= 0,
                base >= 2,
        ;
    } else {
        assert(ds.take(i) =~= ds);
        if ds.len() > 0 {
            lemma_digits_monotone(ds.drop_last(), base, ds.len() - 1);
            assert(ds.drop_last().take(ds.len() - 1) =~= ds.drop_last());
            assert(digits_nat(ds.drop_last(), base) * base >= 0) by (nonlinear_arith)
                requires
                    digits_nat(ds.drop_last(), base) >= 0,
                    base >= 2,
            ;
        }
    }
}

fn digit_of(c: char) -> (d: u32)
    ensures
        d == digit_val(c),
{
    if '0' <= c && c <= '9' {
        (c as u32) - ('0' as u32)
    } else if 'a' <= c && c <= 'f' {
        (c as u32) - ('a' as u32) + 10
    } else if 'A' <= c && c <= 'F' {
        (c as u32) - ('A' as u32) + 10
    } else {
        16
    }
}

/// Reads the digits `text[from..]` in base `base`.
fn read_digits(text: &Vec<char>, from: usize, base: u32) -> (v: Option<i32>)
    requires
        from <= text@.len(),
        base == 8 || base == 10 || base == 16,
    ensures
        v == digits_value(text@.skip(from as int), base as int),
{
    let ghost ds = text@.skip(from as int);
    if from == text.len() {
        return None;
    }
    let mut acc: i64 = 0;
    let mut i = from;
    proof {
        assert(ds.take(0) =~= Seq::<char>::empty());
    }
    while i < text.len()
        invariant
            from <= i <= text@.len(),
            ds == text@.skip(from as int),
            base == 8 || base == 10 || base == 16,
            forall|k: int| 0 <= k < i - from ==> #[trigger] digit_val(ds[k]) < base,
            acc == digits_nat(ds.take(i - from), base as int),
            0 <= acc <= i32::MAX,
        decreases text.len() - i,
    {
        let d = digit_of(text[i]);
        proof {
            assert(ds[i - from] == text@[i as int]);
        }
        if d >= base {
            return None;
        }
        proof {
            assert(ds.take(i + 1 - from).drop_last() =~= ds.take(i - from));
            assert(ds.take(i + 1 - from).last() == ds[i - from]);
            assert(acc * (base as i64) + (d as i64) <= 0x7fff_ffff * 16 + 16) by (nonlinear_arith)
                requires
                    0 <= acc <= 0x7fff_ffff,
                    base <= 16,
                    d < 16,
            ;
        }
        acc = acc * (base as i64) + (d as i64);
        if acc > 0x7fff_ffff {
            proof {
                if forall|k: int| 0 <= k < ds.len() ==> #[trigger] digit_val(ds[k]) < base {
                    lemma_digits_monotone(ds, base as int, i + 1 - from);
                }
            }
            return None;
        }
        i = i + 1;
    }
    proof {
        assert(ds.take(i - from) =~= ds);
    }
    Some(acc as i32)
}

/// The value of a number literal, as the tokenizer reads it.
fn parse_int(text: &Vec<char>) -> (v: i32)
    requires
        int_value(text@) is Some,
    ensures
        v == int_value(text@)->Some_0,
{
    if text.len() >= 2 && text[0] == '0' && (text[1] == 'x' || text[1] == 'X') {
        read_digits(text, 2, 16).unwrap()
    } else if text.len() > 1 && text[0] == '0' {
        proof {
            assert(text@.skip(0) =~= text@);
        }
        read_digits(text, 0, 8).unwrap()
    } else {
        proof {
            assert(text@.skip(0) =~= text@);
        }
        read_digits(text, 0, 10).unwrap()
    }
}

// ---------------------------------------------------------------------------
// Tokens.

/// The keyword a word spells, if any.
pub open spec fn keyword(text: Seq<char>) -> Option<Tok> {
    if false {
        None
    } else if text == "int"@ {
        Some(Tok::Int)
    } else if text == "void"@ {
        Some(Tok::Void)
    } else if text == "const"@ {
        Some(Tok::Const)
    } else if text == "struct"@ {
        Some(Tok::Struct)
    } else if text == "if"@ {
        Some(Tok::If)
    } else if text == "else"@ {
        Some(Tok::Else)
    } else if text == "while"@ {
        Some(Tok::While)
    } else if text == "continue"@ {
        Some(Tok::Continue)
    } else if text == "break"@ {
        Some(Tok::Break)
    } else if text == "return"@ {
        Some(Tok::Return)
    } else if text == "new"@ {
        Some(Tok::New)
    } else if text == "async"@ {
        Some(Tok::Async)
    } else if text == "await"@ {
        Some(Tok::Await)
    } else if text == "Promise"@ {
        Some(Tok::Promise)
    } else if text == "sleep"@ {
        Some(Tok::Sleep)
    } else if text == "wait"@ {
        Some(Tok::Wait)
    } else {
        None
    }
}

fn keyword_of(text: &str) -> (t: Option<Tok>)
    ensures
        t == keyword(text@),
{
    if crate::table::str_eq(text, "int") {
        return Some(Tok::Int);
    }
    if crate::table::str_eq(text, "void") {
        return Some(Tok::Void);
    }
    if crate::table::str_eq(text, "const") {
        return Some(Tok::Const);
    }
    if crate::table::str_eq(text, "struct") {
        return Some(Tok::Struct);
    }
    if crate::table::str_eq(text, "if") {
        return Some(Tok::If);
    }
    if crate::table::str_eq(text, "else") {
        return Some(Tok::Else);
    }
    if crate::table::str_eq(text, "while") {
        return Some(Tok::While);
    }
    if crate::table::str_eq(text, "continue") {
        return Some(Tok::Continue);
    }
    if crate::table::str_eq(text, "break") {
        return Some(Tok::Break);
    }
    if crate::table::str_eq(text, "return") {
        return Some(Tok::Return);
    }
    if crate::table::str_eq(text, "new") {
        return Some(Tok::New);
    }
    if crate::table::str_eq(text, "async") {
        return Some(Tok::Async);
    }
    if crate::table::str_eq(text, "await") {
        return Some(Tok::Await);
    }
    if crate::table::str_eq(text, "Promise") {
        return Some(Tok::Promise);
    }
    if crate::table::str_eq(text, "sleep") {
        return Some(Tok::Sleep);
    }
    if crate::table::str_eq(text, "wait") {
        return Some(Tok::Wait);
    }
    None
}

/// What the lexer remembers between tokens: where it is, the names known to
/// be struct types, whether the next word names a struct being defined, and
/// the last word seen, which a `{` makes a struct type name.
#[verifier::ext_equal]
pub struct LexState {
    pub pos: int,
    pub names: Set<Seq<char>>,
    pub expect: bool,
    pub bare: Option<Seq<char>>,
}

pub open spec fn at(st: LexState, pos: int) -> LexState {
    LexState { pos, names: st.names, expect: st.expect, bare: st.bare }
}

/// The state after a punctuation token or keyword: `struct` announces a
/// struct name, `{` makes the last word a struct name, and the tokens that
/// end a declarator forget the last word.
pub open spec fn after_token(st: LexState, t: Tok) -> LexState {
    match t {
        Tok::Struct => LexState { pos: st.pos, names: st.names, expect: true, bare: None },
        Tok::LBrace => match st.bare {
            Some(n) => LexState { pos: st.pos, names: st.names.insert(n), expect: st.expect, bare: None },
            None => st,
        },
        Tok::Semicolon | Tok::RBrace | Tok::LParen | Tok::RParen | Tok::LBracket | Tok::Assign | Tok::Comma =>
            LexState { pos: st.pos, names: st.names, expect: st.expect, bare: None },
        _ => st,
    }
}

/// A token described up to the string it carries.
pub enum TokSpec {
    Exact(Tok),
    Ident(Seq<char>),
    TypeIdent(Seq<char>),
}

pub open spec fn tok_meets(t: Tok, d: TokSpec) -> bool {
    match d {
        TokSpec::Exact(x) => t == x,
        TokSpec::Ident(s) => t matches Tok::Ident(n) && n@ == s,
        TokSpec::TypeIdent(s) => t matches Tok::TypeIdent(n) && n@ == s,
    }
}

/// The token a word spells and the state after it, the word ending at `end`.
pub open spec fn word(st: LexState, text: Seq<char>, end: int) -> (TokSpec, LexState) {
    match keyword(text) {
        Some(t) => (TokSpec::Exact(t), after_token(at(st, end), t)),
        None => if st.expect {
            (TokSpec::TypeIdent(text), LexState { pos: end, names: st.names.insert(text), expect: false, bare: Some(text) })
        } else if st.names.contains(text) {
            (TokSpec::TypeIdent(text), LexState { pos: end, names: st.names, expect: st.expect, bare: Some(text) })
        } else {
            (TokSpec::Ident(text), LexState { pos: end, names: st.names, expect: st.expect, bare: Some(text) })
        },
    }
}

/// The punctuation token at `p` and where it ends; `None` for a character
/// that starts no token.
pub open spec fn punct(cs: Seq<char>, p: int) -> Option<(Tok, int)> {
    let c = cs[p];
    let two = p + 1 < cs.len();
    if c == '+' {
        Some((Tok::Plus, p + 1))
    } else if c == '-' {
        if two && cs[p + 1] == '>' { Some((Tok::Arrow, p + 2)) } else { Some((Tok::Minus, p + 1)) }
    } else if c == '*' {
        Some((Tok::Star, p + 1))
    } else if c == '/' {
        Some((Tok::Slash, p + 1))
    } else if c == '%' {
        Some((Tok::Percent, p + 1))
    } else if c == '!' {
        if two && cs[p + 1] == '=' { Some((Tok::Ne, p + 2)) } else { Some((Tok::Bang, p + 1)) }
    } else if c == '&' {
        if two && cs[p + 1] == '&' { Some((Tok::AmpAmp, p + 2)) } else { Some((Tok::Amp, p + 1)) }
    } else if c == '|' {
        if two && cs[p + 1] == '|' { Some((Tok::PipePipe, p + 2)) } else { None }
    } else if c == '=' {
        if two && cs[p + 1] == '=' { Some((Tok::EqEq, p + 2)) } else { Some((Tok::Assign, p + 1)) }
    } else if c == '<' {
        if two && cs[p + 1] == '=' { Some((Tok::Le, p + 2)) } else { Some((Tok::Lt, p + 1)) }
    } else if c == '>' {
        if two && cs[p + 1] == '=' { Some((Tok::Ge, p + 2)) } else { Some((Tok::Gt, p + 1)) }
    } else if c == '(' {
        Some((Tok::LParen, p + 1))
    } else if c == ')' {
        Some((Tok::RParen, p + 1))
    } else if c == '{' {
        Some((Tok::LBrace, p + 1))
    } else if c == '}' {
        Some((Tok::RBrace, p + 1))
    } else if c == '[' {
        Some((Tok::LBracket, p + 1))
    } else if c == ']' {
        Some((Tok::RBracket, p + 1))
    } else if c == ',' {
        Some((Tok::Comma, p + 1))
    } else if c == ';' {
        Some((Tok::Semicolon, p + 1))
    } else if c == '.' {
        Some((Tok::Dot, p + 1))
    } else {
        None
    }
}

/// The next token can be read: a number literal there has a value.
pub open spec fn next_ok(cs: Seq<char>, st: LexState) -> bool {
    match skip(cs, st.pos) {
        Some(p) => 0 <= p < cs.len() && is_digit(cs[p]) ==> int_value(cs.subrange(p, number_end(cs, p + 1))) is Some,
        None => true,
    }
}

/// One call of `next` on the text `cs` from state `st` answers `r` and
/// leaves state `st2`. Tokens come with the byte offsets of their first
/// character and of the character after them.
pub open spec fn lex_next(cs: Seq<char>, st: LexState, r: Option<Result<(usize, Tok, usize), LexError>>, st2: LexState) -> bool {
    match skip(cs, st.pos) {
        None => r == Some(Err::<(usize, Tok, usize), LexError>(LexError::UnterminatedBlockComment))
            && st2 == at(st, cs.len() as int),
        Some(p) => if p >= cs.len() {
            r is None && st2 == at(st, p)
        } else {
            let c = cs[p];
            if ident_start(c) {
                let q = ident_end(cs, p + 1);
                let w = word(st, cs.subrange(p, q), q);
                &&& r matches Some(Ok((a, t, b)))
                &&& a == byte_off(cs, p) && b == byte_off(cs, q) && tok_meets(t, w.0)
                &&& st2 == w.1
            } else if is_digit(c) {
                let q = number_end(cs, p + 1);
                &&& r matches Some(Ok((a, t, b)))
                &&& a == byte_off(cs, p) && b == byte_off(cs, q)
                &&& t == Tok::IntConst(int_value(cs.subrange(p, q))->Some_0)
                &&& st2 == at(st, q)
            } else {
                match punct(cs, p) {
                    None => r == Some(Err::<(usize, Tok, usize), LexError>(LexError::InvalidChar(c)))
                        && st2 == at(st, p + 1),
                    Some((t, q)) => {
                        &&& r matches Some(Ok((a, t2, b)))
                        &&& a == byte_off(cs, p) && b == byte_off(cs, q) && t2 == t
                        &&& st2 == after_token(at(st, q), t)
                    },
                }
            }
        },
    }
}

// ---------------------------------------------------------------------------
// The lexer.

/// Splits a source text into tokens, one `next` at a time.
pub struct Lexer<'input> {
    input: &'input str,
    chars: Vec<(usize, char)>,
    pos: usize,
    struct_names: NameSet,
    expect_struct_name: bool,
    possible_bare_struct_name: Option<String>,
}

impl<'input> Lexer<'input> {
    /// The characters of the text.
    pub closed spec fn text(&self) -> Seq<char> {
        Seq::new(self.chars@.len(), |i: int| self.chars@[i].1)
    }

    pub closed spec fn state(&self) -> LexState {
        LexState {
            pos: self.pos as int,
            names: self.struct_names.view_set(),
            expect: self.expect_struct_name,
            bare: match self.possible_bare_struct_name {
                Some(n) => Some(n@),
                None => None,
            },
        }
    }

    pub closed spec fn wf(&self) -> bool {
        &&& self.input@ == self.text()
        &&& forall|i: int| 0 <= i < self.chars@.len() ==> (#[trigger] self.chars@[i]).0 == byte_off(self.text(), i)
        &&& self.pos <= self.chars@.len()
        &&& self.struct_names.wf()
    }

    pub fn new(input: &'input str) -> (l: Self)
        ensures
            l.wf(),
            l.text() == input@,
            l.state() == (LexState { pos: 0, names: Set::empty(), expect: false, bare: None }),
    {
        let mut chars: Vec<(usize, char)> = Vec::new();
        let mut off: usize = 0;
        let total = str_byte_len(input);
        proof {
            lemma_encode_monotone(input@, 0, input@.len() as int);
            assert(input@.take(input@.len() as int) =~= input@);
            assert(input@.take(0) =~= Seq::<char>::empty());
            assert(encode_utf8(Seq::<char>::empty()) =~= Seq::<u8>::empty());
        }
        for c in it: input.chars()
            invariant
                it.seq() == input@,
                it.index() <= input@.len(),
                chars@.len() == it.index(),
                forall|k: int| 0 <= k < it.index() ==> (#[trigger] chars@[k]) == (byte_off(input@, k) as usize, input@[k]),
                off == byte_off(input@, it.index() as int),
                byte_off(input@, input@.len() as int) == total,
        {
            let ghost k = it.index() as int;
            proof {
                assert(input@.take(k + 1) =~= input@.take(k).push(input@[k]));
                lemma_encode_push(input@.take(k), input@[k]);
                lemma_encode_monotone(input@, k + 1, input@.len() as int);
            }
            chars.push((off, c));
            off = off + utf8_width(c);
        }
        let l = Lexer {
            input,
            chars,
            pos: 0,
            struct_names: NameSet::new(),
            expect_struct_name: false,
            possible_bare_struct_name: None,
        };
        proof {
            assert(l.text() =~= input@);
            assert(l.state() =~= (LexState { pos: 0, names: Set::empty(), expect: false, bare: None }));
            assert forall|k: int| 0 <= k < l.chars@.len() implies (#[trigger] l.chars@[k]).0 == byte_off(l.text(), k) by {
                lemma_encode_monotone(input@, k, input@.len() as int);
            }
        }
        l
    }

    fn byte_pos(&self) -> (b: usize)
        requires
            self.wf(),
        ensures
            b == byte_off(self.text(), self.pos as int),
    {
        if self.pos < self.chars.len() {
            self.chars[self.pos].0
        } else {
            proof {
                assert(self.text().take(self.text().len() as int) =~= self.text());
            }
            str_byte_len(self.input)
        }
    }

    fn char_at(&self, i: usize) -> (c: Option<char>)
        ensures
            c == (if i < self.text().len() { Some(self.text()[i as int]) } else { None::<char> }),
    {
        if i < self.chars.len() {
            Some(self.chars[i].1)
        } else {
            None
        }
    }

    /// The position of the next token from `p` on, past white space and
    /// comments; `None` when a block comment does not end.
    fn find_skip(&self, p: usize) -> (r: Option<usize>)
        requires
            self.wf(),
            p <= self.text().len(),
        ensures
            match r {
                Some(q) => skip(self.text(), p as int) == Some(q as int),
                None => skip(self.text(), p as int) is None,
            },
    {
        let ghost cs = self.text();
        let n = self.chars.len();
        let mut q = p;
        loop
            invariant
                q <= n,
                n == cs.len(),
                cs == self.text(),
                skip(cs, p as int) == skip(cs, q as int),
            decreases n - q,
        {
            let ghost q_head = q;
            while q < n && white_space(self.chars[q].1)
                invariant
                    q_head <= q <= n,
                    n == cs.len(),
                    cs == self.text(),
                    skip(cs, p as int) == skip(cs, q as int),
                decreases n - q,
            {
                q = q + 1;
            }
            if q < n && q + 1 < n && self.chars[q].1 == '/' && self.chars[q + 1].1 == '/' {
                let mut r = q + 2;
                while r < n && !(self.chars[r].1 == '\n' || self.chars[r].1 == '\r')
                    invariant
                        q + 2 <= r <= n,
                        n == cs.len(),
                        cs == self.text(),
                        line_end(cs, q + 2) == line_end(cs, r as int),
                    decreases n - r,
                {
                    r = r + 1;
                }
                if r < n {
                    r = r + 1;
                }
                q = r;
                continue;
            }
            if q < n && q + 1 < n && self.chars[q].1 == '/' && self.chars[q + 1].1 == '*' {
                let mut r = q + 2;
                loop
                    invariant
                        q + 2 <= r <= n,
                        n == cs.len(),
                        cs == self.text(),
                        block_end(cs, q + 2) == block_end(cs, r as int),
                    decreases n - r,
                {
                    if r >= n {
                        return None;
                    }
                    if self.chars[r].1 == '*' && r + 1 < n && self.chars[r + 1].1 == '/' {
                        r = r + 2;
                        break;
                    }
                    r = r + 1;
                }
                q = r;
                continue;
            }
            return Some(q);
        }
    }

    /// The end of the identifier characters from `q` on.
    fn find_ident_end(&self, q: usize) -> (r: usize)
        requires
            self.wf(),
            q <= self.text().len(),
        ensures
            r == ident_end(self.text(), q as int),
    {
        let mut r = q;
        while r < self.chars.len() && is_ident_char(self.chars[r].1)
            invariant
                q <= r <= self.chars@.len(),
                ident_end(self.text(), q as int) == ident_end(self.text(), r as int),
            decreases self.chars@.len() - r,
        {
            r = r + 1;
        }
        r
    }

    /// The end of the number characters from `q` on.
    fn find_number_end(&self, q: usize) -> (r: usize)
        requires
            self.wf(),
            q <= self.text().len(),
        ensures
            r == number_end(self.text(), q as int),
    {
        let mut r = q;
        while r < self.chars.len() && is_number_char(self.chars[r].1)
            invariant
                q <= r <= self.chars@.len(),
                number_end(self.text(), q as int) == number_end(self.text(), r as int),
            decreases self.chars@.len() - r,
        {
            r = r + 1;
        }
        r
    }

    /// The characters from `a` to `b`.
    fn chars_between(&self, a: usize, b: usize) -> (v: Vec<char>)
        requires
            a <= b <= self.text().len(),
        ensures
            v@ == self.text().subrange(a as int, b as int),
    {
        let mut v: Vec<char> = Vec::new();
        let mut i = a;
        while i < b
            invariant
                a <= i <= b,
                b <= self.chars@.len(),
                v@ == self.text().subrange(a as int, i as int),
            decreases b - i,
        {
            v.push(self.chars[i].1);
            proof {
                assert(v@ =~= self.text().subrange(a as int, i + 1));
            }
            i = i + 1;
        }
        v
    }

    /// The text from `a` to `b`, as a string.
    fn string_between(&self, a: usize, b: usize) -> (s: String)
        requires
            a <= b <= self.text().len(),
        ensures
            s@ == self.text().subrange(a as int, b as int),
    {
        let mut s = String::new();
        let mut i = a;
        proof {
            assert(s@ =~= self.text().subrange(a as int, a as int));
        }
        while i < b
            invariant
                a <= i <= b,
                b <= self.chars@.len(),
                s@ == self.text().subrange(a as int, i as int),
            decreases b - i,
        {
            push_char(&mut s, self.chars[i].1);
            proof {
                assert(s@ =~= self.text().subrange(a as int, i + 1));
            }
            i = i + 1;
        }
        s
    }

    /// Records what a punctuation token or keyword tells of struct names.
    fn token(&mut self, tok: Tok) -> (t: Tok)
        requires
            old(self).wf(),
        ensures
            final(self).wf(),
            t == tok,
            final(self).text() == old(self).text(),
            final(self).state() == after_token(old(self).state(), tok),
    {
        match &tok {
            Tok::Struct => {
                self.expect_struct_name = true;
                self.possible_bare_struct_name = None;
            }
            Tok::LBrace => {
                match self.possible_bare_struct_name.take() {
                    Some(name) => {
                        self.struct_names.insert(name);
                    }
                    None => {}
                }
            }
            Tok::Semicolon | Tok::RBrace | Tok::LParen | Tok::RParen | Tok::LBracket | Tok::Assign | Tok::Comma => {
                self.possible_bare_struct_name = None;
            }
            _ => {}
        }
        proof {
            assert(self.state() =~= after_token(old(self).state(), tok));
        }
        tok
    }

    /// Whether the character at the current position is `c`.
    fn next_is(&self, c: char) -> (b: bool)
        ensures
            b == (self.pos < self.text().len() && self.text()[self.pos as int] == c),
    {
        self.pos < self.chars.len() && self.chars[self.pos].1 == c
    }

    /// The next token with the byte offsets where it starts and ends, an
    /// error, or `None` at the end of the text.
    #[verifier::rlimit(60)]
    pub fn next(&mut self) -> (r: Option<Result<(usize, Tok, usize), LexError>>)
        requires
            old(self).wf(),
            next_ok(old(self).text(), old(self).state()),
        ensures
            final(self).wf(),
            final(self).text() == old(self).text(),
            lex_next(old(self).text(), old(self).state(), r, final(self).state()),
    {
        let ghost cs = self.text();
        let ghost st = self.state();
        proof {
            lemma_skip_bounds(cs, st.pos);
        }
        match self.find_skip(self.pos) {
            None => {
                self.pos = self.chars.len();
                proof {
                    assert(self.state() =~= at(st, cs.len() as int));
                }
                return Some(Err(LexError::UnterminatedBlockComment));
            }
            Some(p) => {
                self.pos = p;
            }
        }
        let start = self.byte_pos();
        let ch = match self.char_at(self.pos) {
            Some(c) => c,
            None => {
                proof {
                    assert(self.state() =~= at(st, self.pos as int));
                }
                return None;
            }
        };
        let p = self.pos;
        let n = self.chars.len();
        proof {
            assert(p < n);
        }
        if is_ident_start(ch) {
            let q = self.find_ident_end(p + 1);
            proof {
                lemma_ident_end_bounds(cs, p + 1);
            }
            let ident = self.string_between(p, q);
            self.pos = q;
            let tok = match keyword_of(ident.as_str()) {
                Some(t) => {
                    proof {
                        assert(self.state() =~= at(st, q as int));
                    }
                    self.token(t)
                }
                None => {
                    if self.expect_struct_name {
                        self.expect_struct_name = false;
                        self.struct_names.insert(ident.clone());
                        self.possible_bare_struct_name = Some(ident.clone());
                        Tok::TypeIdent(ident)
                    } else if self.struct_names.contains(ident.as_str()) {
                        self.possible_bare_struct_name = Some(ident.clone());
                        Tok::TypeIdent(ident)
                    } else {
                        self.possible_bare_struct_name = Some(ident.clone());
                        Tok::Ident(ident)
                    }
                }
            };
            proof {
                assert(self.state() =~= word(st, cs.subrange(p as int, q as int), q as int).1);
            }
            let end = self.byte_pos();
            Some(Ok((start, tok, end)))
        } else if '0' <= ch && ch <= '9' {
            let q = self.find_number_end(p + 1);
            proof {
                lemma_number_end_bounds(cs, p + 1);
            }
            let digits = self.chars_between(p, q);
            self.pos = q;
            let value = parse_int(&digits);
            let tok = self.token(Tok::IntConst(value));
            proof {
                assert(self.state() =~= at(st, q as int));
            }
            let end = self.byte_pos();
            Some(Ok((start, tok, end)))
        } else {
            self.pos = p + 1;
            let tok = if ch == '+' {
                Tok::Plus
            } else if ch == '-' {
                if self.next_is('>') {
                    self.pos = self.pos + 1;
                    Tok::Arrow
                } else {
                    Tok::Minus
                }
            } else if ch == '*' {
                Tok::Star
            } else if ch == '/' {
                Tok::Slash
            } else if ch == '%' {
                Tok::Percent
            } else if ch == '!' {
                if self.next_is('=') {
                    self.pos = self.pos + 1;
                    Tok::Ne
                } else {
                    Tok::Bang
                }
            } else if ch == '&' {
                if self.next_is('&') {
                    self.pos = self.pos + 1;
                    Tok::AmpAmp
                } else {
                    Tok::Amp
                }
            } else if ch == '|' && self.next_is('|') {
                self.pos = self.pos + 1;
                Tok::PipePipe
            } else if ch == '=' {
                if self.next_is('=') {
                    self.pos = self.pos + 1;
                    Tok::EqEq
                } else {
                    Tok::Assign
                }
            } else if ch == '<' {
                if self.next_is('=') {
                    self.pos = self.pos + 1;
                    Tok::Le
                } else {
                    Tok::Lt
                }
            } else if ch == '>' {
                if self.next_is('=') {
                    self.pos = self.pos + 1;
                    Tok::Ge
                } else {
                    Tok::Gt
                }
            } else if ch == '(' {
                Tok::LParen
            } else if ch == ')' {
                Tok::RParen
            } else if ch == '{' {
                Tok::LBrace
            } else if ch == '}' {
                Tok::RBrace
            } else if ch == '[' {
                Tok::LBracket
            } else if ch == ']' {
                Tok::RBracket
            } else if ch == ',' {
                Tok::Comma
            } else if ch == ';' {
                Tok::Semicolon
            } else if ch == '.' {
                Tok::Dot
            } else {
                proof {
                    assert(self.state() =~= at(st, p + 1));
                }
                return Some(Err(LexError::InvalidChar(ch)));
            };
            let ghost q = self.pos;
            proof {
                assert(punct(cs, p as int) == Some((tok, q as int)));
                assert(self.state() =~= at(st, q as int));
            }
            let tok = self.token(tok);
            let end = self.byte_pos();
            Some(Ok((start, tok, end)))
        }
    }

    /// Whether the next token can be read: a number literal there must have a value.
    pub fn next_token_fits(&self) -> (b: bool)
        requires
            self.wf(),
        ensures
            b == next_ok(self.text(), self.state()),
    {
        match self.find_skip(self.pos) {
            None => true,
            Some(p) => {
                if p < self.chars.len() && '0' <= self.chars[p].1 && self.chars[p].1 <= '9' {
                    proof {
                        lemma_skip_bounds(self.text(), self.pos as int);
                    }
                    let q = self.find_number_end(p + 1);
                    proof {
                        lemma_number_end_bounds(self.text(), p + 1);
                    }
                    let digits = self.chars_between(p, q);
                    int_value_of(&digits).is_some()
                } else {
                    true
                }
            }
        }
    }
}

proof fn lemma_number_end_bounds(cs: Seq<char>, q: int)
    requires
        0 <= q <= cs.len(),
    ensures
        q <= number_end(cs, q) <= cs.len(),
    decreases cs.len() - q,
{
    if q < cs.len() && number_char(cs[q]) {
        lemma_number_end_bounds(cs, q + 1);
    }
}

proof fn lemma_ident_end_bounds(cs: Seq<char>, q: int)
    requires
        0 <= q <= cs.len(),
    ensures
        q <= ident_end(cs, q) <= cs.len(),
    decreases cs.len() - q,
{
    if q < cs.len() && ident_char(cs[q]) {
        lemma_ident_end_bounds(cs, q + 1);
    }
}

/// The value of a number literal, or `None` when it would not parse.
fn int_value_of(text: &Vec<char>) -> (v: Option<i32>)
    ensures
        v == int_value(text@),
{
    if text.len() >= 2 && text[0] == '0' && (text[1] == 'x' || text[1] == 'X') {
        read_digits(text, 2, 16)
    } else if text.len() > 1 && text[0] == '0' {
        proof {
            assert(text@.skip(0) =~= text@);
        }
        read_digits(text, 0, 8)
    } else {
        proof {
            assert(text@.skip(0) =~= text@);
        }
        read_digits(text, 0, 10)
    }
}

/// Every token and every error moves the lexer forward, within the text;
/// only the end of the text is answered without moving, and it is answered
/// at the end. So a lexer that is called until it answers `None` stops.
pub proof fn lemma_lex_progress(cs: Seq<char>, st: LexState, r: Option<Result<(usize, Tok, usize), LexError>>, st2: LexState)
    requires
        lex_next(cs, st, r, st2),
        0 <= st.pos <= cs.len(),
    ensures
        r is Some ==> st.pos < st2.pos <= cs.len(),
        r is None ==> st2.pos == cs.len(),
{
    lemma_skip_bounds(cs, st.pos);
    match skip(cs, st.pos) {
        None => {}
        Some(p) => {
            if p < cs.len() {
                let c = cs[p];
                if ident_start(c) {
                    lemma_ident_end_bounds(cs, p + 1);
                } else if is_digit(c) {
                    lemma_number_end_bounds(cs, p + 1);
                }
            }
        }
    }
}

proof fn lemma_byte_off_strict(a: Seq<char>, i: int, j: int)
    requires
        0 <= i < j <= a.len(),
    ensures
        byte_off(a, i) < byte_off(a, j),
{
    lemma_encode_monotone(a, i, j - 1);
    assert(a.take(j) =~= a.take(j - 1).push(a[j - 1]));
    lemma_encode_push(a.take(j - 1), a[j - 1]);
    assert(encode_scalar(a[j - 1] as u32).len() >= 1);
}

/// Over a run of the lexer, token offsets go forward: each token ends after it
/// starts and the next one starts no earlier than the last ended; and once the
/// end of the text is reported, every later call reports it again.
pub proof fn lemma_lex_run(
    cs: Seq<char>,
    st1: LexState,
    r1: Option<Result<(usize, Tok, usize), LexError>>,
    st2: LexState,
    r2: Option<Result<(usize, Tok, usize), LexError>>,
    st3: LexState,
)
    requires
        0 <= st1.pos <= cs.len(),
        lex_next(cs, st1, r1, st2),
        lex_next(cs, st2, r2, st3),
    ensures
        r1 is None ==> r2 is None && st3.pos == cs.len(),
        r1 matches Some(Ok((a1, _t1, b1))) ==> a1 < b1,
        r1 matches Some(Ok((_a1, _t1, b1))) ==> (r2 matches Some(Ok((a2, _t2, _b2))) ==> b1 <= a2),
        r2 matches Some(Ok((a2, _t2, b2))) ==> a2 < b2,
{
    lemma_lex_progress(cs, st1, r1, st2);
    lemma_lex_progress(cs, st2, r2, st3);
    lemma_skip_bounds(cs, st1.pos);
    lemma_skip_bounds(cs, st2.pos);
    match skip(cs, st1.pos) {
        None => {},
        Some(p) => {
            if p < cs.len() {
                let c = cs[p];
                if ident_start(c) {
                    lemma_ident_end_bounds(cs, p + 1);
                    let q = ident_end(cs, p + 1);
                    lemma_byte_off_strict(cs, p, q);
                    assert(st2.pos == q);
                } else if is_digit(c) {
                    lemma_number_end_bounds(cs, p + 1);
                    let q = number_end(cs, p + 1);
                    lemma_byte_off_strict(cs, p, q);
                } else {
                    match punct(cs, p) {
                        None => {},
                        Some((t, q)) => {
                            lemma_byte_off_strict(cs, p, q);
                            assert(after_token(at(st1, q), t).pos == q);
                            assert(st2.pos == q);
                        },
                    }
                }
            }
        },
    }
    match skip(cs, st2.pos) {
        None => {},
        Some(p2) => {
            if p2 < cs.len() {
                lemma_encode_monotone(cs, st2.pos, p2);
                let c = cs[p2];
                if ident_start(c) {
                    lemma_ident_end_bounds(cs, p2 + 1);
                    lemma_byte_off_strict(cs, p2, ident_end(cs, p2 + 1));
                } else if is_digit(c) {
                    lemma_number_end_bounds(cs, p2 + 1);
                    lemma_byte_off_strict(cs, p2, number_end(cs, p2 + 1));
                } else {
                    match punct(cs, p2) {
                        None => {},
                        Some((t, q)) => {
                            lemma_byte_off_strict(cs, p2, q);
                        },
                    }
                }
            }
        },
    }
}

} // verus!
