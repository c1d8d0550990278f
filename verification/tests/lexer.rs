use compile_sysy::lexer::{LexError, Lexer, Tok};

fn all_tokens(input: &str) -> Vec<Result<(usize, Tok, usize), LexError>> {
    let mut lexer = Lexer::new(input);
    let mut out = Vec::new();
    while let Some(item) = lexer.next() {
        let stop = item.is_err();
        out.push(item);
        if stop {
            break;
        }
    }
    out
}

fn kinds(input: &str) -> Vec<Tok> {
    all_tokens(input)
        .into_iter()
        .map(|r| r.expect("token").1)
        .collect()
}

#[test]
fn lexes_a_small_function() {
    assert_eq!(
        kinds("int main() { return 0; }"),
        vec![
            Tok::Int,
            Tok::Ident("main".to_string()),
            Tok::LParen,
            Tok::RParen,
            Tok::LBrace,
            Tok::Return,
            Tok::IntConst(0),
            Tok::Semicolon,
            Tok::RBrace,
        ]
    );
}

#[test]
fn token_spans_are_byte_offsets() {
    let toks = all_tokens("  ab = 12;");
    assert_eq!(toks[0], Ok((2, Tok::Ident("ab".to_string()), 4)));
    assert_eq!(toks[1], Ok((5, Tok::Assign, 6)));
    assert_eq!(toks[2], Ok((7, Tok::IntConst(12), 9)));
    assert_eq!(toks[3], Ok((9, Tok::Semicolon, 10)));
}

#[test]
fn multibyte_characters_in_comments_shift_byte_offsets() {
    let toks = all_tokens("/*\u{e9}*/x");
    assert_eq!(toks, vec![Ok((6, Tok::Ident("x".to_string()), 7))]);
}

#[test]
fn struct_names_become_type_identifiers() {
    assert_eq!(
        kinds("struct Node { int v; }; Node n; node m;"),
        vec![
            Tok::Struct,
            Tok::TypeIdent("Node".to_string()),
            Tok::LBrace,
            Tok::Int,
            Tok::Ident("v".to_string()),
            Tok::Semicolon,
            Tok::RBrace,
            Tok::Semicolon,
            Tok::TypeIdent("Node".to_string()),
            Tok::Ident("n".to_string()),
            Tok::Semicolon,
            Tok::Ident("node".to_string()),
            Tok::Ident("m".to_string()),
            Tok::Semicolon,
        ]
    );
}

#[test]
fn a_word_before_a_brace_becomes_a_type_name() {
    let toks = kinds("Pair { } Pair p");
    assert_eq!(toks[0], Tok::Ident("Pair".to_string()));
    assert_eq!(toks[3], Tok::TypeIdent("Pair".to_string()));
    let toks = kinds("f ( ) { } f");
    assert_eq!(toks[5], Tok::Ident("f".to_string()));
}

#[test]
fn numbers_in_three_bases() {
    assert_eq!(
        kinds("0x1F 0X10 017 0 42 2147483647"),
        vec![
            Tok::IntConst(31),
            Tok::IntConst(16),
            Tok::IntConst(15),
            Tok::IntConst(0),
            Tok::IntConst(42),
            Tok::IntConst(i32::MAX),
        ]
    );
}

#[test]
fn an_oversized_number_does_not_fit() {
    let lexer = Lexer::new("  2147483648");
    assert!(!lexer.next_token_fits());
    let lexer = Lexer::new("09");
    assert!(!lexer.next_token_fits());
    let lexer = Lexer::new("0x");
    assert!(!lexer.next_token_fits());
    let lexer = Lexer::new("// 0x\n 7");
    assert!(lexer.next_token_fits());
}

#[test]
fn comments_and_white_space_are_skipped() {
    assert_eq!(
        kinds("// line\n\t/* block\n */ async\r\n await // end"),
        vec![Tok::Async, Tok::Await]
    );
}

#[test]
fn operators_of_one_and_two_characters() {
    assert_eq!(
        kinds("a->b != c && d || e <= f >= g == h < i > j ! k & l - m = n . o , p % q / r * s + t"),
        vec![
            Tok::Ident("a".to_string()),
            Tok::Arrow,
            Tok::Ident("b".to_string()),
            Tok::Ne,
            Tok::Ident("c".to_string()),
            Tok::AmpAmp,
            Tok::Ident("d".to_string()),
            Tok::PipePipe,
            Tok::Ident("e".to_string()),
            Tok::Le,
            Tok::Ident("f".to_string()),
            Tok::Ge,
            Tok::Ident("g".to_string()),
            Tok::EqEq,
            Tok::Ident("h".to_string()),
            Tok::Lt,
            Tok::Ident("i".to_string()),
            Tok::Gt,
            Tok::Ident("j".to_string()),
            Tok::Bang,
            Tok::Ident("k".to_string()),
            Tok::Amp,
            Tok::Ident("l".to_string()),
            Tok::Minus,
            Tok::Ident("m".to_string()),
            Tok::Assign,
            Tok::Ident("n".to_string()),
            Tok::Dot,
            Tok::Ident("o".to_string()),
            Tok::Comma,
            Tok::Ident("p".to_string()),
            Tok::Percent,
            Tok::Ident("q".to_string()),
            Tok::Slash,
            Tok::Ident("r".to_string()),
            Tok::Star,
            Tok::Ident("s".to_string()),
            Tok::Plus,
            Tok::Ident("t".to_string()),
        ]
    );
}

#[test]
fn keywords_are_recognised() {
    assert_eq!(
        kinds("void const if else while continue break new Promise sleep wait"),
        vec![
            Tok::Void,
            Tok::Const,
            Tok::If,
            Tok::Else,
            Tok::While,
            Tok::Continue,
            Tok::Break,
            Tok::New,
            Tok::Promise,
            Tok::Sleep,
            Tok::Wait,
        ]
    );
}

#[test]
fn a_lone_bar_is_an_invalid_character() {
    let toks = all_tokens("a | b");
    assert_eq!(toks[0], Ok((0, Tok::Ident("a".to_string()), 1)));
    assert_eq!(toks[1], Err(LexError::InvalidChar('|')));
    let toks = all_tokens("#");
    assert_eq!(toks, vec![Err(LexError::InvalidChar('#'))]);
}

#[test]
fn an_open_block_comment_is_an_error_then_the_end() {
    let mut lexer = Lexer::new("x /* never closed");
    assert_eq!(lexer.next(), Some(Ok((0, Tok::Ident("x".to_string()), 1))));
    assert_eq!(lexer.next(), Some(Err(LexError::UnterminatedBlockComment)));
    assert_eq!(lexer.next(), None);
}

#[test]
fn empty_input_has_no_tokens() {
    let mut lexer = Lexer::new("  \n\t ");
    assert_eq!(lexer.next(), None);
}
