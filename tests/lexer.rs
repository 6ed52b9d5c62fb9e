use unitecore::{Lexer, LexerError, NumericHint, PunctuationKind, TokenType};

fn open(raw: char, d: i32) -> TokenType {
    TokenType::Punctuation { raw, kind: PunctuationKind::Open(d) }
}

fn close(raw: char, d: i32) -> TokenType {
    TokenType::Punctuation { raw, kind: PunctuationKind::Close(d) }
}

fn num(raw: &str, hint: NumericHint) -> TokenType {
    TokenType::Numeric { raw: raw.to_string(), hint }
}

/// Every result up to and including the first EOF, with errors as text.
fn lex_all(input: &str) -> Vec<Result<TokenType, String>> {
    let mut lexer = Lexer::new(input);
    let mut out = Vec::new();
    for _ in 0..1000 {
        match lexer.next_token() {
            Ok(TokenType::EOF) => {
                out.push(Ok(TokenType::EOF));
                return out;
            }
            Ok(t) => out.push(Ok(t)),
            Err(e) => out.push(Err(format!("{:?}", e))),
        }
    }
    panic!("no EOF");
}

#[test]
fn test_macros() {
    assert_eq!(TokenType::EOF, TokenType::EOF);
    assert_eq!(Lexer::new("").next_token().unwrap(), TokenType::EOF);
}

#[test]
fn single_pair() {
    let mut l = Lexer::new("()");
    assert_eq!(l.next_token().unwrap(), open('(', 0));
    assert_eq!(l.next_token().unwrap(), close(')', 0));
    assert_eq!(l.next_token().unwrap(), TokenType::EOF);
}

#[test]
fn nested_pairs() {
    let mut l = Lexer::new("(())");
    assert_eq!(l.next_token().unwrap(), open('(', 0));
    assert_eq!(l.next_token().unwrap(), open('(', 1));
    assert_eq!(l.next_token().unwrap(), close(')', 1));
    assert_eq!(l.next_token().unwrap(), close(')', 0));
    assert_eq!(l.next_token().unwrap(), TokenType::EOF);
}

#[test]
fn square_and_round_depths_are_separate() {
    let mut l = Lexer::new("([[])]");
    assert_eq!(l.next_token().unwrap(), open('(', 0));
    assert_eq!(l.next_token().unwrap(), open('[', 0));
    assert_eq!(l.next_token().unwrap(), open('[', 1));
    assert_eq!(l.next_token().unwrap(), close(']', 1));
    assert_eq!(l.next_token().unwrap(), close(')', 0));
    assert_eq!(l.next_token().unwrap(), close(']', 0));
    assert_eq!(l.next_token().unwrap(), TokenType::EOF);
}

#[test]
fn lone_close_is_misbalanced() {
    let mut l = Lexer::new(")");
    assert!(matches!(
        l.next_token(),
        Err(LexerError::MisbalancedSymbol { symbol: ')', open: '(' })
    ));
    assert_eq!(l.next_token().unwrap(), TokenType::EOF);
}

#[test]
fn misbalanced_square_after_round() {
    let mut l = Lexer::new("(]");
    assert_eq!(l.next_token().unwrap(), open('(', 0));
    assert!(matches!(
        l.next_token(),
        Err(LexerError::MisbalancedSymbol { symbol: ']', open: '[' })
    ));
    assert_eq!(l.next_token().unwrap(), TokenType::EOF);
}

#[test]
fn floats_of_three_shapes() {
    let mut l = Lexer::new("2.2 2.2e92 .2");
    assert_eq!(l.next_token().unwrap(), num("2.2", NumericHint::FloatingPoint));
    assert_eq!(l.next_token().unwrap(), num("2.2e92", NumericHint::FloatingPoint));
    assert_eq!(l.next_token().unwrap(), num(".2", NumericHint::FloatingPoint));
    assert_eq!(l.next_token().unwrap(), TokenType::EOF);
}

#[test]
fn integer_literal() {
    let mut l = Lexer::new("123");
    assert_eq!(l.next_token().unwrap(), num("123", NumericHint::Integer));
    assert_eq!(l.next_token().unwrap(), TokenType::EOF);
}

#[test]
fn second_dot_starts_a_new_literal() {
    let mut l = Lexer::new("1.2.3");
    assert_eq!(l.next_token().unwrap(), num("1.2", NumericHint::FloatingPoint));
    assert_eq!(l.next_token().unwrap(), num(".3", NumericHint::FloatingPoint));
    assert_eq!(l.next_token().unwrap(), TokenType::EOF);
}

#[test]
fn exponent_without_digit_fails() {
    let mut l = Lexer::new("1e");
    match l.next_token() {
        Err(LexerError::NumericLiteralInvalidChar { raw }) => assert_eq!(raw, "1e"),
        other => panic!("{:?}", other),
    }
    assert_eq!(l.next_token().unwrap(), TokenType::EOF);
}

#[test]
fn signed_exponent() {
    let mut l = Lexer::new("1e+5 3E-2 7e1");
    assert_eq!(l.next_token().unwrap(), num("1e+5", NumericHint::FloatingPoint));
    assert_eq!(l.next_token().unwrap(), num("3E-2", NumericHint::FloatingPoint));
    assert_eq!(l.next_token().unwrap(), num("7e1", NumericHint::FloatingPoint));
}

#[test]
fn sign_without_digit_reads_the_offending_char() {
    let mut l = Lexer::new("1e+x)");
    match l.next_token() {
        Err(LexerError::NumericLiteralInvalidChar { raw }) => assert_eq!(raw, "1e+"),
        other => panic!("{:?}", other),
    }
    assert_eq!(l.codepoint_offset, 4);
    assert!(matches!(l.next_token(), Err(LexerError::MisbalancedSymbol { .. })));
}

#[test]
fn letter_inside_literal_fails_and_stays_unread() {
    let mut l = Lexer::new("12a");
    match l.next_token() {
        Err(LexerError::NumericLiteralInvalidChar { raw }) => assert_eq!(raw, "12a"),
        other => panic!("{:?}", other),
    }
    assert_eq!(l.codepoint_offset, 2);
    match l.next_token() {
        Err(LexerError::UnknownSymbol { symbol }) => assert_eq!(symbol, "a"),
        other => panic!("{:?}", other),
    }
}

#[test]
fn second_exponent_fails() {
    let mut l = Lexer::new("1e2e3");
    match l.next_token() {
        Err(LexerError::NumericLiteralInvalidChar { raw }) => assert_eq!(raw, "1e2e"),
        other => panic!("{:?}", other),
    }
}

#[test]
fn bare_dot_fails() {
    let mut l = Lexer::new(".");
    match l.next_token() {
        Err(LexerError::NumericLiteralInvalidChar { raw }) => assert_eq!(raw, "."),
        other => panic!("{:?}", other),
    }
    assert_eq!(l.next_token().unwrap(), TokenType::EOF);
}

#[test]
fn trailing_dot_is_a_float() {
    let mut l = Lexer::new("1.");
    assert_eq!(l.next_token().unwrap(), num("1.", NumericHint::FloatingPoint));
}

#[test]
fn unknown_symbol_then_eof() {
    let mut l = Lexer::new("@");
    match l.next_token() {
        Err(LexerError::UnknownSymbol { symbol }) => assert_eq!(symbol, "@"),
        other => panic!("{:?}", other),
    }
    assert_eq!(l.next_token().unwrap(), TokenType::EOF);
}

#[test]
fn curly_brace_is_unknown() {
    let mut l = Lexer::new("{");
    assert!(matches!(l.next_token(), Err(LexerError::UnknownSymbol { .. })));
}

#[test]
fn fresh_lexer_position() {
    let l = Lexer::new("abc");
    assert_eq!((l.cur_line, l.cur_col, l.codepoint_offset), (1, 1, 0));
}

#[test]
fn offset_counts_whitespace_and_tokens() {
    let mut l = Lexer::new("  ( 12 ");
    l.next_token().unwrap();
    assert_eq!(l.codepoint_offset, 3);
    l.next_token().unwrap();
    assert_eq!(l.codepoint_offset, 6);
    l.next_token().unwrap();
    assert_eq!(l.codepoint_offset, 7);
    assert_eq!(l.cur_col, 8);
}

#[test]
fn offset_is_monotone() {
    let mut l = Lexer::new("( 1.5e3 ]) x\n 42 . (");
    let mut last = 0;
    for _ in 0..12 {
        let _ = l.next_token();
        assert!(l.codepoint_offset >= last);
        last = l.codepoint_offset;
    }
    assert_eq!(last, "( 1.5e3 ]) x\n 42 . (".chars().count());
}

#[test]
fn line_counts_newlines() {
    let mut l = Lexer::new("(\n\n  1\n)");
    assert_eq!(l.next_token().unwrap(), open('(', 0));
    assert_eq!((l.cur_line, l.cur_col), (1, 2));
    assert_eq!(l.next_token().unwrap(), num("1", NumericHint::Integer));
    assert_eq!((l.cur_line, l.cur_col), (3, 4));
    assert_eq!(l.next_token().unwrap(), close(')', 0));
    assert_eq!((l.cur_line, l.cur_col), (4, 2));
}

#[test]
fn no_newline_stays_on_line_one() {
    let mut l = Lexer::new("( 1 2 ) \t 3");
    for _ in 0..6 {
        let _ = l.next_token();
        assert_eq!(l.cur_line, 1);
    }
}

#[test]
fn eof_repeats() {
    let mut l = Lexer::new(" 7 ");
    assert_eq!(l.next_token().unwrap(), num("7", NumericHint::Integer));
    for _ in 0..5 {
        assert_eq!(l.next_token().unwrap(), TokenType::EOF);
        assert_eq!(l.codepoint_offset, 3);
    }
}

#[test]
fn depth_matches_partner() {
    let toks = lex_all("(()(()))");
    let expected = vec![
        open('(', 0),
        open('(', 1),
        close(')', 1),
        open('(', 1),
        open('(', 2),
        close(')', 2),
        close(')', 1),
        close(')', 0),
        TokenType::EOF,
    ];
    assert_eq!(toks, expected.into_iter().map(Ok).collect::<Vec<_>>());
}

#[test]
fn depth_never_negative_after_errors() {
    let toks = lex_all("))(");
    assert!(toks[0].is_err());
    assert!(toks[1].is_err());
    assert_eq!(toks[2], Ok(open('(', 0)));
}

#[test]
fn numeric_lexeme_is_input_slice() {
    let input = "  3.25e-7 ";
    let mut l = Lexer::new(input);
    match l.next_token().unwrap() {
        TokenType::Numeric { raw, .. } => {
            let end = l.codepoint_offset;
            let consumed: String = input.chars().skip(end - raw.chars().count()).take(raw.chars().count()).collect();
            assert_eq!(raw, consumed);
            assert_eq!(raw, "3.25e-7");
        }
        other => panic!("{:?}", other),
    }
}

#[test]
fn hint_follows_marks() {
    for (s, h) in [
        ("0", NumericHint::Integer),
        ("907", NumericHint::Integer),
        ("9.", NumericHint::FloatingPoint),
        ("9E1", NumericHint::FloatingPoint),
        (".0", NumericHint::FloatingPoint),
    ] {
        assert_eq!(Lexer::new(s).next_token().unwrap(), num(s, h));
    }
}

#[test]
fn whitespace_between_tokens_is_transparent() {
    let plain = lex_all("(1.5[ 2e3)]");
    let spaced = lex_all(" \t( \u{3000}1.5\n\n[   2e3\u{2028})\u{a0}] ");
    assert_eq!(plain, spaced);
}

#[test]
fn whitespace_set_matches_std() {
    for u in 0u32..=0x10FFFF {
        if let Some(c) = char::from_u32(u) {
            let s = c.to_string();
            let first = Lexer::new(&s).next_token();
            let is_eof = matches!(first, Ok(TokenType::EOF));
            assert_eq!(is_eof, c.is_whitespace(), "{:?}", c);
        }
    }
}

#[test]
fn getters_show_counters() {
    let mut l = Lexer::new("(\n 5");
    assert_eq!((l.line(), l.col(), l.offset()), (1, 1, 0));
    l.next_token().unwrap();
    assert_eq!((l.line(), l.col(), l.offset()), (1, 2, 1));
    l.next_token().unwrap();
    assert_eq!((l.line(), l.col(), l.offset()), (2, 3, 4));
    assert_eq!((l.line(), l.col(), l.offset()), (l.cur_line, l.cur_col, l.codepoint_offset));
}

#[test]
fn io_error_converts_to_file_io() {
    let e = std::io::Error::new(std::io::ErrorKind::Other, "boom");
    let le: LexerError = e.into();
    match le {
        LexerError::FileIO(inner) => assert_eq!(inner.to_string(), "boom"),
        other => panic!("{:?}", other),
    }
}

#[test]
fn grammar_shapes() {
    assert_eq!(Lexer::new("12.").next_token().unwrap(), num("12.", NumericHint::FloatingPoint));
    assert_eq!(Lexer::new("12.5e-3+").next_token().unwrap(), num("12.5e-3", NumericHint::FloatingPoint));
    assert_eq!(Lexer::new("4+1").next_token().unwrap(), num("4", NumericHint::Integer));
    match Lexer::new("1.e").next_token() {
        Err(LexerError::NumericLiteralInvalidChar { raw }) => assert_eq!(raw, "1.e"),
        other => panic!("{:?}", other),
    }
    match Lexer::new(".x").next_token() {
        Err(LexerError::NumericLiteralInvalidChar { raw }) => assert_eq!(raw, "."),
        other => panic!("{:?}", other),
    }
}
