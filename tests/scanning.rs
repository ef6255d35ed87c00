use jslexer::{tokenize, Decimal, Kind, LexError, Lexer, Token};

fn tok(kind: Kind, start: usize, end: usize) -> Token {
    Token { kind, start, end }
}

fn num(mantissa: u64, exponent: i32) -> Kind {
    Kind::Number(Decimal { mantissa, exponent })
}

fn value(d: Decimal) -> f64 {
    d.mantissa as f64 * 10f64.powi(d.exponent)
}

fn first(source: &str) -> Result<Token, LexError> {
    Lexer::new(source).next_token()
}

#[test]
fn empty_input_is_eof() {
    assert_eq!(tokenize(""), Ok(vec![tok(Kind::Eof, 0, 0)]));
}

#[test]
fn eof_repeats_with_the_same_span() {
    let mut lexer = Lexer::new("x ");
    assert_eq!(lexer.next_token(), Ok(tok(Kind::Identifier("x".to_string()), 0, 1)));
    for _ in 0..4 {
        assert_eq!(lexer.next_token(), Ok(tok(Kind::Eof, 2, 2)));
    }
}

#[test]
fn double_equals_is_one_token() {
    assert_eq!(tokenize("=="), Ok(vec![tok(Kind::EqualsEquals, 0, 2), tok(Kind::Eof, 2, 2)]));
}

#[test]
fn longest_operator_wins() {
    assert_eq!(
        tokenize("=== = ===="),
        Ok(vec![
            tok(Kind::StrictEquals, 0, 3),
            tok(Kind::Equals, 4, 5),
            tok(Kind::StrictEquals, 6, 9),
            tok(Kind::Equals, 9, 10),
            tok(Kind::Eof, 10, 10),
        ])
    );
}

#[test]
fn keyword_needs_exact_spelling() {
    assert_eq!(first("let"), Ok(tok(Kind::Let, 0, 3)));
    assert_eq!(first("letx"), Ok(tok(Kind::Identifier("letx".to_string()), 0, 4)));
    assert_eq!(first("const"), Ok(tok(Kind::Const, 0, 5)));
    assert_eq!(first("constant"), Ok(tok(Kind::Identifier("constant".to_string()), 0, 8)));
    assert_eq!(first("Let"), Ok(tok(Kind::Identifier("Let".to_string()), 0, 3)));
    assert_eq!(first("_a$1"), Ok(tok(Kind::Identifier("_a$1".to_string()), 0, 4)));
}

#[test]
fn numbers_decode() {
    assert_eq!(first("1.5"), Ok(tok(num(15, -1), 0, 3)));
    assert_eq!(first("42"), Ok(tok(num(42, 0), 0, 2)));
    assert_eq!(first("2.5e3"), Ok(tok(num(25, 2), 0, 5)));
    assert_eq!(first("1e-2"), Ok(tok(num(1, -2), 0, 4)));
    assert_eq!(first("7E+1"), Ok(tok(num(7, 1), 0, 4)));
    match first("1.5") {
        Ok(Token { kind: Kind::Number(d), .. }) => assert_eq!(value(d), 1.5),
        other => panic!("unexpected {:?}", other),
    }
    match first("42") {
        Ok(Token { kind: Kind::Number(d), .. }) => assert_eq!(value(d), 42.0),
        other => panic!("unexpected {:?}", other),
    }
}

#[test]
fn numbers_are_normalized() {
    assert_eq!(first("1.50"), Ok(tok(num(15, -1), 0, 4)));
    assert_eq!(first("1.50").unwrap().kind, first("1.5").unwrap().kind);
    assert_eq!(first("0.100000000000000000000"), Ok(tok(num(1, -1), 0, 23)));
    assert_eq!(first("100"), Ok(tok(num(1, 2), 0, 3)));
    assert_eq!(first("1000000000000000000000000000000"), Ok(tok(num(1, 30), 0, 31)));
    assert_eq!(first("120.0e-1"), Ok(tok(num(12, 0), 0, 8)));
    assert_eq!(first("0.0"), Ok(tok(num(0, 0), 0, 3)));
    assert_eq!(first("000"), Ok(tok(num(0, 0), 0, 3)));
    assert_eq!(first("0e99999999999"), Ok(tok(num(0, 0), 0, 13)));
    assert_eq!(first("007.25"), Ok(tok(num(725, -2), 0, 6)));
}

#[test]
fn malformed_numbers() {
    assert_eq!(first("1."), Err(LexError::MalformedNumber { start: 0, end: 2 }));
    assert_eq!(first("1.x;"), Err(LexError::MalformedNumber { start: 0, end: 3 }));
    assert_eq!(first("1e"), Err(LexError::MalformedNumber { start: 0, end: 2 }));
    assert_eq!(first("1e+;"), Err(LexError::MalformedNumber { start: 0, end: 3 }));
    assert_eq!(first(" 12ab+"), Err(LexError::MalformedNumber { start: 1, end: 5 }));
    assert_eq!(
        first("99999999999999999999"),
        Err(LexError::MalformedNumber { start: 0, end: 20 })
    );
    assert_eq!(first("1e99999999999"), Err(LexError::MalformedNumber { start: 0, end: 13 }));
    assert_eq!(first("18446744073709551615"), Ok(tok(num(u64::MAX, 0), 0, 20)));
}

#[test]
fn leading_dot_is_unrecognized() {
    assert_eq!(first(".5"), Err(LexError::UnrecognizedCharacter { start: 0, end: 1 }));
}

#[test]
fn number_then_dot() {
    let mut lexer = Lexer::new("1.5.2");
    assert_eq!(lexer.next_token(), Ok(tok(num(15, -1), 0, 3)));
    assert_eq!(lexer.next_token(), Err(LexError::UnrecognizedCharacter { start: 3, end: 4 }));
}

#[test]
fn end_to_end_statement() {
    assert_eq!(
        tokenize("let x = 1 + 2;"),
        Ok(vec![
            tok(Kind::Let, 0, 3),
            tok(Kind::Identifier("x".to_string()), 4, 5),
            tok(Kind::Equals, 6, 7),
            tok(num(1, 0), 8, 9),
            tok(Kind::Plus, 10, 11),
            tok(num(2, 0), 12, 13),
            tok(Kind::Semicolon, 13, 14),
            tok(Kind::Eof, 14, 14),
        ])
    );
}

#[test]
fn whitespace_around_keyword() {
    assert_eq!(tokenize("  let  "), Ok(vec![tok(Kind::Let, 2, 5), tok(Kind::Eof, 7, 7)]));
}

#[test]
fn comments_are_skipped() {
    assert_eq!(
        tokenize("// note\nlet/* a */x\t/**/;// end"),
        Ok(vec![
            tok(Kind::Let, 8, 11),
            tok(Kind::Identifier("x".to_string()), 18, 19),
            tok(Kind::Semicolon, 24, 25),
            tok(Kind::Eof, 31, 31),
        ])
    );
}

#[test]
fn spans_cover_significant_text() {
    let source = "let a = 10; // set a\n/* then */ const b=a+2.5e1 ;";
    let tokens = tokenize(source).unwrap();
    let (eof, rest) = tokens.split_last().unwrap();
    assert_eq!(eof.kind, Kind::Eof);
    let joined: String = rest.iter().map(|t| &source[t.start..t.end]).collect();
    assert_eq!(joined, "leta=10;constb=a+2.5e1;");
}

#[test]
fn unterminated_comment() {
    assert_eq!(first("x").map(|t| t.end), Ok(1));
    assert_eq!(first("  /* open"), Err(LexError::UnterminatedComment { start: 2, end: 9 }));
    assert_eq!(tokenize("a /* b */ /*"), Err(LexError::UnterminatedComment { start: 10, end: 12 }));
}

#[test]
fn unrecognized_characters() {
    assert_eq!(first("#"), Err(LexError::UnrecognizedCharacter { start: 0, end: 1 }));
    assert_eq!(first("/"), Err(LexError::UnrecognizedCharacter { start: 0, end: 1 }));
    assert_eq!(first(" €"), Err(LexError::UnrecognizedCharacter { start: 1, end: 4 }));
}

#[test]
fn unicode_identifiers() {
    assert_eq!(first("é"), Ok(tok(Kind::Identifier("é".to_string()), 0, 2)));
    assert_eq!(first(" café;"), Ok(tok(Kind::Identifier("café".to_string()), 1, 6)));
    assert_eq!(first("x٣y"), Ok(tok(Kind::Identifier("x٣y".to_string()), 0, 4)));
    assert_eq!(first("_é2 "), Ok(tok(Kind::Identifier("_é2".to_string()), 0, 4)));
}

#[test]
fn unicode_whitespace_is_skipped() {
    assert_eq!(
        tokenize("\u{00A0}let\u{2028}x\u{3000}"),
        Ok(vec![
            tok(Kind::Let, 2, 5),
            tok(Kind::Identifier("x".to_string()), 8, 9),
            tok(Kind::Eof, 12, 12),
        ])
    );
}

#[test]
fn number_followed_by_unicode_letter_is_malformed() {
    assert_eq!(first("12é+"), Err(LexError::MalformedNumber { start: 0, end: 4 }));
}

#[test]
fn error_leaves_cursor_and_skip_char_resumes() {
    let mut lexer = Lexer::new("a # b");
    assert_eq!(lexer.next_token(), Ok(tok(Kind::Identifier("a".to_string()), 0, 1)));
    let err = Err(LexError::UnrecognizedCharacter { start: 2, end: 3 });
    assert_eq!(lexer.next_token(), err);
    assert_eq!(lexer.next_token(), err);
    lexer.skip_char();
    assert_eq!(lexer.next_token(), Ok(tok(Kind::Identifier("b".to_string()), 4, 5)));
    assert_eq!(lexer.next_token(), Ok(tok(Kind::Eof, 5, 5)));
    lexer.skip_char();
    assert_eq!(lexer.next_token(), Ok(tok(Kind::Eof, 5, 5)));
}

#[test]
fn skip_char_passes_a_whole_character() {
    let mut lexer = Lexer::new("€x");
    assert_eq!(lexer.next_token(), Err(LexError::UnrecognizedCharacter { start: 0, end: 3 }));
    lexer.skip_char();
    assert_eq!(lexer.next_token(), Ok(tok(Kind::Identifier("x".to_string()), 3, 4)));
}

#[test]
fn error_start_accessor() {
    assert_eq!(LexError::MalformedNumber { start: 4, end: 6 }.start(), 4);
    assert_eq!(LexError::UnterminatedComment { start: 1, end: 9 }.start(), 1);
}
