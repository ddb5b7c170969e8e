use regex_engine::regex_lexer::LexError;
use regex_engine::regex_lexer::RegexLexer;
use regex_engine::regex_lexer::RegexToken;

/// Read every token up to (not including) `Eof`.
fn tokens_of(pat: &str) -> Vec<RegexToken> {
    let mut lexer = RegexLexer::new(pat);
    let mut tokens = Vec::new();
    loop {
        let token = lexer.next_token().expect("unexpected lexical error");
        if let RegexToken::Eof = token {
            break;
        }
        tokens.push(token);
    }
    tokens
}

fn lex_error_of(pat: &str) -> LexError {
    let mut lexer = RegexLexer::new(pat);
    loop {
        match lexer.next_token() {
            Ok(RegexToken::Eof) => panic!("expected a lexical error"),
            Ok(_) => {}
            Err(e) => return e,
        }
    }
}

#[test]
fn lex_literals_and_question() {
    assert_eq!(
        tokens_of("ab?"),
        vec![
            RegexToken::Literal('a'),
            RegexToken::Literal('b'),
            RegexToken::Quantifier { min: 0, max: Some(1) },
        ]
    );
}

#[test]
fn lex_group_brace_backref() {
    assert_eq!(
        tokens_of("(a|bc){1,3}\\12"),
        vec![
            RegexToken::LParen,
            RegexToken::Literal('a'),
            RegexToken::Pipe,
            RegexToken::Literal('b'),
            RegexToken::Literal('c'),
            RegexToken::RParen,
            RegexToken::Quantifier { min: 1, max: Some(3) },
            RegexToken::BackRef(12),
        ]
    );
}

#[test]
fn lex_star_and_digit_class() {
    assert_eq!(
        tokens_of("a*\\d+"),
        vec![
            RegexToken::Literal('a'),
            RegexToken::Quantifier { min: 0, max: None },
            RegexToken::Digit,
            RegexToken::Quantifier { min: 1, max: None },
        ]
    );
}

#[test]
fn lex_word_class() {
    assert_eq!(
        tokens_of("a*\\wb"),
        vec![
            RegexToken::Literal('a'),
            RegexToken::Quantifier { min: 0, max: None },
            RegexToken::AlphaNum,
            RegexToken::Literal('b'),
        ]
    );
}

#[test]
fn lex_brace_exact() {
    assert_eq!(
        tokens_of("a{1}b"),
        vec![
            RegexToken::Literal('a'),
            RegexToken::Quantifier { min: 1, max: Some(1) },
            RegexToken::Literal('b'),
        ]
    );
}

#[test]
fn lex_brace_unbounded() {
    assert_eq!(
        tokens_of("a{1,}b"),
        vec![
            RegexToken::Literal('a'),
            RegexToken::Quantifier { min: 1, max: None },
            RegexToken::Literal('b'),
        ]
    );
}

#[test]
fn lex_bracket_class() {
    assert_eq!(
        tokens_of("a[bwz]b"),
        vec![
            RegexToken::Literal('a'),
            RegexToken::LBracket,
            RegexToken::Literal('b'),
            RegexToken::Literal('w'),
            RegexToken::Literal('z'),
            RegexToken::RBracket,
            RegexToken::Literal('b'),
        ]
    );
}

#[test]
fn lex_anchors_and_wildcard() {
    assert_eq!(
        tokens_of("^a.b$"),
        vec![
            RegexToken::StartAnchor,
            RegexToken::Literal('a'),
            RegexToken::Wildcard,
            RegexToken::Literal('b'),
            RegexToken::EndAnchor,
        ]
    );
}

#[test]
fn lex_escaped_brace_is_literal() {
    assert_eq!(
        tokens_of(r#"a\{"#),
        vec![RegexToken::Literal('a'), RegexToken::Literal('{')]
    );
}

#[test]
fn lex_eof_is_permanent() {
    let mut lexer = RegexLexer::new("a");
    assert_eq!(lexer.next_token(), Ok(RegexToken::Literal('a')));
    assert_eq!(lexer.next_token(), Ok(RegexToken::Eof));
    assert_eq!(lexer.next_token(), Ok(RegexToken::Eof));
    assert_eq!(lexer.next_token(), Ok(RegexToken::Eof));
}

#[test]
fn lex_brace_missing_digit() {
    assert_eq!(lex_error_of("a{"), LexError::ExpectedDigit { pos: 2 });
    assert_eq!(lex_error_of("a{x}"), LexError::ExpectedDigit { pos: 2 });
    assert_eq!(lex_error_of("a{2,x}"), LexError::ExpectedDigit { pos: 4 });
}

#[test]
fn lex_brace_unclosed() {
    assert_eq!(lex_error_of("a{2"), LexError::MalformedBrace { pos: 3 });
    assert_eq!(lex_error_of("a{2,3"), LexError::MalformedBrace { pos: 5 });
    assert_eq!(lex_error_of("a{2x}"), LexError::MalformedBrace { pos: 3 });
}

#[test]
fn lex_brace_number_too_large() {
    assert_eq!(
        lex_error_of("a{99999999999999999999}"),
        LexError::NumberTooLarge { pos: 2 }
    );
}

#[test]
fn lex_unsupported_escape() {
    assert_eq!(lex_error_of("a\\q"), LexError::UnsupportedEscape { pos: 2 });
    assert_eq!(lex_error_of("a\\"), LexError::UnsupportedEscape { pos: 2 });
}

#[test]
fn lex_read_number_run() {
    let mut lexer = RegexLexer::new("127x");
    assert_eq!(lexer.read_number(), Ok(127));
}

#[test]
fn lex_read_number_requires_digit() {
    let mut lexer = RegexLexer::new("x1");
    assert_eq!(lexer.read_number(), Err(LexError::ExpectedDigit { pos: 0 }));
}

#[test]
fn lex_peek_and_read_char() {
    let lexer = RegexLexer::new("ab");
    assert_eq!(lexer.peek_char(), Some('b'));
    let mut lexer = RegexLexer::new("ab");
    lexer.read_char();
    assert_eq!(lexer.peek_char(), None);
}

#[test]
fn lex_brace_quantifier_direct() {
    let mut lexer = RegexLexer::new("{2,5}");
    assert_eq!(
        lexer.read_brace_quantifier(),
        Ok(RegexToken::Quantifier { min: 2, max: Some(5) })
    );
}
