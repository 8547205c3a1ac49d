use calculator::{tokenize, Lexer, Token, TokenKind};

fn tok(kind: TokenKind, text: &str) -> Token {
    Token { kind, text: text.to_string() }
}

fn kinds(input: &str) -> Vec<TokenKind> {
    tokenize(input).into_iter().map(|t| t.kind).collect()
}

#[test]
fn eat_whitespaces() {
    let input = "        +        /";
    let mut lexer = Lexer::new(input);

    let expected = vec![tok(TokenKind::Plus, "+"), tok(TokenKind::Slash, "/")];

    for token in expected {
        assert_eq!(lexer.next_tok(), token);
    }
}

#[test]
fn next_tok() {
    let input = "+-*/ 12356";
    let mut lexer = Lexer::new(input);

    let expected = vec![
        tok(TokenKind::Plus, "+"),
        tok(TokenKind::Minus, "-"),
        tok(TokenKind::Asterisk, "*"),
        tok(TokenKind::Slash, "/"),
    ];

    for token in expected {
        assert_eq!(lexer.next_tok(), token);
    }
}

#[test]
fn padded_operators_leave_no_whitespace_tokens() {
    assert_eq!(
        tokenize("   +    /"),
        vec![tok(TokenKind::Plus, "+"), tok(TokenKind::Slash, "/"), tok(TokenKind::EndOfInput, "")]
    );
    assert_eq!(kinds(" \t\r\n\x0C* "), vec![TokenKind::Asterisk, TokenKind::EndOfInput]);
}

#[test]
fn four_operators_in_order() {
    assert_eq!(
        kinds("+-*/"),
        vec![
            TokenKind::Plus,
            TokenKind::Minus,
            TokenKind::Asterisk,
            TokenKind::Slash,
            TokenKind::EndOfInput
        ]
    );
}

#[test]
fn digit_string_is_one_integer() {
    assert_eq!(
        tokenize("12356"),
        vec![tok(TokenKind::Integer(12356), "12356"), tok(TokenKind::EndOfInput, "")]
    );
    assert_eq!(
        tokenize("9223372036854775807"),
        vec![
            tok(TokenKind::Integer(i64::MAX), "9223372036854775807"),
            tok(TokenKind::EndOfInput, "")
        ]
    );
}

#[test]
fn minus_before_digits_is_a_negative_literal() {
    assert_eq!(
        tokenize("-42"),
        vec![tok(TokenKind::Integer(-42), "-42"), tok(TokenKind::EndOfInput, "")]
    );
    assert_eq!(
        tokenize("-9223372036854775808"),
        vec![
            tok(TokenKind::Integer(i64::MIN), "-9223372036854775808"),
            tok(TokenKind::EndOfInput, "")
        ]
    );
    assert_eq!(
        tokenize("-2.5"),
        vec![tok(TokenKind::Decimal, "-2.5"), tok(TokenKind::EndOfInput, "")]
    );
}

#[test]
fn minus_before_space_is_an_operator() {
    assert_eq!(
        tokenize("- 4"),
        vec![
            tok(TokenKind::Minus, "-"),
            tok(TokenKind::Integer(4), "4"),
            tok(TokenKind::EndOfInput, "")
        ]
    );
    assert_eq!(
        tokenize("3-4"),
        vec![
            tok(TokenKind::Integer(3), "3"),
            tok(TokenKind::Integer(-4), "-4"),
            tok(TokenKind::EndOfInput, "")
        ]
    );
}

#[test]
fn decimal_literals_keep_their_text() {
    assert_eq!(
        tokenize("2.50 1."),
        vec![
            tok(TokenKind::Decimal, "2.50"),
            tok(TokenKind::Decimal, "1."),
            tok(TokenKind::EndOfInput, "")
        ]
    );
    assert_eq!(
        tokenize("1.2.3"),
        vec![
            tok(TokenKind::Decimal, "1.2"),
            tok(TokenKind::BadToken, "."),
            tok(TokenKind::Integer(3), "3"),
            tok(TokenKind::EndOfInput, "")
        ]
    );
}

#[test]
fn unknown_character_is_a_bad_token() {
    assert_eq!(
        tokenize("a+é"),
        vec![
            tok(TokenKind::BadToken, "a"),
            tok(TokenKind::Plus, "+"),
            tok(TokenKind::BadToken, "é"),
            tok(TokenKind::EndOfInput, "")
        ]
    );
}

#[test]
fn too_large_integer_is_a_bad_token() {
    assert_eq!(
        tokenize("9223372036854775808"),
        vec![tok(TokenKind::BadToken, "9223372036854775808"), tok(TokenKind::EndOfInput, "")]
    );
    assert_eq!(
        kinds("-9223372036854775809 99999999999999999999999"),
        vec![TokenKind::BadToken, TokenKind::BadToken, TokenKind::EndOfInput]
    );
}

#[test]
fn end_of_input_repeats() {
    let mut lexer = Lexer::new("7  ");
    assert_eq!(lexer.next_tok(), tok(TokenKind::Integer(7), "7"));
    for _ in 0..3 {
        assert_eq!(lexer.next_tok(), tok(TokenKind::EndOfInput, ""));
    }
    let mut empty = Lexer::new("");
    assert_eq!(empty.next_tok(), tok(TokenKind::EndOfInput, ""));
    assert_eq!(empty.next_tok(), tok(TokenKind::EndOfInput, ""));
}
