use compiler::tokenizer::{is_whitespace_char, tokenize, try_tokenize, Token, TokenizeError};

#[test]
fn test_tokenize() {
    let tokens = tokenize("1 \n * 2 +    3");
    assert_eq!(
        tokens,
        vec![
            Token::Num(1),
            Token::Asterisk,
            Token::Num(2),
            Token::Plus,
            Token::Num(3)
        ]
    );
}

#[test]
fn test_paren() {
    let tokens = tokenize("(1 + 2) * 3");
    assert_eq!(
        tokens,
        vec![
            Token::LParen,
            Token::Num(1),
            Token::Plus,
            Token::Num(2),
            Token::RParen,
            Token::Asterisk,
            Token::Num(3)
        ]
    );
}

#[test]
fn test_eq() {
    let tokens = tokenize("1 == 1");
    assert_eq!(tokens, vec![Token::Num(1), Token::Eq, Token::Num(1),]);

    let tokens = tokenize("2 != 1");
    assert_eq!(tokens, vec![Token::Num(2), Token::NotEq, Token::Num(1),]);
}

#[test]
fn test_relational() {
    let tokens = tokenize("2 > 1");
    assert_eq!(tokens, vec![Token::Num(2), Token::GreaterThan, Token::Num(1),]);

    let tokens = tokenize("1 < 2");
    assert_eq!(tokens, vec![Token::Num(1), Token::LessThan, Token::Num(2),]);

    let tokens = tokenize("2 >= 1");
    assert_eq!(tokens, vec![Token::Num(2), Token::GreaterThanOrEq, Token::Num(1),]);

    let tokens = tokenize("1 <= 2");
    assert_eq!(tokens, vec![Token::Num(1), Token::LessThanOrEq, Token::Num(2),]);
}

#[test]
fn tokenize_empty_and_blank() {
    assert_eq!(tokenize(""), vec![]);
    assert_eq!(tokenize(" \t\r\n"), vec![]);
}

#[test]
fn tokenize_all_single_char_tokens() {
    assert_eq!(
        tokenize("+-*/()"),
        vec![
            Token::Plus,
            Token::Minus,
            Token::Asterisk,
            Token::Slash,
            Token::LParen,
            Token::RParen
        ]
    );
}

#[test]
fn tokenize_adjacent_operators_without_spaces() {
    assert_eq!(
        tokenize("1<=2>3<4>=5==6!=7"),
        vec![
            Token::Num(1),
            Token::LessThanOrEq,
            Token::Num(2),
            Token::GreaterThan,
            Token::Num(3),
            Token::LessThan,
            Token::Num(4),
            Token::GreaterThanOrEq,
            Token::Num(5),
            Token::Eq,
            Token::Num(6),
            Token::NotEq,
            Token::Num(7)
        ]
    );
}

#[test]
fn tokenize_multi_digit_numbers_and_leading_zeros() {
    assert_eq!(tokenize("0042 10"), vec![Token::Num(42), Token::Num(10)]);
}

#[test]
fn tokenize_largest_number() {
    let text = format!("{}", usize::MAX);
    assert_eq!(tokenize(&text), vec![Token::Num(usize::MAX)]);
}

#[test]
fn tokenize_number_overflow() {
    let text = format!("{}0", usize::MAX);
    assert_eq!(try_tokenize(&text), Err(TokenizeError::NumberOverflow));
    assert_eq!(
        try_tokenize("1 + 99999999999999999999999999"),
        Err(TokenizeError::NumberOverflow)
    );
}

#[test]
fn tokenize_unexpected_char() {
    assert_eq!(try_tokenize("1 + a"), Err(TokenizeError::UnexpectedChar('a')));
    assert_eq!(try_tokenize("1;"), Err(TokenizeError::UnexpectedChar(';')));
    assert_eq!(try_tokenize("é"), Err(TokenizeError::UnexpectedChar('é')));
}

#[test]
fn tokenize_lone_equals_and_bang_are_unimplemented() {
    assert_eq!(try_tokenize("1 = 2"), Err(TokenizeError::Unimplemented));
    assert_eq!(try_tokenize("!1"), Err(TokenizeError::Unimplemented));
    assert_eq!(try_tokenize("="), Err(TokenizeError::Unimplemented));
    assert_eq!(try_tokenize("1 ! = 2"), Err(TokenizeError::Unimplemented));
}

#[test]
fn tokenize_first_error_wins() {
    assert_eq!(try_tokenize("x = 1"), Err(TokenizeError::UnexpectedChar('x')));
    assert_eq!(try_tokenize("= x"), Err(TokenizeError::Unimplemented));
}

#[test]
fn tokenize_unicode_whitespace_is_skipped() {
    assert_eq!(
        tokenize("1\u{3000}+\u{a0}2\u{2028}"),
        vec![Token::Num(1), Token::Plus, Token::Num(2)]
    );
}

#[test]
fn whitespace_agrees_with_std() {
    for u in 0u32..=0x10FFFF {
        if let Some(c) = char::from_u32(u) {
            assert_eq!(is_whitespace_char(c), c.is_whitespace(), "char {:?}", c);
        }
    }
}

#[test]
fn whitespace_separates_tokens() {
    // Inserting white space after a complete token sequence only separates tokens.
    assert_eq!(tokenize("12"), vec![Token::Num(12)]);
    assert_eq!(tokenize("1 2"), vec![Token::Num(1), Token::Num(2)]);
    assert_eq!(tokenize("<="), vec![Token::LessThanOrEq]);
    assert_eq!(try_tokenize("< ="), Err(TokenizeError::Unimplemented));
    assert_eq!(tokenize("< 3"), vec![Token::LessThan, Token::Num(3)]);
}

#[test]
fn tokens_are_never_names_assignments_or_semicolons() {
    let tokens = tokenize("(1 + 23) * 4 - 5 / 6 == 7 != 8 < 9 <= 10 > 11 >= 12");
    assert_eq!(tokens.len(), 23);
    for t in &tokens {
        assert!(!matches!(t, Token::Ident(_) | Token::Assign | Token::Semicolon));
    }
}
