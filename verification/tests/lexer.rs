use texttools::json::lexer::{is_digit, is_letter, Lexer};
use texttools::json::token::{classify_word, Token, TokenType};
use texttools::text::is_whitespace;

#[test]
fn test_simple_object() {
    let input = String::from("{}");
    let mut l = Lexer::new(input);

    let expected_tokens = vec![
        Token::new(TokenType::LBRACE, String::from("{")),
        Token::new(TokenType::RBRACE, String::from("}")),
    ];

    for expected in expected_tokens {
        let token = l.next_token();
        assert_eq!(token, expected, "{:?} does not equal {:?}", token, expected);
    }
}

#[test]
fn test_single_key_value() {
    let input = String::from(r#"{"key": "value"}"#);
    let mut l = Lexer::new(input);

    let expected_tokens = vec![
        Token::new(TokenType::LBRACE, String::from("{")),
        Token::new(TokenType::STRING, String::from("key")),
        Token::new(TokenType::COLON, String::from(":")),
        Token::new(TokenType::STRING, String::from("value")),
        Token::new(TokenType::RBRACE, String::from("}")),
        Token::new(TokenType::EOF, String::from("\0")),
    ];

    for expected in expected_tokens {
        let token = l.next_token();
        assert_eq!(token, expected, "got {:?}, expected {:?}", token, expected);
    }
}

#[test]
fn test_multiple_key_value() {
    let input = String::from(
        r#"{
  "key": "value",
  "key2": "value2"
}"#,
    );
    let mut l = Lexer::new(input);

    let expected_tokens = vec![
        Token::new(TokenType::LBRACE, String::from("{")),
        Token::new(TokenType::STRING, String::from("key")),
        Token::new(TokenType::COLON, String::from(":")),
        Token::new(TokenType::STRING, String::from("value")),
        Token::new(TokenType::COMMA, String::from(",")),
        Token::new(TokenType::STRING, String::from("key2")),
        Token::new(TokenType::COLON, String::from(":")),
        Token::new(TokenType::STRING, String::from("value2")),
        Token::new(TokenType::RBRACE, String::from("}")),
        Token::new(TokenType::EOF, String::from("\0")),
    ];

    for expected in expected_tokens {
        let token = l.next_token();
        assert_eq!(token, expected, "got {:?}, expected {:?}", token, expected);
    }
}

#[test]
fn test_special_keywords() {
    let input = String::from(
        r#"{
  "key1": true,
  "key2": false,
  "key3": null,
  "key4": "some value",
  "key5": 101
}"#,
    );
    let mut l = Lexer::new(input);

    let expected_tokens = vec![
        Token::new(TokenType::LBRACE, String::from("{")),
        // true
        Token::new(TokenType::STRING, String::from("key1")),
        Token::new(TokenType::COLON, String::from(":")),
        Token::new(TokenType::TRUE, String::from("true")),
        Token::new(TokenType::COMMA, String::from(",")),
        // false
        Token::new(TokenType::STRING, String::from("key2")),
        Token::new(TokenType::COLON, String::from(":")),
        Token::new(TokenType::FALSE, String::from("false")),
        Token::new(TokenType::COMMA, String::from(",")),
        // null
        Token::new(TokenType::STRING, String::from("key3")),
        Token::new(TokenType::COLON, String::from(":")),
        Token::new(TokenType::NULL, String::from("null")),
        Token::new(TokenType::COMMA, String::from(",")),
        // string
        Token::new(TokenType::STRING, String::from("key4")),
        Token::new(TokenType::COLON, String::from(":")),
        Token::new(TokenType::STRING, String::from("some value")),
        Token::new(TokenType::COMMA, String::from(",")),
        // int
        Token::new(TokenType::STRING, String::from("key5")),
        Token::new(TokenType::COLON, String::from(":")),
        Token::new(TokenType::INT, String::from("101")),
        Token::new(TokenType::RBRACE, String::from("}")),
        Token::new(TokenType::EOF, String::from("\0")),
    ];

    for expected in expected_tokens {
        let token = l.next_token();
        assert_eq!(token, expected, "got {:?}, expected {:?}", token, expected);
    }
}

#[test]
fn test_illegal_idents() {
    let input = String::from(
        r#"{
  "key1": ttrue,
  "key2": falsy,
}"#,
    );
    let mut l = Lexer::new(input);

    let expected_tokens = vec![
        Token::new(TokenType::LBRACE, String::from("{")),
        // true
        Token::new(TokenType::STRING, String::from("key1")),
        Token::new(TokenType::COLON, String::from(":")),
        Token::new(TokenType::ILLEGAL, String::from("ttrue")),
        Token::new(TokenType::COMMA, String::from(",")),
        // false
        Token::new(TokenType::STRING, String::from("key2")),
        Token::new(TokenType::COLON, String::from(":")),
        Token::new(TokenType::ILLEGAL, String::from("falsy")),
        Token::new(TokenType::COMMA, String::from(",")),
    ];

    for expected in expected_tokens {
        let token = l.next_token();
        assert_eq!(token, expected, "got {:?}, expected {:?}", token, expected);
    }
}

fn tokens_of(input: &str, count: usize) -> Vec<(TokenType, String)> {
    let mut l = Lexer::new(String::from(input));
    let mut tokens = Vec::new();
    for _ in 0..count {
        let token = l.next_token();
        tokens.push((token.token_type, token.literal));
    }
    tokens
}

#[test]
fn end_of_input_repeats() {
    assert_eq!(
        tokens_of("", 3),
        vec![
            (TokenType::EOF, String::from("\0")),
            (TokenType::EOF, String::from("\0")),
            (TokenType::EOF, String::from("\0")),
        ]
    );
}

#[test]
fn brackets_are_tokens() {
    assert_eq!(
        tokens_of("[ ]", 3),
        vec![
            (TokenType::LBRACKET, String::from("[")),
            (TokenType::RBRACKET, String::from("]")),
            (TokenType::EOF, String::from("\0")),
        ]
    );
}

#[test]
fn nul_inside_the_text_is_an_end_token_and_is_passed() {
    assert_eq!(
        tokens_of("{\0}", 4),
        vec![
            (TokenType::LBRACE, String::from("{")),
            (TokenType::EOF, String::from("\0")),
            (TokenType::RBRACE, String::from("}")),
            (TokenType::EOF, String::from("\0")),
        ]
    );
}

#[test]
fn character_that_starts_no_token_is_not_consumed() {
    assert_eq!(
        tokens_of("-1", 3),
        vec![
            (TokenType::ILLEGAL, String::from("-")),
            (TokenType::ILLEGAL, String::from("-")),
            (TokenType::ILLEGAL, String::from("-")),
        ]
    );
}

#[test]
fn number_may_hold_points() {
    assert_eq!(
        tokens_of("3.14 .5 1.2.3", 4),
        vec![
            (TokenType::INT, String::from("3.14")),
            (TokenType::INT, String::from(".5")),
            (TokenType::INT, String::from("1.2.3")),
            (TokenType::EOF, String::from("\0")),
        ]
    );
}

#[test]
fn word_may_hold_digits_and_underscores() {
    assert_eq!(
        tokens_of("true1 _x null", 4),
        vec![
            (TokenType::ILLEGAL, String::from("true1")),
            (TokenType::ILLEGAL, String::from("_x")),
            (TokenType::NULL, String::from("null")),
            (TokenType::EOF, String::from("\0")),
        ]
    );
}

#[test]
fn empty_string_is_a_string_token() {
    assert_eq!(
        tokens_of("\"\"x", 2),
        vec![
            (TokenType::STRING, String::new()),
            (TokenType::ILLEGAL, String::from("x")),
        ]
    );
}

#[test]
fn string_without_closing_quote_is_illegal() {
    assert_eq!(
        tokens_of("\"abc", 3),
        vec![
            (TokenType::ILLEGAL, String::from("abc")),
            (TokenType::EOF, String::from("\0")),
            (TokenType::EOF, String::from("\0")),
        ]
    );
}

#[test]
fn string_may_hold_any_character_but_a_quote() {
    assert_eq!(
        tokens_of("\"a\u{e9}\n{\\\" :", 2),
        vec![
            (TokenType::STRING, String::from("a\u{e9}\n{\\")),
            (TokenType::COLON, String::from(":")),
        ]
    );
}

#[test]
fn unicode_white_space_is_skipped() {
    assert_eq!(
        tokens_of("\u{a0}\t\r\n\u{2003}\u{3000}\u{b},", 2),
        vec![
            (TokenType::COMMA, String::from(",")),
            (TokenType::EOF, String::from("\0")),
        ]
    );
}

#[test]
fn white_space_agrees_with_std() {
    for code in 0u32..0x11_0000 {
        if let Some(c) = char::from_u32(code) {
            assert_eq!(is_whitespace(c), c.is_whitespace(), "U+{:04X}", code);
        }
    }
}

#[test]
fn letters_and_digits() {
    for c in ['a', 'z', 'A', 'Z', '_', 'm'] {
        assert!(is_letter(c));
        assert!(!is_digit(c));
    }
    for c in ['0', '9', '.', '5'] {
        assert!(is_digit(c));
        assert!(!is_letter(c));
    }
    for c in ['-', ' ', '{', '\0', '\u{e9}', '@', '[', '`', '/', ':'] {
        assert!(!is_letter(c));
        assert!(!is_digit(c));
    }
}

#[test]
fn classify_word_knows_three_keywords() {
    assert_eq!(classify_word(&['t', 'r', 'u', 'e']), TokenType::TRUE);
    assert_eq!(classify_word(&['f', 'a', 'l', 's', 'e']), TokenType::FALSE);
    assert_eq!(classify_word(&['n', 'u', 'l', 'l']), TokenType::NULL);
    assert_eq!(classify_word(&['T', 'r', 'u', 'e']), TokenType::ILLEGAL);
    assert_eq!(classify_word(&[]), TokenType::ILLEGAL);
}

#[test]
fn token_from_word() {
    assert_eq!(Token::from("true"), Token::new(TokenType::TRUE, String::from("true")));
    assert_eq!(Token::from("false"), Token::new(TokenType::FALSE, String::from("false")));
    assert_eq!(Token::from("null"), Token::new(TokenType::NULL, String::from("null")));
    assert_eq!(Token::from("nil"), Token::new(TokenType::ILLEGAL, String::from("nil")));
}

#[test]
fn tokens_differ_by_kind_or_literal() {
    let a = Token::new(TokenType::STRING, String::from("x"));
    assert_ne!(a, Token::new(TokenType::STRING, String::from("y")));
    assert_ne!(a, Token::new(TokenType::ILLEGAL, String::from("x")));
    assert_eq!(a, a.clone());
}
