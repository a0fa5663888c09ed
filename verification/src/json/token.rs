//! The tokens of JSON text.
use vstd::prelude::*;
use crate::text::chars_of;

verus! {

/// The kinds of token.
#[allow(non_camel_case_types)]
#[derive(PartialEq, Eq, Debug, Clone, Copy, Structural)]
pub enum TokenType {
    LBRACE,
    RBRACE,
    LBRACKET,
    RBRACKET,
    COLON,
    COMMA,
    STRING,
    INT,
    TRUE,
    FALSE,
    NULL,
    ILLEGAL,
    EOF,
}

/// A token: its kind and the text it was read from.
#[derive(Debug, Clone)]
pub struct Token {
    pub token_type: TokenType,
    pub literal: String,
}

/// The kind of a word: one of the three keywords, or illegal.
pub open spec fn word_type(word: Seq<char>) -> TokenType {
    if word == seq!['t', 'r', 'u', 'e'] {
        TokenType::TRUE
    } else if word == seq!['f', 'a', 'l', 's', 'e'] {
        TokenType::FALSE
    } else if word == seq!['n', 'u', 'l', 'l'] {
        TokenType::NULL
    } else {
        TokenType::ILLEGAL
    }
}

/// The kind of the word that `word` holds.
pub fn classify_word(word: &[char]) -> (kind: TokenType)
    ensures
        kind == word_type(word@),
{
    if word.len() == 4 && word[0] == 't' && word[1] == 'r' && word[2] == 'u' && word[3] == 'e' {
        assert(word@ =~= seq!['t', 'r', 'u', 'e']);
        TokenType::TRUE
    } else if word.len() == 5 && word[0] == 'f' && word[1] == 'a' && word[2] == 'l' && word[3]
        == 's' && word[4] == 'e' {
        assert(word@ =~= seq!['f', 'a', 'l', 's', 'e']);
        TokenType::FALSE
    } else if word.len() == 4 && word[0] == 'n' && word[1] == 'u' && word[2] == 'l' && word[3]
        == 'l' {
        assert(word@ =~= seq!['n', 'u', 'l', 'l']);
        TokenType::NULL
    } else {
        TokenType::ILLEGAL
    }
}

impl Token {
    /// The token of the given kind and text.
    pub fn new(kind: TokenType, literal: String) -> (token: Token)
        ensures
            token.token_type == kind,
            token.literal == literal,
    {
        Token { token_type: kind, literal }
    }
}

impl From<&str> for Token {
    /// The token of a word: a keyword token for `true`, `false` and `null`,
    /// an illegal token for any other word.
    fn from(value: &str) -> (token: Token)
        ensures
            token.token_type == word_type(value@),
            token.literal@ == value@,
    {
        let word = chars_of(value);
        Token::new(classify_word(word.as_slice()), value.to_owned())
    }
}

impl vstd::std_specs::convert::FromSpecImpl<&str> for Token {
    open spec fn obeys_from_spec() -> bool {
        false
    }

    open spec fn from_spec(value: &str) -> Token {
        arbitrary()
    }
}

impl PartialEq for Token {
    fn eq(&self, other: &Self) -> (equal: bool) {
        self.token_type == other.token_type && self.literal == other.literal
    }
}

impl vstd::std_specs::cmp::PartialEqSpecImpl for Token {
    open spec fn obeys_eq_spec() -> bool {
        true
    }

    open spec fn eq_spec(&self, other: &Token) -> bool {
        self.token_type == other.token_type && self.literal@ == other.literal@
    }
}

} // verus!
