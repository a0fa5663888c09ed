//! Splitting JSON text into tokens.
//!
//! The lexer reads characters, not bytes. What is left to read is a suffix
//! of the input; each token is determined by that suffix alone.
use vstd::prelude::*;
use vstd::slice::slice_subrange;
use crate::json::token::{classify_word, word_type, Token, TokenType};
use crate::text::{chars_of, is_space, is_whitespace, string_of};

verus! {

/// Whether `c` can stand in a word: an ASCII letter or an underscore.
pub open spec fn is_letter_char(c: char) -> bool {
    ('A' <= c <= 'Z') || ('a' <= c <= 'z') || c == '_'
}

/// Whether `c` can stand in a number: an ASCII digit or a point.
pub open spec fn is_digit_char(c: char) -> bool {
    ('0' <= c <= '9') || c == '.'
}

/// The classes of character that a run can be made of.
pub enum CharClass {
    /// White space.
    Space,
    /// Digits and points.
    Digit,
    /// Letters, underscores, digits and points.
    Word,
    /// Anything but a double quote.
    Unquoted,
}

/// Whether `c` belongs to `class`.
pub open spec fn in_class(class: CharClass, c: char) -> bool {
    match class {
        CharClass::Space => is_space(c),
        CharClass::Digit => is_digit_char(c),
        CharClass::Word => is_letter_char(c) || is_digit_char(c),
        CharClass::Unquoted => c != '"',
    }
}

/// The length of the longest prefix of `s` made of characters of `class`.
pub open spec fn run_len(class: CharClass, s: Seq<char>) -> nat
    decreases s.len(),
{
    if s.len() > 0 && in_class(class, s[0]) {
        1 + run_len(class, s.drop_first())
    } else {
        0
    }
}

/// What the lexer makes of the text `s` that is left to read: the kind of
/// the next token, its literal, and the text that is left after it.
///
/// White space before the token is skipped. At the end of the text the
/// token is `EOF`, and nothing is consumed; a NUL character in the text is
/// an `EOF` token too, and is consumed. A character that can start no
/// token gives an `ILLEGAL` token and is not consumed. A string runs from a
/// double quote to the next one; without a closing quote the rest of the
/// text is an `ILLEGAL` token.
pub open spec fn lex(s: Seq<char>) -> (TokenType, Seq<char>, Seq<char>) {
    let t = s.skip(run_len(CharClass::Space, s) as int);
    if t.len() == 0 {
        (TokenType::EOF, seq!['\0'], t)
    } else {
        let c = t[0];
        if c == '{' {
            (TokenType::LBRACE, seq![c], t.drop_first())
        } else if c == '}' {
            (TokenType::RBRACE, seq![c], t.drop_first())
        } else if c == '[' {
            (TokenType::LBRACKET, seq![c], t.drop_first())
        } else if c == ']' {
            (TokenType::RBRACKET, seq![c], t.drop_first())
        } else if c == ':' {
            (TokenType::COLON, seq![c], t.drop_first())
        } else if c == ',' {
            (TokenType::COMMA, seq![c], t.drop_first())
        } else if c == '\0' {
            (TokenType::EOF, seq![c], t.drop_first())
        } else if c == '"' {
            let body = t.drop_first();
            let n = run_len(CharClass::Unquoted, body) as int;
            if n < body.len() {
                (TokenType::STRING, body.take(n), body.skip(n + 1))
            } else {
                (TokenType::ILLEGAL, body, Seq::empty())
            }
        } else if is_letter_char(c) {
            let n = run_len(CharClass::Word, t) as int;
            (word_type(t.take(n)), t.take(n), t.skip(n))
        } else if is_digit_char(c) {
            let n = run_len(CharClass::Digit, t) as int;
            (TokenType::INT, t.take(n), t.skip(n))
        } else {
            (TokenType::ILLEGAL, seq![c], t)
        }
    }
}

/// A run is no longer than the text.
pub proof fn lemma_run_len_bound(class: CharClass, s: Seq<char>)
    ensures
        run_len(class, s) <= s.len(),
    decreases s.len(),
{
    if s.len() > 0 {
        lemma_run_len_bound(class, s.drop_first());
    }
}

/// Whether `input` can stand in a word.
pub fn is_letter(input: char) -> (b: bool)
    ensures
        b == is_letter_char(input),
{
    ('A' <= input && input <= 'Z') || ('a' <= input && input <= 'z') || input == '_'
}

/// Whether `input` can stand in a number.
pub fn is_digit(input: char) -> (b: bool)
    ensures
        b == is_digit_char(input),
{
    ('0' <= input && input <= '9') || input == '.'
}

/// A lexer over a JSON text.
#[derive(Debug)]
pub struct Lexer {
    input: Vec<char>,
    position: usize,
}

impl View for Lexer {
    type V = Seq<char>;

    /// The text that is left to read.
    closed spec fn view(&self) -> Seq<char> {
        self.input@.skip(self.position as int)
    }
}

impl Lexer {
    #[verifier::type_invariant]
    spec fn in_bounds(self) -> bool {
        self.position <= self.input@.len()
    }

    /// A lexer at the start of `input`.
    pub fn new(input: String) -> (lexer: Lexer)
        ensures
            lexer@ == input@,
    {
        let chars = chars_of(input.as_str());
        let lexer = Lexer { input: chars, position: 0 };
        assert(lexer.input@.skip(0) == lexer.input@);
        lexer
    }

    /// The character at the reading position, or NUL at the end of the text.
    fn ch(&self) -> (c: char)
        ensures
            c == if self@.len() > 0 {
                self@[0]
            } else {
                '\0'
            },
    {
        proof {
            use_type_invariant(self);
        }
        if self.position < self.input.len() {
            self.input[self.position]
        } else {
            '\0'
        }
    }

    /// Moves the reading position one character on, unless it is at the end.
    fn read_char(&mut self)
        ensures
            final(self)@ == if old(self)@.len() > 0 {
                old(self)@.drop_first()
            } else {
                old(self)@
            },
    {
        proof {
            use_type_invariant(&*self);
        }
        if self.position < self.input.len() {
            self.position = self.position + 1;
            assert(self.input@.skip(self.position as int) == self.input@.skip(
                self.position - 1,
            ).drop_first());
        }
    }

    /// Moves the reading position behind the run of characters of `class`
    /// that starts at it, and returns where the run started and ended.
    fn read_run(&mut self, class: CharClass) -> (span: (usize, usize))
        ensures
            span.0 <= span.1 <= final(self).input@.len(),
            final(self).input == old(self).input,
            old(self)@ == final(self).input@.skip(span.0 as int),
            span.1 - span.0 == run_len(class, old(self)@),
            final(self)@ == old(self)@.skip(span.1 - span.0),
            final(self).input@.subrange(span.0 as int, span.1 as int) == old(self)@.take(
                span.1 - span.0,
            ),
    {
        proof {
            use_type_invariant(&*self);
        }
        let start = self.position;
        let mut end = start;
        while end < self.input.len() && Lexer::belongs(&class, self.input[end])
            invariant
                start <= end <= self.input@.len(),
                run_len(class, self.input@.skip(start as int)) == (end - start) + run_len(
                    class,
                    self.input@.skip(end as int),
                ),
            decreases self.input@.len() - end,
        {
            assert(self.input@.skip(end as int).drop_first() == self.input@.skip(end + 1));
            end += 1;
        }
        self.position = end;
        assert(self.input@.skip(end as int) == self.input@.skip(start as int).skip(end - start));
        assert(self.input@.subrange(start as int, end as int) == self.input@.skip(
            start as int,
        ).take(end - start));
        (start, end)
    }

    /// Whether `c` belongs to `class`.
    fn belongs(class: &CharClass, c: char) -> (b: bool)
        ensures
            b == in_class(*class, c),
    {
        match class {
            CharClass::Space => is_whitespace(c),
            CharClass::Digit => is_digit(c),
            CharClass::Word => is_letter(c) || is_digit(c),
            CharClass::Unquoted => c != '"',
        }
    }

    /// The characters of the input from `start` up to `end`, as a string.
    fn slice(&self, start: usize, end: usize) -> (s: String)
        requires
            start <= end <= self.input@.len(),
        ensures
            s@ == self.input@.subrange(start as int, end as int),
    {
        string_of(slice_subrange(self.input.as_slice(), start, end))
    }

    /// Skips the white space at the reading position.
    fn skip_whitespace(&mut self)
        ensures
            final(self)@ == old(self)@.skip(run_len(CharClass::Space, old(self)@) as int),
    {
        let _ = self.read_run(CharClass::Space);
    }

    /// Reads a string, with the reading position at its opening quote:
    /// returns the characters up to the closing quote and whether there was
    /// one, and leaves the reading position behind it.
    fn read_string(&mut self) -> (r: (bool, String))
        requires
            old(self)@.len() > 0,
        ensures
            ({
                let body = old(self)@.drop_first();
                let n = run_len(CharClass::Unquoted, body) as int;
                &&& r.0 == (n < body.len())
                &&& r.1@ == body.take(n)
                &&& !r.0 ==> r.1@ == body
                &&& final(self)@ == if r.0 {
                    body.skip(n + 1)
                } else {
                    Seq::empty()
                }
            }),
    {
        self.read_char();
        let ghost body = self@;
        proof {
            lemma_run_len_bound(CharClass::Unquoted, body);
        }
        let (start, end) = self.read_run(CharClass::Unquoted);
        let res = self.slice(start, end);
        let closed = self.position < self.input.len();
        let ghost left = self@;
        proof {
            use_type_invariant(&*self);
        }
        assert(left == body.skip(end - start));
        assert(closed == (left.len() > 0));
        self.read_char();
        proof {
            if closed {
                assert(left.drop_first() == body.skip(end - start + 1));
            } else {
                assert(end - start == body.len());
                assert(left =~= Seq::empty());
                assert(body.take(end - start) == body);
            }
        }
        (closed, res)
    }

    /// Reads the number at the reading position.
    fn read_digit(&mut self) -> (res: String)
        ensures
            res@ == old(self)@.take(run_len(CharClass::Digit, old(self)@) as int),
            final(self)@ == old(self)@.skip(run_len(CharClass::Digit, old(self)@) as int),
    {
        let (start, end) = self.read_run(CharClass::Digit);
        self.slice(start, end)
    }

    /// Reads the word at the reading position and returns its characters.
    fn read_literal(&mut self) -> (res: Vec<char>)
        ensures
            res@ == old(self)@.take(run_len(CharClass::Word, old(self)@) as int),
            final(self)@ == old(self)@.skip(run_len(CharClass::Word, old(self)@) as int),
    {
        let (start, end) = self.read_run(CharClass::Word);
        let word = slice_subrange(self.input.as_slice(), start, end);
        let mut res: Vec<char> = Vec::new();
        let mut i: usize = 0;
        while i < word.len()
            invariant
                i <= word@.len(),
                res@ == word@.take(i as int),
            decreases word@.len() - i,
        {
            res.push(word[i]);
            i += 1;
        }
        assert(word@.take(word@.len() as int) == word@);
        res
    }

    /// Reads the next token.
    pub fn next_token(&mut self) -> (token: Token)
        ensures
            token.token_type == lex(old(self)@).0,
            token.literal@ == lex(old(self)@).1,
            final(self)@ == lex(old(self)@).2,
    {
        self.skip_whitespace();
        let ch = self.ch();
        let tok = if ch == '{' {
            Token::new(TokenType::LBRACE, Lexer::single(ch))
        } else if ch == '}' {
            Token::new(TokenType::RBRACE, Lexer::single(ch))
        } else if ch == '[' {
            Token::new(TokenType::LBRACKET, Lexer::single(ch))
        } else if ch == ']' {
            Token::new(TokenType::RBRACKET, Lexer::single(ch))
        } else if ch == ':' {
            Token::new(TokenType::COLON, Lexer::single(ch))
        } else if ch == ',' {
            Token::new(TokenType::COMMA, Lexer::single(ch))
        } else if ch == '\0' {
            Token::new(TokenType::EOF, Lexer::single('\0'))
        } else if ch == '"' {
            let (closed, string) = self.read_string();
            if closed {
                return Token::new(TokenType::STRING, string);
            }
            return Token::new(TokenType::ILLEGAL, string);
        } else {
            if is_letter(ch) {
                let literal = self.read_literal();
                let kind = classify_word(literal.as_slice());
                return Token::new(kind, string_of(literal.as_slice()));
            }
            if is_digit(ch) {
                let literal = self.read_digit();
                return Token::new(TokenType::INT, literal);
            }
            return Token::new(TokenType::ILLEGAL, Lexer::single(ch));
        };

        self.read_char();

        tok
    }

    /// The string made of one character.
    fn single(c: char) -> (s: String)
        ensures
            s@ == seq![c],
    {
        let mut v: Vec<char> = Vec::new();
        v.push(c);
        string_of(v.as_slice())
    }
}

} // verus!
