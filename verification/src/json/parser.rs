//! Checking that the tokens of a text are a JSON object.
//!
//! The parser looks at two tokens, the current one and the one after it,
//! and has the rest of the text before it. What it accepts is stated by
//! functions from such a state to the state in which it stops.
use vstd::prelude::*;
use crate::json::lexer::{lemma_run_len_bound, lex, run_len, CharClass, Lexer};
use crate::json::token::{Token, TokenType};

verus! {

/// Why a text is not accepted.
#[derive(Debug, Clone, Copy, PartialEq, Eq, Structural)]
pub enum ParseError {
    /// An object does not start with `{`.
    ExpectedObjectStart,
    /// A pair does not start with a string.
    ExpectedKey,
    /// The key of a pair is not followed by `:`.
    ExpectedColon,
    /// A value starts with a token that can start none.
    UnexpectedToken,
    /// A comma stands before the `}` of an object.
    TrailingComma,
    /// A list does not end with `]`.
    ExpectedListEnd,
    /// The object is followed by more tokens.
    ExpectedEof,
}

/// What a parser has before it: the kind and the literal of the current
/// token and of the one after it, and the text behind them.
pub ghost struct ParserState {
    pub cur: TokenType,
    pub cur_literal: Seq<char>,
    pub peek: TokenType,
    pub peek_literal: Seq<char>,
    pub rest: Seq<char>,
}

/// The state after the parser has moved on by one token.
pub open spec fn advance(st: ParserState) -> ParserState {
    ParserState {
        cur: st.peek,
        cur_literal: st.peek_literal,
        peek: lex(st.rest).0,
        peek_literal: lex(st.rest).1,
        rest: lex(st.rest).2,
    }
}

/// The state of a parser that has read the first two tokens of `text`.
pub open spec fn start(text: Seq<char>) -> ParserState {
    ParserState {
        cur: lex(text).0,
        cur_literal: lex(text).1,
        peek: lex(lex(text).2).0,
        peek_literal: lex(lex(text).2).1,
        rest: lex(lex(text).2).2,
    }
}

/// How parsing ends: in the state in which it stops, or with an error and
/// the state in which the error was found.
pub type Outcome = Result<ParserState, (ParseError, ParserState)>;

/// 0 for the tokens on which every rule fails, 1 for the others: these
/// always consume text.
pub open spec fn weight(kind: TokenType) -> nat {
    if kind == TokenType::EOF || kind == TokenType::ILLEGAL {
        0
    } else {
        1
    }
}

/// A bound on what is left to parse.
pub open spec fn size(st: ParserState) -> nat {
    weight(st.cur) + weight(st.peek) + st.rest.len()
}

/// A token is taken from the text, and any token but `EOF` and `ILLEGAL`
/// shortens the text.
pub proof fn lemma_lex_consumes(s: Seq<char>)
    ensures
        lex(s).2.len() + weight(lex(s).0) <= s.len(),
{
    lemma_run_len_bound(CharClass::Space, s);
    let t = s.skip(run_len(CharClass::Space, s) as int);
    if t.len() > 0 {
        lemma_run_len_bound(CharClass::Unquoted, t.drop_first());
        lemma_run_len_bound(CharClass::Word, t);
        lemma_run_len_bound(CharClass::Digit, t);
        lemma_run_len_bound(CharClass::Word, t.drop_first());
        lemma_run_len_bound(CharClass::Digit, t.drop_first());
    }
}

/// Moving on leaves less to parse, unless the current token is `EOF` or
/// `ILLEGAL`.
pub proof fn lemma_advance(st: ParserState)
    ensures
        size(advance(st)) + weight(st.cur) <= size(st),
{
    lemma_lex_consumes(st.rest);
}

/// Where parsing a value stops: on its last token, or where it fails. A
/// value is an object, a list, a string, a number, `true`, `false` or
/// `null`. A token that can start none fails at once.
pub open spec fn value_end(st: ParserState) -> Outcome
    decreases size(st), 2nat,
{
    match st.cur {
        TokenType::LBRACE => object_end(st),
        TokenType::LBRACKET => list_end(st),
        TokenType::STRING | TokenType::INT | TokenType::TRUE | TokenType::FALSE
        | TokenType::NULL => Ok(st),
        _ => Err((ParseError::UnexpectedToken, st)),
    }
}

/// Where parsing an object stops: on its `}`, or where it fails. An object
/// is `{`, pairs, and `}`. Any other first token fails at once.
pub open spec fn object_end(st: ParserState) -> Outcome
    decreases size(st), 1nat,
{
    if st.cur != TokenType::LBRACE {
        Err((ParseError::ExpectedObjectStart, st))
    } else {
        proof {
            lemma_advance(st);
        }
        pairs_end(advance(st))
    }
}

/// Where parsing the pairs of an object stops: on the first `}` that is
/// found where a pair could start.
///
/// The test on the size is there for the recursion to be well founded; a
/// pair always leaves less to parse (`lemma_pair_consumes`).
pub open spec fn pairs_end(st: ParserState) -> Outcome
    decreases size(st), 4nat,
{
    if st.cur == TokenType::RBRACE {
        Ok(st)
    } else {
        match pair_end(st) {
            Err(e) => Err(e),
            Ok(next) => if size(next) < size(st) {
                pairs_end(next)
            } else {
                Ok(next)
            },
        }
    }
}

/// Where parsing a pair stops: behind the pair, and behind the comma after
/// it if there is one; or where it fails. A pair is a string, `:` and a
/// value. Any other first token fails at once; a missing `:` fails on the
/// token in its place. A comma after the pair must not stand before `}`:
/// that fails on the comma.
pub open spec fn pair_end(st: ParserState) -> Outcome
    decreases size(st), 1nat,
{
    if st.cur != TokenType::STRING {
        Err((ParseError::ExpectedKey, st))
    } else if advance(st).cur != TokenType::COLON {
        Err((ParseError::ExpectedColon, advance(st)))
    } else {
        proof {
            lemma_advance(st);
            lemma_advance(advance(st));
        }
        match value_end(advance(advance(st))) {
            Err(e) => Err(e),
            Ok(last) => if last.peek == TokenType::COMMA {
                if advance(last).peek == TokenType::RBRACE {
                    Err((ParseError::TrailingComma, advance(last)))
                } else {
                    Ok(advance(advance(last)))
                }
            } else {
                Ok(advance(last))
            },
        }
    }
}

/// Where parsing a list stops whose `[` is the current token: on its `]`.
/// A list is `[`, values with a comma after each but the last, where the
/// last may have one too, and `]`.
pub open spec fn list_end(st: ParserState) -> Outcome
    decreases size(st), 1nat,
{
    if st.cur != TokenType::LBRACKET {
        Err((ParseError::UnexpectedToken, st))
    } else {
        proof {
            lemma_advance(st);
        }
        match items_end(advance(st)) {
            Err(e) => Err(e),
            Ok(last) => if last.cur == TokenType::RBRACKET {
                Ok(last)
            } else {
                Err((ParseError::ExpectedListEnd, last))
            },
        }
    }
}

/// Where parsing the values of a list stops: on a `]` that is found where
/// a value could start, or on the token behind a value that is no comma.
///
/// The test on the size is there for the recursion to be well founded; a
/// value with the comma behind it always leaves less to parse
/// (`lemma_value_consumes`).
pub open spec fn items_end(st: ParserState) -> Outcome
    decreases size(st), 4nat,
{
    if st.cur == TokenType::RBRACKET {
        Ok(st)
    } else {
        match value_end(st) {
            Err(e) => Err(e),
            Ok(last) => if advance(last).cur != TokenType::COMMA {
                Ok(advance(last))
            } else if size(advance(advance(last))) < size(st) {
                items_end(advance(advance(last)))
            } else {
                Ok(advance(advance(last)))
            },
        }
    }
}

/// Where parsing a text stops: on the `EOF` behind its one object, or
/// where it fails. Another token behind the object fails on that token.
pub open spec fn text_end(st: ParserState) -> Outcome {
    match object_end(st) {
        Err(e) => Err(e),
        Ok(last) => if advance(last).cur != TokenType::EOF {
            Err((ParseError::ExpectedEof, advance(last)))
        } else {
            Ok(advance(last))
        },
    }
}

/// A value ends on a token that is neither `EOF` nor `ILLEGAL`, with no
/// more left to parse than before.
pub proof fn lemma_value_consumes(st: ParserState)
    ensures
        value_end(st) matches Ok(last) ==> size(last) <= size(st) && weight(last.cur) == 1,
    decreases size(st), 2nat,
{
    match st.cur {
        TokenType::LBRACE => {
            lemma_object_consumes(st);
        },
        TokenType::LBRACKET => {
            lemma_list_consumes(st);
        },
        _ => {},
    }
}

/// An object ends on its `}`, with no more left to parse than before.
pub proof fn lemma_object_consumes(st: ParserState)
    ensures
        object_end(st) matches Ok(last) ==> size(last) <= size(st) && last.cur
            == TokenType::RBRACE,
    decreases size(st), 1nat,
{
    if st.cur == TokenType::LBRACE {
        lemma_advance(st);
        lemma_pairs_consume(advance(st));
    }
}

/// The pairs of an object end on a `}`, with no more left to parse than
/// before.
pub proof fn lemma_pairs_consume(st: ParserState)
    ensures
        pairs_end(st) matches Ok(last) ==> size(last) <= size(st) && last.cur
            == TokenType::RBRACE,
    decreases size(st), 4nat,
{
    if st.cur != TokenType::RBRACE {
        lemma_pair_consumes(st);
        if let Ok(next) = pair_end(st) {
            lemma_pairs_consume(next);
        }
    }
}

/// A pair leaves less to parse.
pub proof fn lemma_pair_consumes(st: ParserState)
    ensures
        pair_end(st) matches Ok(next) ==> size(next) < size(st),
    decreases size(st), 1nat,
{
    if st.cur == TokenType::STRING && advance(st).cur == TokenType::COLON {
        lemma_advance(st);
        lemma_advance(advance(st));
        let start = advance(advance(st));
        lemma_value_consumes(start);
        if let Ok(last) = value_end(start) {
            lemma_advance(last);
            lemma_advance(advance(last));
        }
    }
}

/// A list ends on its `]`, with no more left to parse than before.
pub proof fn lemma_list_consumes(st: ParserState)
    ensures
        list_end(st) matches Ok(last) ==> size(last) <= size(st) && last.cur
            == TokenType::RBRACKET,
    decreases size(st), 1nat,
{
    if st.cur == TokenType::LBRACKET {
        lemma_advance(st);
        lemma_items_consume(advance(st));
    }
}

/// The values of a list end with no more left to parse than before.
pub proof fn lemma_items_consume(st: ParserState)
    ensures
        items_end(st) matches Ok(last) ==> size(last) <= size(st),
    decreases size(st), 4nat,
{
    if st.cur != TokenType::RBRACKET {
        lemma_value_consumes(st);
        if let Ok(last) = value_end(st) {
            lemma_advance(last);
            lemma_advance(advance(last));
            if advance(last).cur == TokenType::COMMA {
                lemma_items_consume(advance(advance(last)));
            }
        }
    }
}

/// A parser over the tokens of a lexer.
#[derive(Debug)]
pub struct Parser<'a> {
    l: &'a mut Lexer,
    cur_token: Token,
    peek_token: Token,
}

impl<'a> View for Parser<'a> {
    type V = ParserState;

    /// What the parser has before it.
    closed spec fn view(&self) -> ParserState {
        ParserState {
            cur: self.cur_token.token_type,
            cur_literal: self.cur_token.literal@,
            peek: self.peek_token.token_type,
            peek_literal: self.peek_token.literal@,
            rest: (*self.l)@,
        }
    }
}

impl<'a> Parser<'a> {
    /// A parser that has read the first two tokens of the lexer.
    pub fn new(l: &'a mut Lexer) -> (p: Parser<'a>)
        ensures
            p@ == start(old(l)@),
    {
        let cur_token = l.next_token();
        let peek_token = l.next_token();
        Parser { l, cur_token, peek_token }
    }

    /// Moves on by one token.
    pub fn next_token(&mut self)
        ensures
            final(self)@ == advance(old(self)@),
    {
        let mut next = self.l.next_token();
        std::mem::swap(&mut self.peek_token, &mut next);
        self.cur_token = next;
    }

    /// Checks that the tokens are one object and nothing else. On failure
    /// the parser stays where the error was found; a first token that is
    /// no `{` leaves it as it was.
    pub fn parse(&mut self) -> (r: Result<(), ParseError>)
        ensures
            match r {
                Ok(()) => text_end(old(self)@) == Ok::<ParserState, (ParseError, ParserState)>(
                    final(self)@,
                ),
                Err(e) => text_end(old(self)@) == Err::<ParserState, (ParseError, ParserState)>(
                    (e, final(self)@),
                ),
            },
    {
        if self.cur_token.token_type != TokenType::LBRACE {
            return Err(ParseError::ExpectedObjectStart);
        }
        match self.parse_object() {
            Ok(()) => {},
            Err(e) => {
                return Err(e);
            },
        }
        self.next_token();
        if self.cur_token.token_type != TokenType::EOF {
            return Err(ParseError::ExpectedEof);
        }
        Ok(())
    }

    /// Checks that an object starts at the current token, and stops on its
    /// `}`. On failure the parser stays where the error was found; a first
    /// token that is no `{` leaves it as it was.
    pub fn parse_object(&mut self) -> (r: Result<(), ParseError>)
        ensures
            match r {
                Ok(()) => object_end(old(self)@) == Ok::<ParserState, (ParseError, ParserState)>(
                    final(self)@,
                ),
                Err(e) => object_end(old(self)@) == Err::<ParserState, (ParseError, ParserState)>(
                    (e, final(self)@),
                ),
            },
        decreases size(old(self)@), 1nat,
    {
        if self.cur_token.token_type != TokenType::LBRACE {
            return Err(ParseError::ExpectedObjectStart);
        }
        proof {
            lemma_advance(self@);
        }
        self.next_token();
        let ghost first = self@;
        while self.cur_token.token_type != TokenType::RBRACE
            invariant
                object_end(old(self)@) == pairs_end(first),
                pairs_end(first) == pairs_end(self@),
                size(self@) < size(old(self)@),
            decreases size(self@),
        {
            let ghost before = self@;
            proof {
                lemma_pair_consumes(before);
            }
            match self.parse_pair() {
                Ok(()) => {},
                Err(e) => {
                    return Err(e);
                },
            }
        }
        Ok(())
    }

    /// Checks that a pair starts at the current token, and stops behind it
    /// and the comma after it. On failure the parser stays where the error
    /// was found; a first token that is no string leaves it as it was.
    fn parse_pair(&mut self) -> (r: Result<(), ParseError>)
        ensures
            match r {
                Ok(()) => pair_end(old(self)@) == Ok::<ParserState, (ParseError, ParserState)>(
                    final(self)@,
                ),
                Err(e) => pair_end(old(self)@) == Err::<ParserState, (ParseError, ParserState)>(
                    (e, final(self)@),
                ),
            },
        decreases size(old(self)@), 1nat,
    {
        if self.cur_token.token_type != TokenType::STRING {
            return Err(ParseError::ExpectedKey);
        }
        proof {
            lemma_advance(self@);
            lemma_advance(advance(self@));
        }
        self.next_token();
        if self.cur_token.token_type != TokenType::COLON {
            return Err(ParseError::ExpectedColon);
        }
        self.next_token();
        match self.parse_value() {
            Ok(()) => {},
            Err(e) => {
                return Err(e);
            },
        }
        if self.peek_token.token_type == TokenType::COMMA {
            self.next_token();

            if self.peek_token.token_type == TokenType::RBRACE {
                return Err(ParseError::TrailingComma);
            }
        }
        self.next_token();

        Ok(())
    }

    /// Checks that a list starts at the current token, and stops on its
    /// `]`. On failure the parser stays where the error was found.
    fn parse_list(&mut self) -> (r: Result<(), ParseError>)
        ensures
            match r {
                Ok(()) => list_end(old(self)@) == Ok::<ParserState, (ParseError, ParserState)>(
                    final(self)@,
                ),
                Err(e) => list_end(old(self)@) == Err::<ParserState, (ParseError, ParserState)>(
                    (e, final(self)@),
                ),
            },
        decreases size(old(self)@), 1nat,
    {
        if self.cur_token.token_type != TokenType::LBRACKET {
            return Err(ParseError::UnexpectedToken);
        }
        proof {
            lemma_advance(self@);
        }
        self.next_token();
        let ghost first = self@;

        loop
            invariant_except_break
                items_end(first) == items_end(self@),
            invariant
                old(self)@.cur == TokenType::LBRACKET,
                first == advance(old(self)@),
                size(self@) < size(old(self)@),
            ensures
                items_end(first) == Ok::<ParserState, (ParseError, ParserState)>(self@),
            decreases size(self@),
        {
            if self.cur_token.token_type == TokenType::RBRACKET {
                break;
            }
            let ghost before = self@;
            proof {
                lemma_value_consumes(before);
            }
            match self.parse_value() {
                Ok(()) => {},
                Err(e) => {
                    return Err(e);
                },
            }
            proof {
                lemma_advance(self@);
                lemma_advance(advance(self@));
            }
            self.next_token();

            if self.cur_token.token_type != TokenType::COMMA {
                break;
            }
            self.next_token();
        }

        if self.cur_token.token_type != TokenType::RBRACKET {
            return Err(ParseError::ExpectedListEnd);
        }
        Ok(())
    }

    /// Checks that a value starts at the current token, and stops on its
    /// last token. On failure the parser stays where the error was found.
    fn parse_value(&mut self) -> (r: Result<(), ParseError>)
        ensures
            match r {
                Ok(()) => value_end(old(self)@) == Ok::<ParserState, (ParseError, ParserState)>(
                    final(self)@,
                ),
                Err(e) => value_end(old(self)@) == Err::<ParserState, (ParseError, ParserState)>(
                    (e, final(self)@),
                ),
            },
        decreases size(old(self)@), 2nat,
    {
        match self.cur_token.token_type {
            TokenType::LBRACE => self.parse_object(),
            TokenType::LBRACKET => self.parse_list(),
            TokenType::STRING
            | TokenType::INT
            | TokenType::TRUE
            | TokenType::FALSE
            | TokenType::NULL => Ok(()),
            _ => Err(ParseError::UnexpectedToken),
        }
    }
}

} // verus!
