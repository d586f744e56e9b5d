use vstd::prelude::*;
use crate::text::{chars_of, push_char, string_of_char};

verus! {

/// A character of the input, classified by the role it can play in a token.
#[derive(Clone, Copy, Debug, PartialEq, Eq, Structural)]
pub enum Chars {
    LBrace,
    RBrace,
    LBracket,
    RBracket,
    Colon,
    Comma,
    Quote,
    NewLine,
    MinusSign,
    Dot,
    Space,
    Char(char),
}

pub open spec fn spec_chars_from(ch: char) -> Chars {
    if ch == '{' {
        Chars::LBrace
    } else if ch == '}' {
        Chars::RBrace
    } else if ch == '[' {
        Chars::LBracket
    } else if ch == ']' {
        Chars::RBracket
    } else if ch == ':' {
        Chars::Colon
    } else if ch == ',' {
        Chars::Comma
    } else if ch == '"' {
        Chars::Quote
    } else if ch == '\n' {
        Chars::NewLine
    } else if ch == '-' {
        Chars::MinusSign
    } else if ch == '.' {
        Chars::Dot
    } else if ch == ' ' {
        Chars::Space
    } else {
        Chars::Char(ch)
    }
}

impl Chars {
    pub open spec fn spec_to_char(self) -> char {
        match self {
            Chars::LBrace => '{',
            Chars::RBrace => '}',
            Chars::LBracket => '[',
            Chars::RBracket => ']',
            Chars::Colon => ':',
            Chars::Comma => ',',
            Chars::Quote => '"',
            Chars::NewLine => '\n',
            Chars::MinusSign => '-',
            Chars::Dot => '.',
            Chars::Space => ' ',
            Chars::Char(c) => c,
        }
    }

    pub fn from(ch: char) -> (r: Chars)
        ensures
            r == spec_chars_from(ch),
            r.spec_to_char() == ch,
    {
        match ch {
            '{' => Chars::LBrace,
            '}' => Chars::RBrace,
            '[' => Chars::LBracket,
            ']' => Chars::RBracket,
            ':' => Chars::Colon,
            ',' => Chars::Comma,
            '"' => Chars::Quote,
            '\n' => Chars::NewLine,
            '-' => Chars::MinusSign,
            '.' => Chars::Dot,
            ' ' => Chars::Space,
            _ => Chars::Char(ch),
        }
    }

    pub fn to_string(&self) -> (r: String)
        ensures
            r@ == seq![self.spec_to_char()],
    {
        string_of_char(self.to_char())
    }

    pub fn to_char(&self) -> (r: char)
        ensures
            r == self.spec_to_char(),
    {
        match self {
            Chars::LBrace => '{',
            Chars::RBrace => '}',
            Chars::LBracket => '[',
            Chars::RBracket => ']',
            Chars::Colon => ':',
            Chars::Comma => ',',
            Chars::Quote => '"',
            Chars::NewLine => '\n',
            Chars::MinusSign => '-',
            Chars::Dot => '.',
            Chars::Space => ' ',
            Chars::Char(c) => *c,
        }
    }
}

pub open spec fn is_digit(c: char) -> bool {
    '0' <= c <= '9'
}

pub open spec fn is_word_start(c: char) -> bool {
    ('a' <= c <= 'z') || ('A' <= c <= 'Z') || c == '_'
}

pub open spec fn is_word_char(c: char) -> bool {
    is_word_start(c) || is_digit(c)
}

fn digit(c: char) -> (r: bool)
    ensures
        r == is_digit(c),
{
    '0' <= c && c <= '9'
}

fn word_char(c: char) -> (r: bool)
    ensures
        r == is_word_char(c),
{
    ('a' <= c && c <= 'z') || ('A' <= c && c <= 'Z') || c == '_' || ('0' <= c && c <= '9')
}

fn word_start(c: char) -> (r: bool)
    ensures
        r == is_word_start(c),
{
    ('a' <= c && c <= 'z') || ('A' <= c && c <= 'Z') || c == '_'
}

#[derive(Clone, Copy, Debug, PartialEq, Eq, Structural)]
pub enum StringType {
    SimpleString,
    ComplexString,
}

#[derive(Clone, Copy, Debug, PartialEq, Eq, Structural)]
pub enum TokenType {
    NoToken,
    Int,
    String(StringType),
    ReservedString,
    Float,
    LBrace,
    RBrace,
    LBracket,
    RBracket,
    Colon,
    Comma,
}

/// A token as a kind and the characters of its literal.
pub type TokenModel = (TokenType, Seq<char>);

#[derive(Debug)]
pub struct Token {
    pub token_type: TokenType,
    pub literal: String,
}

impl View for Token {
    type V = TokenModel;

    open spec fn view(&self) -> TokenModel {
        (self.token_type, self.literal@)
    }
}

pub open spec fn tokens_model(ts: Seq<Token>) -> Seq<TokenModel> {
    ts.map_values(|t: Token| t@)
}

impl Token {
    /// A token of the same kind and literal.
    pub fn duplicate(&self) -> (r: Token)
        ensures
            r@ == self@,
    {
        Token { token_type: self.token_type, literal: self.literal.clone() }
    }

    pub fn default() -> (r: Token)
        ensures
            r@ == (TokenType::NoToken, Seq::<char>::empty()),
    {
        Token { token_type: TokenType::NoToken, literal: String::new() }
    }
}

#[derive(Clone, Copy, Debug, PartialEq, Eq, Structural)]
pub enum LexerError {
    InvalidTokenError(char),
    OutOfRangeError,
}

/// The scanner's state: the token in progress and the tokens emitted so far.
pub type ScanState = (TokenModel, Seq<TokenModel>);

pub open spec fn scan_initial() -> ScanState {
    ((TokenType::NoToken, Seq::empty()), Seq::empty())
}

/// The kind of token that a structural character stands for, if it is one.
pub open spec fn structural_kind(c: char) -> Option<TokenType> {
    if c == '{' {
        Some(TokenType::LBrace)
    } else if c == '}' {
        Some(TokenType::RBrace)
    } else if c == '[' {
        Some(TokenType::LBracket)
    } else if c == ']' {
        Some(TokenType::RBracket)
    } else if c == ':' {
        Some(TokenType::Colon)
    } else if c == ',' {
        Some(TokenType::Comma)
    } else {
        None
    }
}

/// Ends the token in progress: it joins the output and nothing is in progress.
pub open spec fn finalize(st: ScanState) -> ScanState {
    ((TokenType::NoToken, Seq::empty()), st.1.push(st.0))
}

/// One character read while no token is in progress.
pub open spec fn start_step(st: ScanState, c: char) -> Result<ScanState, LexerError> {
    if let Some(k) = structural_kind(c) {
        Ok((st.0, st.1.push((k, seq![c]))))
    } else if c == '"' {
        Ok(((TokenType::String(StringType::SimpleString), seq![c]), st.1))
    } else if c == '\n' || c == ' ' {
        Ok(st)
    } else if c == '-' || is_digit(c) {
        Ok(((TokenType::Int, seq![c]), st.1))
    } else if is_word_start(c) {
        Ok(((TokenType::ReservedString, seq![c]), st.1))
    } else {
        Err(LexerError::InvalidTokenError(c))
    }
}

/// One character read in the given state. A character that ends a number or a
/// word is read again with nothing in progress.
pub open spec fn scan_step(st: ScanState, c: char) -> Result<ScanState, LexerError> {
    let (kind, text) = st.0;
    match kind {
        TokenType::Int => {
            if is_digit(c) {
                Ok(((TokenType::Int, text.push(c)), st.1))
            } else if c == '.' {
                Ok(((TokenType::Float, text.push(c)), st.1))
            } else {
                start_step(finalize(st), c)
            }
        },
        TokenType::Float => {
            if is_digit(c) {
                Ok(((TokenType::Float, text.push(c)), st.1))
            } else {
                start_step(finalize(st), c)
            }
        },
        TokenType::ReservedString => {
            if is_word_char(c) {
                Ok(((TokenType::ReservedString, text.push(c)), st.1))
            } else if spec_chars_from(c) is Char {
                Err(LexerError::InvalidTokenError(c))
            } else {
                start_step(finalize(st), c)
            }
        },
        TokenType::String(sk) => {
            if c == '"' {
                Ok(finalize(((kind, text.push(c)), st.1)))
            } else if is_word_char(c) {
                Ok(((kind, text.push(c)), st.1))
            } else {
                Ok(((TokenType::String(StringType::ComplexString), text.push(c)), st.1))
            }
        },
        _ => start_step(st, c),
    }
}

/// The end of the input: a number or a word in progress is emitted; a string
/// still open is incomplete.
pub open spec fn scan_end(st: ScanState) -> Result<Seq<TokenModel>, LexerError> {
    match st.0.0 {
        TokenType::NoToken => Ok(st.1),
        TokenType::String(_) => Err(LexerError::OutOfRangeError),
        _ => Ok(st.1.push(st.0)),
    }
}

pub open spec fn scan(st: ScanState, s: Seq<char>) -> Result<Seq<TokenModel>, LexerError>
    decreases s.len(),
{
    if s.len() == 0 {
        scan_end(st)
    } else {
        match scan_step(st, s[0]) {
            Ok(next) => scan(next, s.drop_first()),
            Err(e) => Err(e),
        }
    }
}

/// The tokens of a text, or the first error met while scanning it.
pub open spec fn lex(s: Seq<char>) -> Result<Seq<TokenModel>, LexerError> {
    scan(scan_initial(), s)
}

/// Whether a kind can stand for the token in progress.
pub open spec fn in_progress_kind(k: TokenType) -> bool {
    k is NoToken || k is Int || k is Float || k is ReservedString || k is String
}

/// What one call that handles a character did, from `pre` to `post`: `Ok(true)`
/// when the character was taken, `Ok(false)` when it ended the token in progress
/// and has to be read again.
pub open spec fn step_taken(pre: Lexer, post: Lexer, c: char, r: Result<bool, LexerError>) -> bool {
    &&& post.input == pre.input
    &&& post.position == pre.position
    &&& match r {
        Ok(true) => {
            &&& scan_step(pre.state(), c) == Ok::<ScanState, LexerError>(post.state())
            &&& post.line == pre.line + if pre.current_token.token_type is NoToken && c == '\n' {
                1int
            } else {
                0int
            }
            &&& in_progress_kind(post.current_token.token_type)
        },
        Ok(false) => {
            &&& post.state() == finalize(pre.state())
            &&& scan_step(pre.state(), c) == start_step(finalize(pre.state()), c)
            &&& !(pre.current_token.token_type is NoToken)
            &&& post.current_token.token_type is NoToken
            &&& post.line == pre.line
        },
        Err(e) => scan_step(pre.state(), c) == Err::<ScanState, LexerError>(e),
    }
}

/// A scanner over a text, one character at a time.
pub struct Lexer {
    pub input: Vec<char>,
    pub position: usize,
    pub token_list: Vec<Token>,
    pub current_token: Token,
    pub line: usize,
}

impl Lexer {
    pub open spec fn state(&self) -> ScanState {
        (self.current_token@, tokens_model(self.token_list@))
    }

    /// The part of the input not read yet.
    pub open spec fn rest(&self) -> Seq<char> {
        self.input@.subrange(self.position as int, self.input@.len() as int)
    }

    pub open spec fn wf(&self) -> bool {
        &&& self.position <= self.input@.len()
        &&& self.line <= self.position
        &&& in_progress_kind(self.current_token.token_type)
    }

    /// Falls with every character read, and when a token in progress ends.
    pub open spec fn measure(&self) -> int {
        (self.input@.len() - self.position) * 2 + if self.current_token.token_type is NoToken {
            0int
        } else {
            1int
        }
    }

    pub fn new(input: String) -> (r: Lexer)
        ensures
            r.input@ == input@,
            r.position == 0,
            r.line == 0,
            r.token_list@.len() == 0,
            r.current_token@ == (TokenType::NoToken, Seq::<char>::empty()),
    {
        Lexer {
            input: chars_of(input.as_str()),
            position: 0,
            token_list: Vec::new(),
            line: 0,
            current_token: Token::default(),
        }
    }

    fn read_char(&mut self) -> (r: Result<Chars, LexerError>)
        ensures
            final(self).input == old(self).input,
            final(self).token_list == old(self).token_list,
            final(self).current_token == old(self).current_token,
            final(self).line == old(self).line,
            old(self).position < old(self).input@.len() ==> {
                &&& r == Ok::<Chars, LexerError>(
                    spec_chars_from(old(self).input@[old(self).position as int]),
                )
                &&& final(self).position == old(self).position + 1
            },
            old(self).position >= old(self).input@.len() ==> {
                &&& r == Err::<Chars, LexerError>(LexerError::OutOfRangeError)
                &&& final(self).position == old(self).position
            },
    {
        if self.position >= self.input.len() {
            return Err(LexerError::OutOfRangeError);
        }
        let ch = self.input[self.position];
        self.position = self.position + 1;
        Ok(Chars::from(ch))
    }

    /// Moves the token in progress to the output.
    fn finish_token(&mut self)
        ensures
            final(self).state() == finalize(old(self).state()),
            final(self).current_token.token_type is NoToken,
            final(self).input == old(self).input,
            final(self).position == old(self).position,
            final(self).line == old(self).line,
    {
        let mut t = Token::default();
        core::mem::swap(&mut t, &mut self.current_token);
        self.token_list.push(t);
        assert(tokens_model(self.token_list@) =~= tokens_model(old(self).token_list@).push(
            old(self).current_token@,
        ));
        assert(self.current_token@.1 =~= Seq::<char>::empty());
    }

    /// Adds one character to the token in progress, which takes the given kind.
    fn extend_token(&mut self, kind: TokenType, c: char)
        ensures
            final(self).current_token@ == (kind, old(self).current_token@.1.push(c)),
            final(self).token_list == old(self).token_list,
            final(self).input == old(self).input,
            final(self).position == old(self).position,
            final(self).line == old(self).line,
    {
        self.current_token.token_type = kind;
        push_char(&mut self.current_token.literal, c);
    }

    /// Pushes a one-character token straight to the output.
    fn emit_char_token(&mut self, kind: TokenType, ch: Chars)
        ensures
            final(self).token_list@.len() == old(self).token_list@.len() + 1,
            tokens_model(final(self).token_list@) == tokens_model(old(self).token_list@).push(
                (kind, seq![ch.spec_to_char()]),
            ),
            final(self).current_token == old(self).current_token,
            final(self).input == old(self).input,
            final(self).position == old(self).position,
            final(self).line == old(self).line,
    {
        let t = Token { token_type: kind, literal: ch.to_string() };
        self.token_list.push(t);
        assert(tokens_model(self.token_list@) =~= tokens_model(old(self).token_list@).push(
            (kind, seq![ch.spec_to_char()]),
        ));
    }

    /// Starts a token in progress with one character.
    fn begin_token(&mut self, kind: TokenType, ch: Chars)
        ensures
            final(self).current_token@ == (kind, seq![ch.spec_to_char()]),
            final(self).token_list == old(self).token_list,
            final(self).input == old(self).input,
            final(self).position == old(self).position,
            final(self).line == old(self).line,
    {
        self.current_token = Token { token_type: kind, literal: ch.to_string() };
    }

    fn process_start_token(&mut self, ch: Chars) -> (r: Result<bool, LexerError>)
        requires
            old(self).current_token.token_type is NoToken,
            old(self).line < old(self).position,
            ch == spec_chars_from(ch.spec_to_char()),
        ensures
            step_taken(*old(self), *final(self), ch.spec_to_char(), r),
            r is Ok ==> r == Ok::<bool, LexerError>(true),
    {
        match ch {
            Chars::LBrace => self.emit_char_token(TokenType::LBrace, ch),
            Chars::RBrace => self.emit_char_token(TokenType::RBrace, ch),
            Chars::LBracket => self.emit_char_token(TokenType::LBracket, ch),
            Chars::RBracket => self.emit_char_token(TokenType::RBracket, ch),
            Chars::Colon => self.emit_char_token(TokenType::Colon, ch),
            Chars::Comma => self.emit_char_token(TokenType::Comma, ch),
            Chars::Quote => self.begin_token(TokenType::String(StringType::SimpleString), ch),
            Chars::NewLine => {
                self.line = self.line + 1;
            },
            Chars::MinusSign => self.begin_token(TokenType::Int, ch),
            Chars::Space => {},
            Chars::Char(c) => {
                if digit(c) {
                    self.begin_token(TokenType::Int, ch);
                } else if word_start(c) {
                    self.begin_token(TokenType::ReservedString, ch);
                } else {
                    return Err(LexerError::InvalidTokenError(c));
                }
            },
            Chars::Dot => {
                return Err(LexerError::InvalidTokenError(ch.to_char()));
            },
        }
        Ok(true)
    }

    fn process_int_token(&mut self, ch: Chars) -> (r: Result<bool, LexerError>)
        requires
            old(self).current_token.token_type is Int,
            ch == spec_chars_from(ch.spec_to_char()),
        ensures
            step_taken(*old(self), *final(self), ch.spec_to_char(), r),
            r == Ok::<bool, LexerError>(
                is_digit(ch.spec_to_char()) || ch.spec_to_char() == '.',
            ),
    {
        match ch {
            Chars::Char(c) if digit(c) => {
                self.extend_token(TokenType::Int, c);
                Ok(true)
            },
            Chars::Dot => {
                self.extend_token(TokenType::Float, '.');
                Ok(true)
            },
            _ => {
                self.finish_token();
                Ok(false)
            },
        }
    }

    fn process_float_token(&mut self, ch: Chars) -> (r: Result<bool, LexerError>)
        requires
            old(self).current_token.token_type is Float,
            ch == spec_chars_from(ch.spec_to_char()),
        ensures
            step_taken(*old(self), *final(self), ch.spec_to_char(), r),
            r == Ok::<bool, LexerError>(is_digit(ch.spec_to_char())),
    {
        match ch {
            Chars::Char(c) if digit(c) => {
                self.extend_token(TokenType::Float, c);
                Ok(true)
            },
            _ => {
                self.finish_token();
                Ok(false)
            },
        }
    }

    fn process_string_token(&mut self, ch: Chars) -> (r: Result<bool, LexerError>)
        requires
            old(self).current_token.token_type is String,
            ch == spec_chars_from(ch.spec_to_char()),
        ensures
            step_taken(*old(self), *final(self), ch.spec_to_char(), r),
            r == Ok::<bool, LexerError>(true),
    {
        let kind = self.current_token.token_type;
        match ch {
            Chars::Quote => {
                self.extend_token(kind, '"');
                self.finish_token();
            },
            Chars::Char(c) if word_char(c) => {
                self.extend_token(kind, c);
            },
            _ => {
                self.extend_token(TokenType::String(StringType::ComplexString), ch.to_char());
            },
        }
        Ok(true)
    }

    fn process_reseved_string(&mut self, ch: Chars) -> (r: Result<bool, LexerError>)
        requires
            old(self).current_token.token_type is ReservedString,
            ch == spec_chars_from(ch.spec_to_char()),
        ensures
            step_taken(*old(self), *final(self), ch.spec_to_char(), r),
            is_word_char(ch.spec_to_char()) ==> r == Ok::<bool, LexerError>(true),
            !is_word_char(ch.spec_to_char()) && ch is Char ==> r == Err::<bool, LexerError>(
                LexerError::InvalidTokenError(ch.spec_to_char()),
            ),
            !(ch is Char) ==> r == Ok::<bool, LexerError>(false),
    {
        match ch {
            Chars::Char(c) => {
                if word_char(c) {
                    self.extend_token(TokenType::ReservedString, c);
                    Ok(true)
                } else {
                    Err(LexerError::InvalidTokenError(c))
                }
            },
            _ => {
                self.finish_token();
                Ok(false)
            },
        }
    }

    /// Reads one character and hands it to the handler of the token in progress;
    /// a character that only ended that token is left to be read again.
    fn process_next_token(&mut self) -> (r: Result<(), LexerError>)
        requires
            old(self).wf(),
            old(self).position < old(self).input@.len(),
        ensures
            final(self).input == old(self).input,
            match r {
                Ok(()) => {
                    &&& final(self).wf()
                    &&& scan(final(self).state(), final(self).rest()) == scan(
                        old(self).state(),
                        old(self).rest(),
                    )
                    &&& final(self).measure() < old(self).measure()
                },
                Err(e) => scan(old(self).state(), old(self).rest()) == Err::<
                    Seq<TokenModel>,
                    LexerError,
                >(e),
            },
    {
        let ghost pre = *self;
        let ghost c = self.input@[self.position as int];
        let ch = match self.read_char() {
            Ok(ch) => ch,
            Err(e) => {
                return Err(e);
            },
        };
        assert(ch.spec_to_char() == c);
        let ghost mid = *self;
        let kind = self.current_token.token_type;
        let step = match kind {
            TokenType::NoToken => self.process_start_token(ch),
            TokenType::Int => self.process_int_token(ch),
            TokenType::String(_) => self.process_string_token(ch),
            TokenType::ReservedString => self.process_reseved_string(ch),
            TokenType::Float => self.process_float_token(ch),
            _ => {
                self.current_token = Token::default();
                Ok(false)
            },
        };
        let consumed = match step {
            Ok(b) => b,
            Err(e) => {
                assert(pre.rest()[0] == c);
                return Err(e);
            },
        };
        if !consumed {
            self.position = self.position - 1;
            assert(self.rest() =~= pre.rest());
        } else {
            assert(self.rest() =~= pre.rest().drop_first());
        }
        assert(pre.rest()[0] == c);
        Ok(())
    }

    /// The tokens of the whole input, scanned from its start.
    pub fn tokenize(&mut self) -> (r: Result<Vec<Token>, LexerError>)
        ensures
            match r {
                Ok(ts) => {
                    &&& lex(old(self).input@) == Ok::<Seq<TokenModel>, LexerError>(
                        tokens_model(ts@),
                    )
                    &&& final(self).current_token@ == (TokenType::NoToken, Seq::<char>::empty())
                },
                Err(e) => lex(old(self).input@) == Err::<Seq<TokenModel>, LexerError>(e),
            },
    {
        self.token_list = Vec::new();
        self.current_token = Token::default();
        self.position = 0;
        self.line = 0;
        assert(self.state() =~= scan_initial());
        assert(self.rest() =~= self.input@);
        while self.position < self.input.len()
            invariant
                self.wf(),
                self.input == old(self).input,
                scan(self.state(), self.rest()) == lex(old(self).input@),
            decreases self.measure(),
        {
            match self.process_next_token() {
                Ok(()) => {},
                Err(e) => {
                    return Err(e);
                },
            }
        }
        assert(self.rest().len() == 0);
        match self.current_token.token_type {
            TokenType::NoToken => {
                self.current_token = Token::default();
            },
            TokenType::String(_) => {
                return Err(LexerError::OutOfRangeError);
            },
            _ => {
                self.finish_token();
            },
        }
        let mut out = Vec::new();
        core::mem::swap(&mut out, &mut self.token_list);
        Ok(out)
    }
} // impl Lexer

} // verus!
