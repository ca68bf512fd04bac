//! The tokenizer: walks a source string one character at a time, with one
//! character of lookahead, and produces one token per call.
//!
//! The functions `next_tok` and `lex` are the mathematical description of
//! tokenization over a sequence of characters; `Lexer::next_token` is proved
//! to produce exactly that token stream.

use crate::token::eof_token;
use crate::token::keyword_kind;
use crate::token::Token;
use crate::token::TokenModel;
use crate::token::TokenType;
use vstd::prelude::*;
use vstd::string::*;

verus! {

/// The four whitespace characters skipped between tokens.
pub open spec fn is_whitespace_char(c: char) -> bool {
    c == ' ' || c == '\t' || c == '\n' || c == '\r'
}

/// Characters that may form an identifier: letters and underscore.
pub open spec fn is_letter_char(c: char) -> bool {
    ('a' <= c && c <= 'z') || ('A' <= c && c <= 'Z') || c == '_'
}

/// Decimal digit characters.
pub open spec fn is_digit_char(c: char) -> bool {
    '0' <= c && c <= '9'
}

/// Length of the longest prefix of `s` whose characters all satisfy `p`.
pub open spec fn run_len(s: Seq<char>, p: spec_fn(char) -> bool) -> nat
    decreases s.len(),
{
    if s.len() > 0 && p(s[0]) {
        (1 + run_len(s.skip(1), p)) as nat
    } else {
        0
    }
}

pub open spec fn whitespace_pred() -> spec_fn(char) -> bool {
    |c: char| is_whitespace_char(c)
}

pub open spec fn letter_pred() -> spec_fn(char) -> bool {
    |c: char| is_letter_char(c)
}

pub open spec fn digit_pred() -> spec_fn(char) -> bool {
    |c: char| is_digit_char(c)
}

/// Length of the leading whitespace of `s`.
pub open spec fn ws_run(s: Seq<char>) -> nat {
    run_len(s, whitespace_pred())
}

/// Length of the leading letter/underscore run of `s`.
pub open spec fn letter_run(s: Seq<char>) -> nat {
    run_len(s, letter_pred())
}

/// Length of the leading digit run of `s`.
pub open spec fn digit_run(s: Seq<char>) -> nat {
    run_len(s, digit_pred())
}

pub proof fn lemma_run_len_le(s: Seq<char>, p: spec_fn(char) -> bool)
    ensures
        run_len(s, p) <= s.len(),
    decreases s.len(),
{
    if s.len() > 0 && p(s[0]) {
        lemma_run_len_le(s.skip(1), p);
    }
}

/// A run is characterized by its contents: if the first `k` characters
/// satisfy `p` and the run stops there, the run length is exactly `k`.
pub proof fn lemma_run_len_is(s: Seq<char>, p: spec_fn(char) -> bool, k: int)
    requires
        0 <= k <= s.len(),
        forall|i: int| 0 <= i < k ==> p(s[i]),
        k == s.len() || !p(s[k]),
    ensures
        run_len(s, p) == k,
    decreases k,
{
    if k == 0 {
    } else {
        assert(p(s[0]));
        assert(forall|i: int| 0 <= i < k - 1 ==> p(s.skip(1)[i]) == p(s[i + 1]));
        lemma_run_len_is(s.skip(1), p, k - 1);
    }
}

pub proof fn lemma_skip_skip<A>(s: Seq<A>, a: int, b: int)
    requires
        0 <= a,
        0 <= b,
        a + b <= s.len(),
    ensures
        s.skip(a).skip(b) == s.skip(a + b),
{
    assert(s.skip(a).skip(b) =~= s.skip(a + b));
}

/// The first token of `s`, together with how many characters producing it
/// consumes, leading whitespace included.
///
/// Single characters map to their operator or delimiter kind; `==` and `!=`
/// take two characters; a maximal letter run is classified through the
/// reserved-word table; a maximal digit run is an integer literal; any other
/// character is ILLEGAL; an exhausted input yields EOF with an empty literal.
#[verifier::opaque]
pub open spec fn next_tok(s: Seq<char>) -> (TokenModel, nat) {
    let w = ws_run(s);
    let t = s.skip(w as int);
    if t.len() == 0 {
        (eof_token(), w)
    } else if t[0] == '=' {
        if t.len() >= 2 && t[1] == '=' {
            (TokenModel { kind: TokenType::EQ, literal: t.take(2) }, (w + 2) as nat)
        } else {
            (TokenModel { kind: TokenType::ASSIGN, literal: t.take(1) }, (w + 1) as nat)
        }
    } else if t[0] == '!' {
        if t.len() >= 2 && t[1] == '=' {
            (TokenModel { kind: TokenType::NotEq, literal: t.take(2) }, (w + 2) as nat)
        } else {
            (TokenModel { kind: TokenType::BANG, literal: t.take(1) }, (w + 1) as nat)
        }
    } else if t[0] == '-' {
        (TokenModel { kind: TokenType::MINUS, literal: t.take(1) }, (w + 1) as nat)
    } else if t[0] == '<' {
        (TokenModel { kind: TokenType::LT, literal: t.take(1) }, (w + 1) as nat)
    } else if t[0] == '>' {
        (TokenModel { kind: TokenType::GT, literal: t.take(1) }, (w + 1) as nat)
    } else if t[0] == '*' {
        (TokenModel { kind: TokenType::ASTERISK, literal: t.take(1) }, (w + 1) as nat)
    } else if t[0] == '/' {
        (TokenModel { kind: TokenType::SLASH, literal: t.take(1) }, (w + 1) as nat)
    } else if t[0] == ';' {
        (TokenModel { kind: TokenType::SEMICOLON, literal: t.take(1) }, (w + 1) as nat)
    } else if t[0] == '(' {
        (TokenModel { kind: TokenType::LPAREN, literal: t.take(1) }, (w + 1) as nat)
    } else if t[0] == ')' {
        (TokenModel { kind: TokenType::RPAREN, literal: t.take(1) }, (w + 1) as nat)
    } else if t[0] == ',' {
        (TokenModel { kind: TokenType::COMMA, literal: t.take(1) }, (w + 1) as nat)
    } else if t[0] == '+' {
        (TokenModel { kind: TokenType::PLUS, literal: t.take(1) }, (w + 1) as nat)
    } else if t[0] == '{' {
        (TokenModel { kind: TokenType::LBRACE, literal: t.take(1) }, (w + 1) as nat)
    } else if t[0] == '}' {
        (TokenModel { kind: TokenType::RBRACE, literal: t.take(1) }, (w + 1) as nat)
    } else if is_letter_char(t[0]) {
        let n = letter_run(t);
        (TokenModel { kind: keyword_kind(t.take(n as int)), literal: t.take(n as int) }, (w + n) as nat)
    } else if is_digit_char(t[0]) {
        let n = digit_run(t);
        (TokenModel { kind: TokenType::INT, literal: t.take(n as int) }, (w + n) as nat)
    } else {
        (TokenModel { kind: TokenType::ILLEGAL, literal: t.take(1) }, (w + 1) as nat)
    }
}

/// The whole token stream of `s`: every token up to and including the one
/// EOF token that closes it.
pub open spec fn lex(s: Seq<char>) -> Seq<TokenModel>
    decreases s.len(),
{
    let (t, n) = next_tok(s);
    if t.kind == TokenType::EOF || s.len() == 0 {
        seq![t]
    } else {
        let step = if 1 <= n <= s.len() {
            n as int
        } else {
            1
        };
        seq![t] + lex(s.skip(step))
    }
}

pub proof fn lemma_next_tok_bounds(s: Seq<char>)
    ensures
        next_tok(s).1 <= s.len(),
        next_tok(s).0.kind == TokenType::EOF ==> next_tok(s).1 == s.len(),
        next_tok(s).0.kind != TokenType::EOF ==> 1 + ws_run(s) <= next_tok(s).1,
{
    reveal(next_tok);
    lemma_run_len_le(s, whitespace_pred());
    let w = ws_run(s);
    let t = s.skip(w as int);
    if t.len() == 0 {
    } else if is_letter_char(t[0]) && t[0] != '=' && t[0] != '!' && t[0] != '-' && t[0] != '<'
        && t[0] != '>' && t[0] != '*' && t[0] != '/' && t[0] != ';' && t[0] != '(' && t[0] != ')'
        && t[0] != ',' && t[0] != '+' && t[0] != '{' && t[0] != '}' {
        lemma_run_len_le(t, letter_pred());
        assert(letter_run(t) >= 1);
    } else if is_digit_char(t[0]) && t[0] != '=' && t[0] != '!' && t[0] != '-' && t[0] != '<'
        && t[0] != '>' && t[0] != '*' && t[0] != '/' && t[0] != ';' && t[0] != '(' && t[0] != ')'
        && t[0] != ',' && t[0] != '+' && t[0] != '{' && t[0] != '}' {
        lemma_run_len_le(t, digit_pred());
        assert(digit_run(t) >= 1);
    }
}

/// A well-formed token stream: nonempty, closed by exactly one EOF token.
pub open spec fn wf_stream(toks: Seq<TokenModel>) -> bool {
    &&& toks.len() >= 1
    &&& toks.last() == eof_token()
    &&& forall|i: int| 0 <= i < toks.len() - 1 ==> (#[trigger] toks[i]).kind != TokenType::EOF
}

#[verifier::rlimit(50)]
pub proof fn lemma_lex_wf(s: Seq<char>)
    ensures
        wf_stream(lex(s)),
    decreases s.len(),
{
    reveal(next_tok);
    lemma_next_tok_bounds(s);
    let (t, n) = next_tok(s);
    if t.kind == TokenType::EOF {
    } else {
        lemma_lex_wf(s.skip(n as int));
        let rest = lex(s.skip(n as int));
        assert(lex(s) == seq![t] + rest);
        assert(lex(s).last() == rest.last());
        assert forall|i: int| 0 <= i < lex(s).len() - 1 implies (#[trigger] lex(s)[i]).kind
            != TokenType::EOF by {
            if i >= 1 {
                assert(lex(s)[i] == rest[i - 1]);
            }
        }
    }
}

/// Producing one token steps the stream: the token is the stream's head,
/// and the characters left over lex to its tail (to the EOF stream once the
/// head is EOF).
#[verifier::rlimit(50)]
pub proof fn lemma_lex_step(s: Seq<char>)
    ensures
        lex(s).first() == next_tok(s).0,
        next_tok(s).0.kind != TokenType::EOF ==> lex(s.skip(next_tok(s).1 as int)) == lex(s).skip(
            1,
        ),
        next_tok(s).0.kind == TokenType::EOF ==> lex(s.skip(next_tok(s).1 as int)) == seq![
            eof_token(),
        ] && lex(s) == seq![eof_token()],
{
    reveal(next_tok);
    lemma_next_tok_bounds(s);
    let (t, n) = next_tok(s);
    if t.kind == TokenType::EOF {
        assert(t == eof_token());
        let s2 = s.skip(n as int);
        assert(s2.len() == 0);
        assert(ws_run(s2) == 0);
        assert(next_tok(s2).0.kind == TokenType::EOF);
        assert(lex(s2) =~= seq![eof_token()]);
        assert(lex(s) =~= seq![eof_token()]);
    } else {
        let rest = lex(s.skip(n as int));
        assert(lex(s) == seq![t] + rest);
        assert((seq![t] + rest).skip(1) =~= rest);
    }
}

/// The tokenizer's state: the input text, the index of the character under
/// the cursor, the index one ahead of it, and the decoded current character
/// (absent once the input is exhausted). Indices count characters, not
/// bytes, so multi-byte input is handled correctly.
pub struct Lexer {
    input: String,
    position: usize,
    read_position: usize,
    ch: Option<char>,
}

impl Lexer {
    /// The cursor sits on a character boundary: `ch` mirrors the character
    /// at `position`, and `read_position` is one ahead until the end.
    pub closed spec fn wf(&self) -> bool {
        &&& self.position <= self.input@.len()
        &&& (self.position < self.input@.len() ==> {
            &&& self.ch == Some(self.input@[self.position as int])
            &&& self.read_position == self.position + 1
        })
        &&& (self.position == self.input@.len() ==> {
            &&& self.ch is None
            &&& self.read_position == self.position
        })
    }

    /// The characters not yet consumed, starting with the one under the
    /// cursor.
    pub closed spec fn rest(&self) -> Seq<char> {
        self.input@.skip(self.position as int)
    }

    /// The whole input text.
    pub closed spec fn text(&self) -> Seq<char> {
        self.input@
    }

    /// The index of the character under the cursor.
    pub closed spec fn cursor(&self) -> int {
        self.position as int
    }

    /// The index one ahead of the cursor.
    pub closed spec fn ahead(&self) -> int {
        self.read_position as int
    }

    /// The decoded character under the cursor, absent at the end of the
    /// input.
    pub closed spec fn current(&self) -> Option<char> {
        self.ch
    }

    /// Creates a tokenizer over `input` with the cursor on its first
    /// character.
    pub fn new(input: String) -> (l: Lexer)
        ensures
            l.wf(),
            l.rest() == input@,
    {
        let mut lexer = Lexer { input, position: 0, read_position: 0, ch: None };
        lexer.read_char();
        proof {
            assert(lexer.rest() =~= lexer.input@);
        }
        lexer
    }

    /// Moves the cursor forward one character; at the end of the input it
    /// sets the current character to absent and stays put.
    pub fn read_char(&mut self)
        ensures
            final(self).text() == old(self).text(),
            old(self).ahead() < old(self).text().len() ==> {
                &&& final(self).current() == Some(old(self).text()[old(self).ahead()])
                &&& final(self).cursor() == old(self).ahead()
                &&& final(self).ahead() == old(self).ahead() + 1
            },
            old(self).ahead() >= old(self).text().len() ==> {
                &&& final(self).current() is None
                &&& final(self).cursor() == old(self).ahead()
                &&& final(self).ahead() == old(self).ahead()
            },
    {
        if self.read_position >= self.input.as_str().unicode_len() {
            self.ch = None;
            self.position = self.read_position;
        } else {
            self.ch = Some(self.input.as_str().get_char(self.read_position));
            self.position = self.read_position;
            self.read_position = self.read_position + 1;
        }
    }

    /// Returns the character one position ahead of the cursor without
    /// consuming anything.
    pub fn peek_char(&self) -> (c: Option<char>)
        ensures
            c == (if self.ahead() < self.text().len() {
                Some(self.text()[self.ahead()])
            } else {
                None::<char>
            }),
    {
        if self.read_position >= self.input.as_str().unicode_len() {
            None
        } else {
            Some(self.input.as_str().get_char(self.read_position))
        }
    }

    /// Consumes the leading whitespace in front of the next token.
    pub fn skip_white_space(&mut self)
        requires
            old(self).wf(),
        ensures
            final(self).wf(),
            final(self).text() == old(self).text(),
            final(self).rest() == old(self).rest().skip(ws_run(old(self).rest()) as int),
    {
        loop
            invariant
                self.wf(),
                self.text() == old(self).text(),
                self.rest().skip(ws_run(self.rest()) as int) == old(self).rest().skip(
                    ws_run(old(self).rest()) as int,
                ),
            ensures
                self.wf(),
                self.text() == old(self).text(),
                ws_run(self.rest()) == 0,
                self.rest().skip(ws_run(self.rest()) as int) == old(self).rest().skip(
                    ws_run(old(self).rest()) as int,
                ),
            decreases self.rest().len(),
        {
            let advance = match self.ch {
                Some(c) => c == ' ' || c == '\t' || c == '\n' || c == '\r',
                None => false,
            };
            if !advance {
                proof {
                    if self.rest().len() > 0 {
                        assert(self.rest()[0] == self.input@[self.position as int]);
                        assert(!whitespace_pred()(self.rest()[0]));
                    }
                }
                break ;
            }
            proof {
                let r = self.rest();
                assert(r[0] == self.input@[self.position as int]);
                assert(whitespace_pred()(r[0]));
                assert(ws_run(r) == 1 + ws_run(r.skip(1)));
                lemma_run_len_le(r.skip(1), whitespace_pred());
                lemma_skip_skip(r, 1, ws_run(r.skip(1)) as int);
            }
            let ghost prev = *self;
            self.read_char();
            proof {
                assert(self.rest() =~= prev.rest().skip(1));
            }
        }
        proof {
            assert(ws_run(self.rest()) == 0);
            assert(self.rest().skip(0) =~= self.rest());
        }
    }

    /// Whether the character under the cursor may form part of an
    /// identifier; false once the input is exhausted.
    pub fn is_letter(&self) -> (r: bool)
        requires
            self.wf(),
        ensures
            r == (self.rest().len() > 0 && is_letter_char(self.rest()[0])),
    {
        match self.ch {
            Some(ch) => ('a' <= ch && ch <= 'z') || ('A' <= ch && ch <= 'Z') || ch == '_',
            None => false,
        }
    }

    /// Whether the character under the cursor is a decimal digit; false
    /// once the input is exhausted.
    pub fn is_digit(&self) -> (r: bool)
        requires
            self.wf(),
        ensures
            r == (self.rest().len() > 0 && is_digit_char(self.rest()[0])),
    {
        match self.ch {
            Some(ch) => '0' <= ch && ch <= '9',
            None => false,
        }
    }

    /// Consumes the maximal letter run under the cursor and returns its
    /// text.
    pub fn read_identifier(&mut self) -> (s: String)
        requires
            old(self).wf(),
        ensures
            final(self).wf(),
            final(self).text() == old(self).text(),
            s@ == old(self).rest().take(letter_run(old(self).rest()) as int),
            final(self).rest() == old(self).rest().skip(letter_run(old(self).rest()) as int),
    {
        let prev_position = self.position;
        while self.is_letter()
            invariant
                self.wf(),
                self.text() == old(self).text(),
                prev_position <= self.position <= self.input@.len(),
                forall|i: int|
                    prev_position <= i < self.position ==> is_letter_char(
                        #[trigger] self.input@[i],
                    ),
            decreases self.input@.len() - self.position,
        {
            self.read_char();
        }
        proof {
            let s0 = old(self).rest();
            let k = self.position - prev_position;
            assert(forall|i: int| 0 <= i < k ==> letter_pred()(s0[i]) == is_letter_char(
                self.input@[prev_position + i],
            ));
            if k < s0.len() {
                assert(s0[k] == self.input@[self.position as int]);
                assert(!letter_pred()(s0[k]));
            }
            lemma_run_len_is(s0, letter_pred(), k);
        }
        let s = self.input.as_str().substring_char(prev_position, self.position).to_owned();
        proof {
            let s0 = old(self).rest();
            let k = self.position - prev_position;
            assert(s@ =~= s0.take(k));
            assert(self.rest() =~= s0.skip(k));
        }
        s
    }

    /// Consumes the maximal digit run under the cursor and returns its
    /// text.
    pub fn read_number(&mut self) -> (s: String)
        requires
            old(self).wf(),
        ensures
            final(self).wf(),
            final(self).text() == old(self).text(),
            s@ == old(self).rest().take(digit_run(old(self).rest()) as int),
            final(self).rest() == old(self).rest().skip(digit_run(old(self).rest()) as int),
    {
        let prev_position = self.position;
        while self.is_digit()
            invariant
                self.wf(),
                self.text() == old(self).text(),
                prev_position <= self.position <= self.input@.len(),
                forall|i: int|
                    prev_position <= i < self.position ==> is_digit_char(
                        #[trigger] self.input@[i],
                    ),
            decreases self.input@.len() - self.position,
        {
            self.read_char();
        }
        proof {
            let s0 = old(self).rest();
            let k = self.position - prev_position;
            assert(forall|i: int| 0 <= i < k ==> digit_pred()(s0[i]) == is_digit_char(
                self.input@[prev_position + i],
            ));
            if k < s0.len() {
                assert(s0[k] == self.input@[self.position as int]);
                assert(!digit_pred()(s0[k]));
            }
            lemma_run_len_is(s0, digit_pred(), k);
        }
        let s = self.input.as_str().substring_char(prev_position, self.position).to_owned();
        proof {
            let s0 = old(self).rest();
            let k = self.position - prev_position;
            assert(s@ =~= s0.take(k));
            assert(self.rest() =~= s0.skip(k));
        }
        s
    }

    /// Consumes the single character under the cursor as a token of kind
    /// `kind`.
    fn single_char_token(&mut self, kind: TokenType) -> (tok: Token)
        requires
            old(self).wf(),
            old(self).rest().len() >= 1,
        ensures
            final(self).wf(),
            final(self).text() == old(self).text(),
            tok@ == (TokenModel { kind, literal: old(self).rest().take(1) }),
            final(self).rest() == old(self).rest().skip(1),
    {
        let lit = self.input.as_str().substring_char(self.position, self.position + 1).to_owned();
        proof {
            assert(lit@ =~= old(self).rest().take(1));
        }
        self.read_char();
        proof {
            assert(self.rest() =~= old(self).rest().skip(1));
        }
        Token::new(kind, lit)
    }

    /// Consumes the two characters under the cursor as a token of kind
    /// `kind`.
    fn two_char_token(&mut self, kind: TokenType) -> (tok: Token)
        requires
            old(self).wf(),
            old(self).rest().len() >= 2,
        ensures
            final(self).wf(),
            final(self).text() == old(self).text(),
            tok@ == (TokenModel { kind, literal: old(self).rest().take(2) }),
            final(self).rest() == old(self).rest().skip(2),
    {
        let len = self.input.as_str().unicode_len();
        let lit = self.input.as_str().substring_char(self.position, self.position + 2).to_owned();
        proof {
            assert(lit@ =~= old(self).rest().take(2));
        }
        self.read_char();
        self.read_char();
        proof {
            assert(self.rest() =~= old(self).rest().skip(2));
        }
        Token::new(kind, lit)
    }

    /// Produces exactly the next token of the input: `next_tok` of the
    /// unconsumed characters. At the end of the input it returns the EOF
    /// token, and keeps returning it on every further call.
    pub fn next_token(&mut self) -> (tok: Token)
        requires
            old(self).wf(),
        ensures
            final(self).wf(),
            final(self).text() == old(self).text(),
            tok@ == next_tok(old(self).rest()).0,
            final(self).rest() == old(self).rest().skip(next_tok(old(self).rest()).1 as int),
    {
        proof {
            reveal(next_tok);
        }
        let ghost s0 = old(self).rest();
        self.skip_white_space();
        let ghost w = ws_run(s0) as int;
        let ghost t = self.rest();
        proof {
            lemma_run_len_le(s0, whitespace_pred());
        }
        match self.ch {
            None => {
                let tok = Token::new(TokenType::EOF, String::new());
                proof {
                    assert(t.len() == 0);
                    assert(s0.skip(next_tok(s0).1 as int) =~= t);
                }
                self.read_char();
                tok
            },
            Some('-') => {
                let tok = self.single_char_token(TokenType::MINUS);
                proof {
                    lemma_skip_skip(s0, w, 1);
                }
                tok
            },
            Some('<') => {
                let tok = self.single_char_token(TokenType::LT);
                proof {
                    lemma_skip_skip(s0, w, 1);
                }
                tok
            },
            Some('>') => {
                let tok = self.single_char_token(TokenType::GT);
                proof {
                    lemma_skip_skip(s0, w, 1);
                }
                tok
            },
            Some('*') => {
                let tok = self.single_char_token(TokenType::ASTERISK);
                proof {
                    lemma_skip_skip(s0, w, 1);
                }
                tok
            },
            Some('/') => {
                let tok = self.single_char_token(TokenType::SLASH);
                proof {
                    lemma_skip_skip(s0, w, 1);
                }
                tok
            },
            Some('!') => {
                let two = match self.peek_char() {
                    Some(c2) => c2 == '=',
                    None => false,
                };
                if two {
                    let tok = self.two_char_token(TokenType::NotEq);
                    proof {
                        lemma_skip_skip(s0, w, 2);
                    }
                    tok
                } else {
                    let tok = self.single_char_token(TokenType::BANG);
                    proof {
                        lemma_skip_skip(s0, w, 1);
                    }
                    tok
                }
            },
            Some('=') => {
                let two = match self.peek_char() {
                    Some(c2) => c2 == '=',
                    None => false,
                };
                if two {
                    let tok = self.two_char_token(TokenType::EQ);
                    proof {
                        lemma_skip_skip(s0, w, 2);
                    }
                    tok
                } else {
                    let tok = self.single_char_token(TokenType::ASSIGN);
                    proof {
                        lemma_skip_skip(s0, w, 1);
                    }
                    tok
                }
            },
            Some(';') => {
                let tok = self.single_char_token(TokenType::SEMICOLON);
                proof {
                    lemma_skip_skip(s0, w, 1);
                }
                tok
            },
            Some('(') => {
                let tok = self.single_char_token(TokenType::LPAREN);
                proof {
                    lemma_skip_skip(s0, w, 1);
                }
                tok
            },
            Some(')') => {
                let tok = self.single_char_token(TokenType::RPAREN);
                proof {
                    lemma_skip_skip(s0, w, 1);
                }
                tok
            },
            Some(',') => {
                let tok = self.single_char_token(TokenType::COMMA);
                proof {
                    lemma_skip_skip(s0, w, 1);
                }
                tok
            },
            Some('+') => {
                let tok = self.single_char_token(TokenType::PLUS);
                proof {
                    lemma_skip_skip(s0, w, 1);
                }
                tok
            },
            Some('{') => {
                let tok = self.single_char_token(TokenType::LBRACE);
                proof {
                    lemma_skip_skip(s0, w, 1);
                }
                tok
            },
            Some('}') => {
                let tok = self.single_char_token(TokenType::RBRACE);
                proof {
                    lemma_skip_skip(s0, w, 1);
                }
                tok
            },
            Some(_) => {
                if self.is_letter() {
                    let val = self.read_identifier();
                    proof {
                        lemma_run_len_le(t, letter_pred());
                        lemma_skip_skip(s0, w, letter_run(t) as int);
                    }
                    let tok = Token::new(Token::look_up_ident(val.clone()), val);
                    tok
                } else if self.is_digit() {
                    let val = self.read_number();
                    proof {
                        lemma_run_len_le(t, digit_pred());
                        lemma_skip_skip(s0, w, digit_run(t) as int);
                    }
                    let tok = Token::new(TokenType::INT, val);
                    tok
                } else {
                    let tok = self.single_char_token(TokenType::ILLEGAL);
                    proof {
                        lemma_skip_skip(s0, w, 1);
                    }
                    tok
                }
            },
        }
    }
}

} // verus!
