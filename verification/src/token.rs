//! Tokens: the smallest lexical units, each a kind paired with the exact
//! source text that produced it, plus the fixed table of reserved words.

use vstd::prelude::*;
use vstd::string::StringExecFns;

verus! {

/// The closed set of token kinds: end-of-input, an unrecognized character,
/// identifiers, integer literals, and one entry per operator, delimiter and
/// reserved word.
#[derive(Eq, PartialEq, Debug, Clone, Copy, Structural)]
pub enum TokenType {
    ILLEGAL,
    EOF,
    IDENT,
    INT,
    ASSIGN,
    PLUS,
    MINUS,
    BANG,
    ASTERISK,
    SLASH,
    LT,
    GT,
    EQ,
    NotEq,
    COMMA,
    SEMICOLON,
    LPAREN,
    RPAREN,
    LBRACE,
    RBRACE,
    FUNCTION,
    LET,
    TRUE,
    FALSE,
    IF,
    ELSE,
    RETURN,
}

/// Mathematical value of a token: its kind and its literal text as a
/// sequence of characters.
pub struct TokenModel {
    pub kind: TokenType,
    pub literal: Seq<char>,
}

/// The token that marks the end of the input; its literal is empty.
pub open spec fn eof_token() -> TokenModel {
    TokenModel { kind: TokenType::EOF, literal: Seq::empty() }
}

/// A token: its kind and the exact source text it was read from.
/// Equality is structural; a token has no identity beyond its fields.
#[derive(Debug)]
pub struct Token {
    pub kind: TokenType,
    pub literal: String,
}

impl View for Token {
    type V = TokenModel;

    open spec fn view(&self) -> TokenModel {
        TokenModel { kind: self.kind, literal: self.literal@ }
    }
}

impl Clone for Token {
    fn clone(&self) -> (t: Token)
        ensures
            t@ == self@,
    {
        Token { kind: self.kind, literal: self.literal.clone() }
    }
}

/// Classification of an identifier's text: one of the seven reserved words
/// maps to its dedicated kind, every other name is a plain identifier.
pub open spec fn keyword_kind(name: Seq<char>) -> TokenType {
    if name == "fn"@ {
        TokenType::FUNCTION
    } else if name == "let"@ {
        TokenType::LET
    } else if name == "true"@ {
        TokenType::TRUE
    } else if name == "false"@ {
        TokenType::FALSE
    } else if name == "if"@ {
        TokenType::IF
    } else if name == "else"@ {
        TokenType::ELSE
    } else if name == "return"@ {
        TokenType::RETURN
    } else {
        TokenType::IDENT
    }
}

/// The fixed reserved-word table, in its declaration order.
pub open spec fn keyword_entries() -> Seq<(Seq<char>, TokenType)> {
    seq![
        ("fn"@, TokenType::FUNCTION),
        ("let"@, TokenType::LET),
        ("true"@, TokenType::TRUE),
        ("false"@, TokenType::FALSE),
        ("if"@, TokenType::IF),
        ("else"@, TokenType::ELSE),
        ("return"@, TokenType::RETURN),
    ]
}

/// The reserved-word table held as data, so that callers can walk the
/// entries; its contents are exactly `keyword_entries`.
pub struct KeyWord {
    pub key_word: Vec<(String, TokenType)>,
}

impl KeyWord {
    /// Builds the table with its seven fixed entries.
    pub fn new() -> (k: KeyWord)
        ensures
            k.key_word@.len() == keyword_entries().len(),
            forall|i: int|
                0 <= i < keyword_entries().len() ==> (#[trigger] k.key_word@[i]).0@
                    == keyword_entries()[i].0 && k.key_word@[i].1 == keyword_entries()[i].1,
    {
        let mut v: Vec<(String, TokenType)> = Vec::new();
        v.push((String::from_str("fn"), TokenType::FUNCTION));
        v.push((String::from_str("let"), TokenType::LET));
        v.push((String::from_str("true"), TokenType::TRUE));
        v.push((String::from_str("false"), TokenType::FALSE));
        v.push((String::from_str("if"), TokenType::IF));
        v.push((String::from_str("else"), TokenType::ELSE));
        v.push((String::from_str("return"), TokenType::RETURN));
        KeyWord { key_word: v }
    }
}

impl Token {
    /// Packs a kind and a literal into a token.
    pub fn new(token_type: TokenType, literal: String) -> (t: Token)
        ensures
            t@ == (TokenModel { kind: token_type, literal: literal@ }),
    {
        Token { kind: token_type, literal }
    }

    /// Classifies an identifier's text by walking the reserved-word table.
    pub fn look_up_ident(ident: String) -> (t: TokenType)
        ensures
            t == keyword_kind(ident@),
    {
        let kw = KeyWord::new();
        let n = kw.key_word.len();
        let mut i: usize = 0;
        while i < n
            invariant
                n == kw.key_word@.len(),
                n == keyword_entries().len(),
                forall|j: int|
                    0 <= j < keyword_entries().len() ==> (#[trigger] kw.key_word@[j]).0@
                        == keyword_entries()[j].0 && kw.key_word@[j].1 == keyword_entries()[j].1,
                forall|j: int| 0 <= j < i ==> keyword_entries()[j].0 != ident@,
            decreases n - i,
        {
            if kw.key_word[i].0 == ident {
                proof {
                    reveal_strlit("fn");
                    reveal_strlit("let");
                    reveal_strlit("true");
                    reveal_strlit("false");
                    reveal_strlit("if");
                    reveal_strlit("else");
                    reveal_strlit("return");
                }
                return kw.key_word[i].1;
            }
            i += 1;
        }
        TokenType::IDENT
    }
}

/// The printable name of a token kind, as diagnostics spell it.
#[verifier::opaque]
pub open spec fn token_type_name(t: TokenType) -> Seq<char> {
    match t {
        TokenType::ILLEGAL => "ILLEGAL"@,
        TokenType::EOF => "EOF"@,
        TokenType::IDENT => "IDENT"@,
        TokenType::INT => "INT"@,
        TokenType::ASSIGN => "ASSIGN"@,
        TokenType::PLUS => "PLUS"@,
        TokenType::MINUS => "MINUS"@,
        TokenType::BANG => "BANG"@,
        TokenType::ASTERISK => "ASTERISK"@,
        TokenType::SLASH => "SLASH"@,
        TokenType::LT => "LT"@,
        TokenType::GT => "GT"@,
        TokenType::EQ => "EQ"@,
        TokenType::NotEq => "NotEq"@,
        TokenType::COMMA => "COMMA"@,
        TokenType::SEMICOLON => "SEMICOLON"@,
        TokenType::LPAREN => "LPAREN"@,
        TokenType::RPAREN => "RPAREN"@,
        TokenType::LBRACE => "LBRACE"@,
        TokenType::RBRACE => "RBRACE"@,
        TokenType::FUNCTION => "FUNCTION"@,
        TokenType::LET => "LET"@,
        TokenType::TRUE => "TRUE"@,
        TokenType::FALSE => "FALSE"@,
        TokenType::IF => "IF"@,
        TokenType::ELSE => "ELSE"@,
        TokenType::RETURN => "RETURN"@,
    }
}

/// The printable name of a token kind, for building diagnostics.
pub fn token_type_text(t: TokenType) -> (s: String)
    ensures
        s@ == token_type_name(t),
{
    proof {
        reveal(token_type_name);
    }
    match t {
        TokenType::ILLEGAL => String::from_str("ILLEGAL"),
        TokenType::EOF => String::from_str("EOF"),
        TokenType::IDENT => String::from_str("IDENT"),
        TokenType::INT => String::from_str("INT"),
        TokenType::ASSIGN => String::from_str("ASSIGN"),
        TokenType::PLUS => String::from_str("PLUS"),
        TokenType::MINUS => String::from_str("MINUS"),
        TokenType::BANG => String::from_str("BANG"),
        TokenType::ASTERISK => String::from_str("ASTERISK"),
        TokenType::SLASH => String::from_str("SLASH"),
        TokenType::LT => String::from_str("LT"),
        TokenType::GT => String::from_str("GT"),
        TokenType::EQ => String::from_str("EQ"),
        TokenType::NotEq => String::from_str("NotEq"),
        TokenType::COMMA => String::from_str("COMMA"),
        TokenType::SEMICOLON => String::from_str("SEMICOLON"),
        TokenType::LPAREN => String::from_str("LPAREN"),
        TokenType::RPAREN => String::from_str("RPAREN"),
        TokenType::LBRACE => String::from_str("LBRACE"),
        TokenType::RBRACE => String::from_str("RBRACE"),
        TokenType::FUNCTION => String::from_str("FUNCTION"),
        TokenType::LET => String::from_str("LET"),
        TokenType::TRUE => String::from_str("TRUE"),
        TokenType::FALSE => String::from_str("FALSE"),
        TokenType::IF => String::from_str("IF"),
        TokenType::ELSE => String::from_str("ELSE"),
        TokenType::RETURN => String::from_str("RETURN"),
    }
}

} // verus!
