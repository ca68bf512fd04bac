use monkey::Lexer;
use monkey::Token;
use monkey::TokenType;

#[test]
fn test_next_token_simple() {
    let input = "=+(){},;!".to_string();
    let hope_test_val = vec![
        Token {
            kind: TokenType::ASSIGN,
            literal: "=".to_string(),
        },
        Token {
            kind: TokenType::PLUS,
            literal: "+".to_string(),
        },
        Token {
            kind: TokenType::LPAREN,
            literal: "(".to_string(),
        },
        Token {
            kind: TokenType::RPAREN,
            literal: ")".to_string(),
        },
        Token {
            kind: TokenType::LBRACE,
            literal: "{".to_string(),
        },
        Token {
            kind: TokenType::RBRACE,
            literal: "}".to_string(),
        },
        Token {
            kind: TokenType::COMMA,
            literal: ",".to_string(),
        },
        Token {
            kind: TokenType::SEMICOLON,
            literal: ";".to_string(),
        },
        Token {
            kind: TokenType::BANG,
            literal: "!".to_string(),
        },
        Token {
            kind: TokenType::EOF,
            literal: "".to_string(),
        },
    ];

    let mut lexer = Lexer::new(input);

    for item in hope_test_val {
        let tok = lexer.next_token();
        assert_eq!(tok.kind, item.kind);
        assert_eq!(tok.literal, item.literal);
    }
}

#[test]
fn test_next_token() {
    let input = "let five = 5;\
        let ten = 10;\
        fn(x,y) {\
        x+y;\
        };\
        10 != 9;\
        return true;"
        .to_string();
    let hope_test_val = vec![
        Token {
            kind: TokenType::LET,
            literal: "let".to_string(),
        },
        Token {
            kind: TokenType::IDENT,
            literal: "five".to_string(),
        },
        Token {
            kind: TokenType::ASSIGN,
            literal: "=".to_string(),
        },
        Token {
            kind: TokenType::INT,
            literal: "5".to_string(),
        },
        Token {
            kind: TokenType::SEMICOLON,
            literal: ";".to_string(),
        },
        Token {
            kind: TokenType::LET,
            literal: "let".to_string(),
        },
        Token {
            kind: TokenType::IDENT,
            literal: "ten".to_string(),
        },
        Token {
            kind: TokenType::ASSIGN,
            literal: "=".to_string(),
        },
        Token {
            kind: TokenType::INT,
            literal: "10".to_string(),
        },
        Token {
            kind: TokenType::SEMICOLON,
            literal: ";".to_string(),
        },
        Token {
            kind: TokenType::FUNCTION,
            literal: "fn".to_string(),
        },
        Token {
            kind: TokenType::LPAREN,
            literal: "(".to_string(),
        },
        Token {
            kind: TokenType::IDENT,
            literal: "x".to_string(),
        },
        Token {
            kind: TokenType::COMMA,
            literal: ",".to_string(),
        },
        Token {
            kind: TokenType::IDENT,
            literal: "y".to_string(),
        },
        Token {
            kind: TokenType::RPAREN,
            literal: ")".to_string(),
        },
        Token {
            kind: TokenType::LBRACE,
            literal: "{".to_string(),
        },
        Token {
            kind: TokenType::IDENT,
            literal: "x".to_string(),
        },
        Token {
            kind: TokenType::PLUS,
            literal: "+".to_string(),
        },
        Token {
            kind: TokenType::IDENT,
            literal: "y".to_string(),
        },
        Token {
            kind: TokenType::SEMICOLON,
            literal: ";".to_string(),
        },
        Token {
            kind: TokenType::RBRACE,
            literal: "}".to_string(),
        },
        Token {
            kind: TokenType::SEMICOLON,
            literal: ";".to_string(),
        },
        Token {
            kind: TokenType::INT,
            literal: "10".to_string(),
        },
        Token {
            kind: TokenType::NotEq,
            literal: "!=".to_string(),
        },
        Token {
            kind: TokenType::INT,
            literal: "9".to_string(),
        },
        Token {
            kind: TokenType::SEMICOLON,
            literal: ";".to_string(),
        },
        Token {
            kind: TokenType::RETURN,
            literal: "return".to_string(),
        },
        Token {
            kind: TokenType::TRUE,
            literal: "true".to_string(),
        },
        Token {
            kind: TokenType::SEMICOLON,
            literal: ";".to_string(),
        },
        Token {
            kind: TokenType::EOF,
            literal: "".to_string(),
        },
    ];

    let mut lexer = Lexer::new(input);

    for item in hope_test_val {
        let tok = lexer.next_token();
        assert_eq!(tok.kind, item.kind);
        assert_eq!(tok.literal, item.literal);
    }
}

// Two-character lookahead: `!=` must not be consumed as `!` then `=`.
#[test]
fn test_two_char_lookahead() {
    let mut lexer = Lexer::new("10 != 9".to_string());
    let expected = vec![
        (TokenType::INT, "10"),
        (TokenType::NotEq, "!="),
        (TokenType::INT, "9"),
        (TokenType::EOF, ""),
    ];
    for (kind, literal) in expected {
        let tok = lexer.next_token();
        assert_eq!(tok.kind, kind);
        assert_eq!(tok.literal, literal);
    }
}

// The EOF token comes back on every further call once the input is done.
#[test]
fn test_eof_is_repeated() {
    let mut lexer = Lexer::new("x".to_string());
    assert_eq!(lexer.next_token().kind, TokenType::IDENT);
    assert_eq!(lexer.next_token().kind, TokenType::EOF);
    assert_eq!(lexer.next_token().kind, TokenType::EOF);
    assert_eq!(lexer.next_token().literal, "");
}

// An unrecognized character becomes an ILLEGAL token, not an error.
#[test]
fn test_illegal_character() {
    let mut lexer = Lexer::new("@".to_string());
    let tok = lexer.next_token();
    assert_eq!(tok.kind, TokenType::ILLEGAL);
    assert_eq!(tok.literal, "@");
}

// Keyword classification through the reserved-word table.
#[test]
fn test_look_up_ident() {
    assert_eq!(
        Token::look_up_ident("fn".to_string()),
        TokenType::FUNCTION
    );
    assert_eq!(Token::look_up_ident("let".to_string()), TokenType::LET);
    assert_eq!(Token::look_up_ident("true".to_string()), TokenType::TRUE);
    assert_eq!(Token::look_up_ident("false".to_string()), TokenType::FALSE);
    assert_eq!(Token::look_up_ident("if".to_string()), TokenType::IF);
    assert_eq!(Token::look_up_ident("else".to_string()), TokenType::ELSE);
    assert_eq!(
        Token::look_up_ident("return".to_string()),
        TokenType::RETURN
    );
    assert_eq!(Token::look_up_ident("foobar".to_string()), TokenType::IDENT);
    assert_eq!(Token::look_up_ident("lets".to_string()), TokenType::IDENT);
}

// The reserved-word table has its seven fixed entries.
#[test]
fn test_keyword_table() {
    let kw = monkey::KeyWord::new();
    assert_eq!(kw.key_word.len(), 7);
    assert_eq!(kw.key_word[0].0, "fn");
    assert_eq!(kw.key_word[0].1, TokenType::FUNCTION);
    assert_eq!(kw.key_word[6].0, "return");
    assert_eq!(kw.key_word[6].1, TokenType::RETURN);
}

// Whitespace of all four kinds separates tokens.
#[test]
fn test_whitespace_kinds() {
    let mut lexer = Lexer::new(" \t\r\n5 \t\n".to_string());
    let tok = lexer.next_token();
    assert_eq!(tok.kind, TokenType::INT);
    assert_eq!(tok.literal, "5");
    assert_eq!(lexer.next_token().kind, TokenType::EOF);
}

// The printable name of a token kind, as diagnostics spell it.
#[test]
fn test_token_type_text() {
    assert_eq!(monkey::token::token_type_text(TokenType::ASSIGN), "ASSIGN");
    assert_eq!(monkey::token::token_type_text(TokenType::NotEq), "NotEq");
}
