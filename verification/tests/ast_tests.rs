use monkey::Expression;
use monkey::Identifier;
use monkey::LetStatement;
use monkey::Node;
use monkey::Program;
use monkey::Statement;
use monkey::Token;
use monkey::TokenType;

#[test]
fn test_macros() {
    let i = &Identifier {
        token: Token::new(TokenType::LET, "let".to_string()),
        value: "test_val".to_string(),
    };
    assert_eq!("let".to_string(), i.token_literal());
}

#[test]
fn test_let_string() {
    let program = Program {
        statements: vec![Statement::Let(LetStatement {
            token: Token {
                kind: TokenType::LET,
                literal: "let".to_string(),
            },
            name: Identifier {
                token: Token {
                    kind: TokenType::IDENT,
                    literal: "myVar".to_string(),
                },
                value: "myVar".to_string(),
            },
            value: Expression::Ident(Identifier {
                token: Token {
                    kind: TokenType::IDENT,
                    literal: "anotherVar".to_string(),
                },
                value: "anotherVar".to_string(),
            }),
        })],
    };
    assert_eq!(program.render(), "let myVar = anotherVar;")
}

// An empty program answers an empty token literal.
#[test]
fn test_empty_program_token_literal() {
    let program = Program { statements: vec![] };
    assert_eq!(program.token_literal(), "");
    assert_eq!(program.render(), "");
}

// A program's token literal is its first statement's.
#[test]
fn test_program_token_literal() {
    let program = Program {
        statements: vec![Statement::Let(LetStatement {
            token: Token::new(TokenType::LET, "let".to_string()),
            name: Identifier {
                token: Token::new(TokenType::IDENT, "x".to_string()),
                value: "x".to_string(),
            },
            value: Expression::Ident(Identifier {
                token: Token::new(TokenType::IDENT, "y".to_string()),
                value: "y".to_string(),
            }),
        })],
    };
    assert_eq!(program.token_literal(), "let");
}
