//! Front end for a small expression language: a tokenizer, a
//! precedence-climbing parser, and the syntax tree they produce.
//!
//! Source text flows one way: the tokenizer turns a string into tokens,
//! the parser turns tokens into a `Program`, collecting diagnostics
//! instead of aborting on malformed input.

pub mod ast;
pub mod lexer;
pub mod parser;
pub mod token;

pub use ast::BlockStatement;
pub use ast::BooleanLiteral;
pub use ast::CallExpression;
pub use ast::Expression;
pub use ast::ExpressionStatement;
pub use ast::FunctionLiteral;
pub use ast::Identifier;
pub use ast::IfExpression;
pub use ast::InfixExpression;
pub use ast::IntegerLiteral;
pub use ast::LetStatement;
pub use ast::Node;
pub use ast::PrefixExpression;
pub use ast::Program;
pub use ast::ReturnStatement;
pub use ast::Statement;
pub use lexer::Lexer;
pub use parser::Parser;
pub use parser::Precedence;
pub use token::KeyWord;
pub use token::Token;
pub use token::TokenType;
